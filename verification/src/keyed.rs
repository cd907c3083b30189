//! Rows keyed by reference name: the sorted distinct names of one or two row lists, the
//! alignment of two sides' rows by name, and the grouping of one side's rows by name.
use vstd::hash_map::StringHashMap;
use vstd::prelude::*;

use crate::sorting::{sort_texts, text_le};

verus! {

/// Some row of `keys` carries name `k`.
pub open spec fn has_key(keys: Seq<String>, k: Seq<char>) -> bool {
    exists|i: int| 0 <= i < keys.len() && (#[trigger] keys[i])@ == k
}

/// Each name of `keys` with the position of the last row that carries it, which is the row
/// a name-keyed map filled in order retains.
pub open spec fn last_index_of(keys: Seq<String>) -> Map<Seq<char>, usize>
    decreases keys.len(),
{
    if keys.len() == 0 {
        Map::empty()
    } else {
        last_index_of(keys.drop_last()).insert(keys.last()@, (keys.len() - 1) as usize)
    }
}

/// The positions of the rows of `keys` that carry name `k`, ascending.
pub open spec fn positions_of(keys: Seq<String>, k: Seq<char>) -> Seq<usize>
    decreases keys.len(),
{
    if keys.len() == 0 {
        Seq::empty()
    } else {
        positions_of(keys.drop_last(), k) + if keys.last()@ == k {
            seq![(keys.len() - 1) as usize]
        } else {
            Seq::empty()
        }
    }
}

/// Names in strictly ascending byte order.
pub open spec fn names_ascending(names: Seq<Seq<char>>) -> bool {
    forall|x: int, y: int| 0 <= x < y < names.len() ==> #[trigger] names[x] != #[trigger] names[y] && text_le(names[x], names[y])
}

pub open spec fn views(s: Seq<String>) -> Seq<Seq<char>> {
    s.map_values(|k: String| k@)
}

pub proof fn lemma_last_index_of(keys: Seq<String>)
    requires
        keys.len() <= usize::MAX,
    ensures
        forall|k: Seq<char>| #[trigger] last_index_of(keys).contains_key(k) <==> has_key(keys, k),
        forall|k: Seq<char>| #[trigger] last_index_of(keys).contains_key(k) ==> {
            let i = last_index_of(keys)[k] as int;
            &&& 0 <= i < keys.len()
            &&& keys[i]@ == k
            &&& forall|j: int| i < j < keys.len() ==> (#[trigger] keys[j])@ != k
        },
    decreases keys.len(),
{
    if keys.len() > 0 {
        let pre = keys.drop_last();
        lemma_last_index_of(pre);
        assert forall|k: Seq<char>| #[trigger] last_index_of(keys).contains_key(k) <==> has_key(keys, k) by {
            if has_key(keys, k) {
                let i = choose|i: int| 0 <= i < keys.len() && (#[trigger] keys[i])@ == k;
                if i < keys.len() - 1 {
                    assert(pre[i] == keys[i]);
                    assert(has_key(pre, k));
                    assert(last_index_of(pre).contains_key(k));
                }
            }
            if last_index_of(keys).contains_key(k) && k != keys.last()@ {
                assert(last_index_of(pre).contains_key(k));
                assert(has_key(pre, k));
                let i = choose|i: int| 0 <= i < pre.len() && (#[trigger] pre[i])@ == k;
                assert(keys[i] == pre[i]);
            }
        }
        assert forall|k: Seq<char>| #[trigger] last_index_of(keys).contains_key(k) implies {
            let i = last_index_of(keys)[k] as int;
            &&& 0 <= i < keys.len()
            &&& keys[i]@ == k
            &&& forall|j: int| i < j < keys.len() ==> (#[trigger] keys[j])@ != k
        } by {
            if k != keys.last()@ {
                let i = last_index_of(pre)[k] as int;
                assert(keys[i] == pre[i]);
                assert forall|j: int| i < j < keys.len() implies (#[trigger] keys[j])@ != k by {
                    if j < keys.len() - 1 {
                        assert(pre[j] == keys[j]);
                    }
                }
            }
        }
    }
}

proof fn lemma_has_key_push(s: Seq<String>, x: String, k: Seq<char>)
    ensures
        has_key(s.push(x), k) <==> has_key(s, k) || x@ == k,
{
    if has_key(s, k) {
        let i = choose|i: int| 0 <= i < s.len() && (#[trigger] s[i])@ == k;
        assert(s.push(x)[i] == s[i]);
    }
    if x@ == k {
        assert(s.push(x)[s.len() as int] == x);
    }
    if has_key(s.push(x), k) && x@ != k {
        let i = choose|i: int| 0 <= i < s.len() + 1 && (#[trigger] s.push(x)[i])@ == k;
        assert(s[i] == s.push(x)[i]);
    }
}

/// The name map a scan of `keys` fills: each name to the position of its last row.
fn last_index_map(keys: &Vec<String>) -> (m: StringHashMap<usize>)
    ensures
        m@ == last_index_of(keys@),
{
    let mut m: StringHashMap<usize> = StringHashMap::new();
    let mut i: usize = 0;
    while i < keys.len()
        invariant
            i <= keys@.len(),
            m@ == last_index_of(keys@.subrange(0, i as int)),
        decreases keys@.len() - i,
    {
        proof {
            assert(keys@.subrange(0, i as int + 1).drop_last() =~= keys@.subrange(0, i as int));
        }
        m.insert(keys[i].clone(), i);
        i = i + 1;
    }
    assert(keys@.subrange(0, keys@.len() as int) =~= keys@);
    m
}

/// Appends the names of `keys` that `out` does not hold yet, in order.
fn add_new_names(out: &mut Vec<String>, seen: &mut StringHashMap<usize>, keys: &Vec<String>)
    requires
        forall|x: int, y: int| 0 <= x < y < old(out)@.len() ==> (#[trigger] old(out)@[x])@ != (#[trigger] old(out)@[y])@,
        forall|k: Seq<char>| #[trigger] old(seen)@.contains_key(k) <==> has_key(old(out)@, k),
    ensures
        forall|x: int, y: int| 0 <= x < y < final(out)@.len() ==> (#[trigger] final(out)@[x])@ != (#[trigger] final(out)@[y])@,
        forall|k: Seq<char>| #[trigger] final(seen)@.contains_key(k) <==> has_key(final(out)@, k),
        forall|k: Seq<char>| #[trigger] has_key(final(out)@, k) <==> has_key(old(out)@, k) || has_key(keys@, k),
{
    let ghost start = out@;
    let mut i: usize = 0;
    while i < keys.len()
        invariant
            i <= keys@.len(),
            forall|x: int, y: int| 0 <= x < y < out@.len() ==> (#[trigger] out@[x])@ != (#[trigger] out@[y])@,
            forall|k: Seq<char>| #[trigger] seen@.contains_key(k) <==> has_key(out@, k),
            forall|k: Seq<char>| #[trigger] has_key(out@, k) <==> has_key(start, k) || has_key(keys@.subrange(0, i as int), k),
        decreases keys@.len() - i,
    {
        let ghost before = out@;
        proof {
            assert(keys@.subrange(0, i as int + 1) =~= keys@.subrange(0, i as int).push(keys@[i as int]));
            assert forall|k: Seq<char>| has_key(keys@.subrange(0, i as int + 1), k) <==> has_key(keys@.subrange(0, i as int), k)
                || keys@[i as int]@ == k by {
                lemma_has_key_push(keys@.subrange(0, i as int), keys@[i as int], k);
            }
        }
        if !seen.contains_key(keys[i].as_str()) {
            let name = keys[i].clone();
            seen.insert(name.clone(), 0);
            out.push(name);
            proof {
                assert forall|k: Seq<char>| #[trigger] has_key(out@, k) <==> has_key(before, k) || keys@[i as int]@ == k by {
                    lemma_has_key_push(before, keys@[i as int], k);
                }
                assert forall|x: int, y: int| 0 <= x < y < out@.len() implies (#[trigger] out@[x])@ != (#[trigger] out@[y])@ by {
                    if y == before.len() {
                        assert(before[x] == out@[x]);
                        assert(has_key(before, before[x]@));
                    } else {
                        assert(before[x] == out@[x] && before[y] == out@[y]);
                    }
                }
            }
        }
        i = i + 1;
    }
    assert(keys@.subrange(0, keys@.len() as int) =~= keys@);
}

/// The distinct names of the rows of `a` and `b`, ascending by bytes (the key order of a
/// name-keyed `BTreeMap`).
pub fn distinct_sorted(a: &Vec<String>, b: &Vec<String>) -> (names: Vec<String>)
    ensures
        names_ascending(views(names@)),
        forall|k: Seq<char>| #[trigger] has_key(names@, k) <==> has_key(a@, k) || has_key(b@, k),
{
    let mut out: Vec<String> = Vec::new();
    let mut seen: StringHashMap<usize> = StringHashMap::new();
    add_new_names(&mut out, &mut seen, a);
    add_new_names(&mut out, &mut seen, b);
    let ghost unsorted = out@;
    proof {
        assert(unsorted.no_duplicates()) by {
            assert forall|x: int, y: int| 0 <= x < unsorted.len() && 0 <= y < unsorted.len() && x != y implies unsorted[x]
                != unsorted[y] by {
                if x < y {
                    assert(unsorted[x]@ != unsorted[y]@);
                } else {
                    assert(unsorted[y]@ != unsorted[x]@);
                }
            }
        }
        unsorted.lemma_multiset_has_no_duplicates();
    }
    sort_texts(&mut out);
    proof {
        out@.lemma_multiset_has_no_duplicates_conv();
        assert forall|m: int| 0 <= m < out@.len() implies unsorted.contains(#[trigger] out@[m]) by {
            vstd::seq_lib::to_multiset_contains(out@, out@[m]);
            vstd::seq_lib::to_multiset_contains(unsorted, out@[m]);
            assert(out@.contains(out@[m]));
        }
        assert forall|t: int| 0 <= t < unsorted.len() implies out@.contains(#[trigger] unsorted[t]) by {
            vstd::seq_lib::to_multiset_contains(out@, unsorted[t]);
            vstd::seq_lib::to_multiset_contains(unsorted, unsorted[t]);
        }
        let v = views(out@);
        assert forall|x: int, y: int| 0 <= x < y < v.len() implies #[trigger] v[x] != #[trigger] v[y] && text_le(v[x], v[y]) by {
            assert(unsorted.contains(out@[x]) && unsorted.contains(out@[y]));
            let p = choose|p: int| 0 <= p < unsorted.len() && unsorted[p] == out@[x];
            let q = choose|q: int| 0 <= q < unsorted.len() && unsorted[q] == out@[y];
            assert(out@[x] != out@[y]);
            if p < q {
                assert(unsorted[p]@ != unsorted[q]@);
            } else if q < p {
                assert(unsorted[q]@ != unsorted[p]@);
            }
        }
        assert forall|k: Seq<char>| #[trigger] has_key(out@, k) <==> has_key(unsorted, k) by {
            if has_key(out@, k) {
                let m = choose|m: int| 0 <= m < out@.len() && (#[trigger] out@[m])@ == k;
                assert(unsorted.contains(out@[m]));
                let p = choose|p: int| 0 <= p < unsorted.len() && unsorted[p] == out@[m];
                assert(unsorted[p]@ == k);
            }
            if has_key(unsorted, k) {
                let p = choose|p: int| 0 <= p < unsorted.len() && (#[trigger] unsorted[p])@ == k;
                assert(out@.contains(unsorted[p]));
                let m = choose|m: int| 0 <= m < out@.len() && out@[m] == unsorted[p];
                assert(out@[m]@ == k);
            }
        }
    }
    out
}

/// The row of a side that a name selects: the position of its last row carrying the name.
pub open spec fn index_in(m: Map<Seq<char>, usize>, k: Seq<char>) -> Option<usize> {
    if m.contains_key(k) {
        Some(m[k])
    } else {
        None
    }
}

/// `rows` aligns the names of sides `a` and `b`: one row per distinct name of either side,
/// ascending, with the position each side keeps for it.
pub open spec fn aligned(a: Seq<String>, b: Seq<String>, rows: Seq<(String, Option<usize>, Option<usize>)>) -> bool {
    &&& names_ascending(rows.map_values(|r: (String, Option<usize>, Option<usize>)| r.0@))
    &&& forall|r: int| 0 <= r < rows.len() ==> {
        let k = (#[trigger] rows[r]).0@;
        &&& rows[r].1 == index_in(last_index_of(a), k)
        &&& rows[r].2 == index_in(last_index_of(b), k)
        &&& (has_key(a, k) || has_key(b, k))
    }
    &&& forall|k: Seq<char>| has_key(a, k) || has_key(b, k) ==> exists|r: int| 0 <= r < rows.len() && (#[trigger] rows[r]).0@ == k
}

/// Aligns two sides' rows by reference name (the keying of `compare_question`): the rows in
/// name order, each with the position of the row each side keeps for the name, and whether
/// both sides name the same references.
pub fn align_references(a: &Vec<String>, b: &Vec<String>) -> (r: (Vec<(String, Option<usize>, Option<usize>)>, bool))
    requires
        a@.len() <= usize::MAX,
        b@.len() <= usize::MAX,
    ensures
        aligned(a@, b@, r.0@),
        r.1 == (forall|k: Seq<char>| has_key(a@, k) <==> has_key(b@, k)),
{
    let names = distinct_sorted(a, b);
    let ma = last_index_map(a);
    let mb = last_index_map(b);
    proof {
        lemma_last_index_of(a@);
        lemma_last_index_of(b@);
    }
    let mut rows: Vec<(String, Option<usize>, Option<usize>)> = Vec::new();
    let mut same = true;
    let mut i: usize = 0;
    while i < names.len()
        invariant
            i <= names@.len(),
            ma@ == last_index_of(a@),
            mb@ == last_index_of(b@),
            forall|k: Seq<char>| #[trigger] last_index_of(a@).contains_key(k) <==> has_key(a@, k),
            forall|k: Seq<char>| #[trigger] last_index_of(b@).contains_key(k) <==> has_key(b@, k),
            forall|k: Seq<char>| #[trigger] has_key(names@, k) <==> has_key(a@, k) || has_key(b@, k),
            rows@.len() == i,
            forall|x: int| 0 <= x < i ==> {
                let k = (#[trigger] rows@[x]).0@;
                &&& k == names@[x]@
                &&& rows@[x].1 == index_in(last_index_of(a@), k)
                &&& rows@[x].2 == index_in(last_index_of(b@), k)
            },
            same == forall|x: int| 0 <= x < i ==> (#[trigger] rows@[x]).1 is Some && rows@[x].2 is Some,
        decreases names@.len() - i,
    {
        let name = names[i].clone();
        let ia = match ma.get(name.as_str()) {
            Some(p) => Some(*p),
            None => None,
        };
        let ib = match mb.get(name.as_str()) {
            Some(p) => Some(*p),
            None => None,
        };
        let both = match (ia, ib) {
            (Some(_), Some(_)) => true,
            _ => false,
        };
        let ghost before = rows@;
        rows.push((name, ia, ib));
        proof {
            assert forall|x: int| 0 <= x < i implies rows@[x] == before[x] by {}
            assert(rows@[i as int].1 == ia && rows@[i as int].2 == ib);
        }
        same = same && both;
        i = i + 1;
    }
    proof {
        let v = rows@.map_values(|r: (String, Option<usize>, Option<usize>)| r.0@);
        assert(v =~= views(names@));
        assert forall|r: int| 0 <= r < rows@.len() implies ({
            let k = (#[trigger] rows@[r]).0@;
            &&& rows@[r].1 == index_in(last_index_of(a@), k)
            &&& rows@[r].2 == index_in(last_index_of(b@), k)
            &&& (has_key(a@, k) || has_key(b@, k))
        }) by {
            assert(has_key(names@, names@[r]@));
        }
        assert forall|k: Seq<char>| has_key(a@, k) || has_key(b@, k) implies exists|r: int| 0 <= r < rows@.len()
            && (#[trigger] rows@[r]).0@ == k by {
            assert(has_key(names@, k));
            let m = choose|m: int| 0 <= m < names@.len() && (#[trigger] names@[m])@ == k;
            assert(rows@[m].0@ == k);
        }
        if same {
            assert forall|k: Seq<char>| has_key(a@, k) <==> has_key(b@, k) by {
                if has_key(a@, k) || has_key(b@, k) {
                    assert(has_key(names@, k));
                    let m = choose|m: int| 0 <= m < names@.len() && (#[trigger] names@[m])@ == k;
                    assert(rows@[m].1 is Some && rows@[m].2 is Some);
                    assert(last_index_of(a@).contains_key(k));
                    assert(last_index_of(b@).contains_key(k));
                }
            }
        } else {
            let x = choose|x: int| 0 <= x < rows@.len() && !((#[trigger] rows@[x]).1 is Some && rows@[x].2 is Some);
            let k = rows@[x].0@;
            assert(has_key(names@, names@[x]@));
            assert(!(has_key(a@, k) <==> has_key(b@, k)));
        }
    }
    (rows, same)
}

/// `groups` gathers the rows of `keys` by name: one group per distinct name, ascending,
/// each with the positions of its rows in order.
pub open spec fn grouped_by_name(keys: Seq<String>, groups: Seq<(String, Vec<usize>)>) -> bool {
    &&& names_ascending(groups.map_values(|g: (String, Vec<usize>)| g.0@))
    &&& forall|g: int| 0 <= g < groups.len() ==> (#[trigger] groups[g]).1@ == positions_of(keys, groups[g].0@)
        && has_key(keys, groups[g].0@)
    &&& forall|i: int| 0 <= i < keys.len() ==> name_listed(groups, (#[trigger] keys[i])@)
}

/// Some group is named `k`.
pub open spec fn name_listed(groups: Seq<(String, Vec<usize>)>, k: Seq<char>) -> bool {
    exists|g: int| 0 <= g < groups.len() && (#[trigger] groups[g]).0@ == k
}

proof fn lemma_positions_push(keys: Seq<String>, x: String, k: Seq<char>)
    ensures
        positions_of(keys.push(x), k) == positions_of(keys, k) + if x@ == k {
            seq![keys.len() as usize]
        } else {
            Seq::<usize>::empty()
        },
{
    assert(keys.push(x).drop_last() =~= keys);
}

/// How many of `keys` are `key` (an `--evidence` question name must match exactly one).
pub fn count_named(keys: &Vec<String>, key: &str) -> (n: usize)
    ensures
        n == positions_of(keys@, key@).len(),
{
    let wanted = key.to_owned();
    let mut n: usize = 0;
    let mut i: usize = 0;
    while i < keys.len()
        invariant
            i <= keys@.len(),
            wanted@ == key@,
            n == positions_of(keys@.subrange(0, i as int), key@).len(),
            n <= i,
        decreases keys@.len() - i,
    {
        proof {
            lemma_positions_push(keys@.subrange(0, i as int), keys@[i as int], key@);
            assert(keys@.subrange(0, i as int).push(keys@[i as int]) =~= keys@.subrange(0, i as int + 1));
        }
        if keys[i] == wanted {
            n = n + 1;
        }
        i = i + 1;
    }
    assert(keys@.subrange(0, keys@.len() as int) =~= keys@);
    n
}

/// Groups rows by name (the name-keyed `BTreeMap` of crosscheck segments): the groups in
/// name order, each listing its rows' positions in order.
#[verifier::spinoff_prover]
pub fn group_by_name(keys: &Vec<String>) -> (groups: Vec<(String, Vec<usize>)>)
    ensures
        grouped_by_name(keys@, groups@),
{
    let empty: Vec<String> = Vec::new();
    let names = distinct_sorted(keys, &empty);
    assert forall|k: Seq<char>| !has_key(empty@, k) by {}
    let mut index: StringHashMap<usize> = StringHashMap::new();
    let mut groups: Vec<(String, Vec<usize>)> = Vec::new();
    let mut g: usize = 0;
    while g < names.len()
        invariant
            g <= names@.len(),
            groups@.len() == g,
            forall|x: int| 0 <= x < g ==> (#[trigger] groups@[x]).0 == names@[x] && groups@[x].1@ == Seq::<usize>::empty(),
            forall|k: Seq<char>| #[trigger] index@.contains_key(k) ==> index@[k] < g && names@[index@[k] as int]@ == k,
            forall|x: int| 0 <= x < g ==> #[trigger] index@.contains_key(names@[x]@),
            names_ascending(views(names@)),
        decreases names@.len() - g,
    {
        proof {
            assert forall|x: int| 0 <= x < g implies names@[x]@ != names@[g as int]@ by {
                assert(views(names@)[x] == names@[x]@);
                assert(views(names@)[g as int] == names@[g as int]@);
            }
        }
        index.insert(names[g].clone(), g);
        groups.push((names[g].clone(), Vec::new()));
        g = g + 1;
    }
    let mut i: usize = 0;
    while i < keys.len()
        invariant
            i <= keys@.len(),
            groups@.len() == names@.len(),
            forall|x: int| 0 <= x < groups@.len() ==> (#[trigger] groups@[x]).0 == names@[x] && groups@[x].1@
                == positions_of(keys@.subrange(0, i as int), names@[x]@),
            forall|k: Seq<char>| #[trigger] index@.contains_key(k) ==> index@[k] < names@.len() && names@[index@[k] as int]@ == k,
            forall|x: int| 0 <= x < names@.len() ==> #[trigger] index@.contains_key(names@[x]@),
            forall|k: Seq<char>| #[trigger] has_key(names@, k) <==> has_key(keys@, k) || has_key(empty@, k),
            names_ascending(views(names@)),
        decreases keys@.len() - i,
    {
        proof {
            assert(has_key(keys@, keys@[i as int]@));
            assert(has_key(names@, keys@[i as int]@));
            let m = choose|m: int| 0 <= m < names@.len() && (#[trigger] names@[m])@ == keys@[i as int]@;
            assert(index@.contains_key(names@[m]@));
        }
        let ghost before = groups@;
        let slot = *index.get(keys[i].as_str()).unwrap();
        groups[slot].1.push(i);
        proof {
            assert(keys@.subrange(0, i as int + 1) =~= keys@.subrange(0, i as int).push(keys@[i as int]));
            assert forall|x: int| 0 <= x < groups@.len() implies (#[trigger] groups@[x]).0 == names@[x] && groups@[x].1@
                == positions_of(keys@.subrange(0, i as int + 1), names@[x]@) by {
                lemma_positions_push(keys@.subrange(0, i as int), keys@[i as int], names@[x]@);
                if x != slot {
                    assert(groups@[x] == before[x]);
                    assert(views(names@)[x] == names@[x]@);
                    assert(views(names@)[slot as int] == names@[slot as int]@);
                    assert(names@[x]@ != keys@[i as int]@);
                }
            }
        }
        i = i + 1;
    }
    proof {
        assert(keys@.subrange(0, keys@.len() as int) =~= keys@);
        assert(groups@.map_values(|g: (String, Vec<usize>)| g.0@) =~= views(names@));
        assert forall|x: int| 0 <= x < groups@.len() implies has_key(keys@, (#[trigger] groups@[x]).0@) by {
            assert(has_key(names@, names@[x]@));
        }
        assert forall|i: int| 0 <= i < keys@.len() implies name_listed(groups@, (#[trigger] keys@[i])@) by {
            assert(has_key(keys@, keys@[i]@));
            assert(has_key(names@, keys@[i]@));
            let m = choose|m: int| 0 <= m < names@.len() && (#[trigger] names@[m])@ == keys@[i]@;
            assert(groups@[m].0@ == keys@[i]@);
        }
    }
    groups
}

} // verus!

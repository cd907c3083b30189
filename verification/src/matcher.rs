//! The integer kernels of the Panako-compatible matcher: probe sets, hit collection in
//! Java `HashMap` order, modal offset votes, vote anchors, multi-line peeling and the
//! offset histogram. The floating-point line fit is the caller's.
use vstd::multiset::Multiset;
use vstd::prelude::*;

use crate::config::{HIT_PART_DIVIDER, HIT_PART_MAX_SIZE, MAX_HASH, MIN_HITS_UNFILTERED};
use crate::fingerprint::Fingerprint;
use crate::shard::StoredHit;
use crate::error::Error;
use crate::store::{lookup_error, Store};
use crate::text::literal;

verus! {

/// One probe print matched against one stored posting.
#[derive(Clone, Copy, Debug, PartialEq, Eq, Structural)]
pub struct Hit {
    pub ref_t: u32,
    pub ref_f: u16,
    pub q_t: u32,
    pub q_f: u16,
    pub original_hash: u64,
    pub matched_hash: u64,
}

/// The time offset a hit votes for: reference time minus query time.
pub open spec fn delta(h: Hit) -> int {
    h.ref_t - h.q_t
}

impl Hit {
    pub fn delta(self) -> (d: i64)
        ensures
            d == delta(self),
    {
        self.ref_t as i64 - self.q_t as i64
    }
}

// ---------------------------------------------------------------------------------------
// Java HashMap iteration order
// ---------------------------------------------------------------------------------------

/// The table size a Java `HashMap` reaches from `c` slots while holding `entries` keys: it
/// doubles while the keys exceed three quarters of it.
pub open spec fn table_growth(entries: nat, c: nat) -> nat
    decreases (if 4 * entries > 3 * c { 4 * entries - 3 * c } else { 0 }),
    when c >= 16
{
    if 4 * entries > 3 * c {
        table_growth(entries, c * 2)
    } else {
        c
    }
}

/// The table size of a Java `HashMap` with default settings holding `entries` keys.
pub open spec fn java_table_capacity(entries: nat) -> nat {
    table_growth(entries, 16)
}

/// Table size of a Java `HashMap` holding `entries` keys.
#[verifier::spinoff_prover]
pub fn java_hash_map_capacity(entries: usize) -> (c: usize)
    requires
        entries <= usize::MAX / 8,
    ensures
        c == java_table_capacity(entries as nat),
        c >= 16,
        c % 16 == 0,
        4 * entries <= 3 * c,
{
    let mut capacity: usize = 16;
    while entries > capacity / 4 * 3
        invariant
            entries <= usize::MAX / 8,
            capacity >= 16,
            capacity % 16 == 0,
            capacity <= 4 * entries + 16,
            table_growth(entries as nat, capacity as nat) == java_table_capacity(entries as nat),
        decreases (if 4 * entries > 3 * capacity { 4 * entries - 3 * capacity } else { 0 }),
    {
        assert(4 * entries > 3 * capacity) by (nonlinear_arith)
            requires
                entries > capacity / 4 * 3,
                capacity % 16 == 0,
        ;
        assert(table_growth(entries as nat, capacity as nat) == table_growth(entries as nat, (capacity * 2) as nat));
        capacity = capacity * 2;
    }
    assert(4 * entries <= 3 * capacity) by (nonlinear_arith)
        requires
            entries <= capacity / 4 * 3,
            capacity % 16 == 0,
    ;
    capacity
}

/// The bucket of an `Integer` key in a Java `HashMap` table of `capacity` slots.
pub open spec fn int_bucket(delta: i64, capacity: usize) -> usize {
    let h = (delta as i32) as u32;
    ((h ^ (h >> 16u32)) as usize) & ((capacity - 1) as usize)
}

/// The bucket of a `Long` key in a Java `HashMap` table of `capacity` slots.
pub open spec fn long_bucket(hash: u64, capacity: usize) -> usize {
    let folded = (hash ^ (hash >> 32u64)) as u32;
    ((folded ^ (folded >> 16u32)) as usize) & ((capacity - 1) as usize)
}

pub fn java_bucket(delta: i64, capacity: usize) -> (b: usize)
    requires
        capacity >= 1,
    ensures
        b == int_bucket(delta, capacity),
{
    let hash = delta as i32 as u32;
    ((hash ^ (hash >> 16)) as usize) & (capacity - 1)
}

pub fn java_long_bucket(hash: u64, capacity: usize) -> (b: usize)
    requires
        capacity >= 1,
    ensures
        b == long_bucket(hash, capacity),
{
    let folded = (hash ^ (hash >> 32)) as u32;
    ((folded ^ (folded >> 16)) as usize) & (capacity - 1)
}

// ---------------------------------------------------------------------------------------
// Modal offset vote
// ---------------------------------------------------------------------------------------

/// How many hits vote for offset `d`.
pub open spec fn delta_count(s: Seq<Hit>, d: int) -> nat
    decreases s.len(),
{
    if s.len() == 0 {
        0
    } else {
        delta_count(s.drop_last(), d) + if delta(s.last()) == d { 1nat } else { 0nat }
    }
}

/// Position of the first hit voting for `d`, or -1.
pub open spec fn first_with(s: Seq<Hit>, d: int) -> int
    decreases s.len(),
{
    if s.len() == 0 {
        -1
    } else if first_with(s.drop_last(), d) >= 0 {
        first_with(s.drop_last(), d)
    } else if delta(s.last()) == d {
        s.len() - 1
    } else {
        -1
    }
}

/// How many distinct offsets the hits vote for.
pub open spec fn distinct_deltas(s: Seq<Hit>) -> nat
    decreases s.len(),
{
    if s.len() == 0 {
        0
    } else {
        distinct_deltas(s.drop_last()) + if first_with(s.drop_last(), delta(s.last())) < 0 { 1nat } else { 0nat }
    }
}

/// Offset `d` beats offset `e` in Panako's vote over `s`: more votes, then the earlier
/// bucket of Java's table, then the earlier first vote.
pub open spec fn outranks(s: Seq<Hit>, d: int, e: int) -> bool {
    let cap = java_table_capacity(distinct_deltas(s)) as usize;
    let (cd, ce) = (delta_count(s, d), delta_count(s, e));
    let (bd, be) = (int_bucket(d as i64, cap), int_bucket(e as i64, cap));
    ||| cd > ce
    ||| cd == ce && bd < be
    ||| cd == ce && bd == be && first_with(s, d) < first_with(s, e)
}

/// `d` is the offset Panako's modal vote over `s` picks: one that some hit votes for and
/// that beats every other offset voted for.
pub open spec fn is_modal(s: Seq<Hit>, d: int) -> bool {
    &&& exists|i: int| 0 <= i < s.len() && delta(#[trigger] s[i]) == d
    &&& forall|j: int| 0 <= j < s.len() && delta(#[trigger] s[j]) != d ==> outranks(s, d, delta(s[j]))
}

proof fn lemma_first_with(s: Seq<Hit>, d: int)
    ensures
        first_with(s, d) < s.len(),
        first_with(s, d) >= 0 ==> delta(s[first_with(s, d)]) == d,
        first_with(s, d) < 0 <==> forall|j: int| 0 <= j < s.len() ==> delta(#[trigger] s[j]) != d,
    decreases s.len(),
{
    if s.len() > 0 {
        lemma_first_with(s.drop_last(), d);
        if first_with(s.drop_last(), d) >= 0 {
            let f = first_with(s.drop_last(), d);
            assert(s.drop_last()[f] == s[f]);
        }
        assert forall|j: int| 0 <= j < s.len() - 1 implies s.drop_last()[j] == s[j] by {}
    }
}

/// The distinct offsets of a prefix, each with its vote count and first vote.
spec fn tally_ok(s: Seq<Hit>, table: Seq<(i64, usize, usize)>) -> bool {
    &&& table.len() == distinct_deltas(s)
    &&& forall|k: int| 0 <= k < table.len() ==> {
        &&& (#[trigger] table[k]).1 == delta_count(s, table[k].0 as int)
        &&& table[k].2 == first_with(s, table[k].0 as int)
        &&& first_with(s, table[k].0 as int) >= 0
    }
    &&& forall|k: int, m: int| 0 <= k < m < table.len() ==> #[trigger] table[k].0 != #[trigger] table[m].0
    &&& forall|d: int| first_with(s, d) >= 0 ==> exists|k: int| 0 <= k < table.len() && (#[trigger] table[k]).0 == d
}

proof fn lemma_tally_push(p: Seq<Hit>, h: Hit, e: int)
    ensures
        delta_count(p.push(h), e) == delta_count(p, e) + if delta(h) == e { 1nat } else { 0nat },
        first_with(p.push(h), e) == if first_with(p, e) >= 0 { first_with(p, e) } else if delta(h) == e { p.len() as int } else { -1 },
        distinct_deltas(p.push(h)) == distinct_deltas(p) + if first_with(p, delta(h)) < 0 { 1nat } else { 0nat },
{
    assert(p.push(h).drop_last() =~= p);
}

proof fn lemma_tally_found(p: Seq<Hit>, h: Hit, before: Seq<(i64, usize, usize)>, k: int)
    requires
        tally_ok(p, before),
        0 <= k < before.len(),
        before[k].0 == delta(h),
        before[k].1 + 1 <= usize::MAX,
    ensures
        tally_ok(p.push(h), before.update(k, (before[k].0, (before[k].1 + 1) as usize, before[k].2))),
{
    let after = before.update(k, (before[k].0, (before[k].1 + 1) as usize, before[k].2));
    let q = p.push(h);
    lemma_tally_push(p, h, delta(h));
    assert forall|m: int| 0 <= m < after.len() implies {
        &&& (#[trigger] after[m]).1 == delta_count(q, after[m].0 as int)
        &&& after[m].2 == first_with(q, after[m].0 as int)
        &&& first_with(q, after[m].0 as int) >= 0
    } by {
        lemma_tally_push(p, h, after[m].0 as int);
    }
    assert forall|d: int| first_with(q, d) >= 0 implies exists|m: int| 0 <= m < after.len() && (#[trigger] after[m]).0 == d by {
        lemma_tally_push(p, h, d);
        if first_with(p, d) >= 0 {
            let m = choose|m: int| 0 <= m < before.len() && (#[trigger] before[m]).0 == d;
            assert(after[m].0 == d);
        } else {
            assert(after[k].0 == d);
        }
    }
    assert forall|x: int, y: int| 0 <= x < y < after.len() implies #[trigger] after[x].0 != #[trigger] after[y].0 by {
        assert(before[x].0 != before[y].0);
    }
}

proof fn lemma_tally_new(p: Seq<Hit>, h: Hit, before: Seq<(i64, usize, usize)>)
    requires
        tally_ok(p, before),
        forall|m: int| 0 <= m < before.len() ==> (#[trigger] before[m]).0 != delta(h),
        delta(h) == delta(h) as i64,
        p.len() <= usize::MAX,
    ensures
        tally_ok(p.push(h), before.push((delta(h) as i64, 1usize, p.len() as usize))),
{
    let after = before.push((delta(h) as i64, 1usize, p.len() as usize));
    let q = p.push(h);
    lemma_tally_push(p, h, delta(h));
    lemma_first_with(p, delta(h));
    if first_with(p, delta(h)) >= 0 {
        let m = choose|m: int| 0 <= m < before.len() && (#[trigger] before[m]).0 == delta(h);
        assert(false);
    }
    assert forall|m: int| 0 <= m < after.len() implies {
        &&& (#[trigger] after[m]).1 == delta_count(q, after[m].0 as int)
        &&& after[m].2 == first_with(q, after[m].0 as int)
        &&& first_with(q, after[m].0 as int) >= 0
    } by {
        lemma_tally_push(p, h, after[m].0 as int);
        lemma_delta_count_zero(p, delta(h));
    }
    assert forall|d: int| first_with(q, d) >= 0 implies exists|m: int| 0 <= m < after.len() && (#[trigger] after[m]).0 == d by {
        lemma_tally_push(p, h, d);
        if first_with(p, d) >= 0 {
            let m = choose|m: int| 0 <= m < before.len() && (#[trigger] before[m]).0 == d;
            assert(after[m].0 == d);
        } else {
            assert(after[before.len() as int].0 == d);
        }
    }
}

proof fn lemma_delta_count_zero(s: Seq<Hit>, d: int)
    requires
        first_with(s, d) < 0,
    ensures
        delta_count(s, d) == 0,
    decreases s.len(),
{
    if s.len() > 0 {
        lemma_delta_count_zero(s.drop_last(), d);
    }
}

/// The offset Panako's modal vote picks.
pub fn modal_delta(hits: &[Hit]) -> (d: i64)
    requires
        1 <= hits@.len() <= usize::MAX / 8,
    ensures
        is_modal(hits@, d as int),
{
    broadcast use vstd::std_specs::hash::axiom_i64_obeys_hash_table_key_model;

    let ghost s = hits@;
    let mut table: Vec<(i64, usize, usize)> = Vec::new();
    let mut index: vstd::hash_map::HashMapWithView<i64, usize> = vstd::hash_map::HashMapWithView::new();
    let mut i: usize = 0;
    while i < hits.len()
        invariant
            s == hits@,
            i <= s.len() <= usize::MAX / 8,
            table@.len() <= i,
            tally_ok(s.subrange(0, i as int), table@),
            forall|x: i64| #[trigger] index@.contains_key(x) ==> index@[x] < table@.len() && table@[index@[x] as int].0 == x,
            forall|m: int| 0 <= m < table@.len() ==> index@.contains_key(#[trigger] table@[m].0),
        decreases s.len() - i,
    {
        let h = hits[i];
        let d = h.delta();
        let ghost p = s.subrange(0, i as int);
        proof {
            assert(s.subrange(0, i as int + 1) =~= p.push(h));
        }
        let found = match index.get(&d) {
            Some(k) => Some(*k),
            None => None,
        };
        proof {
            if found is None {
                assert forall|m: int| 0 <= m < table@.len() implies (#[trigger] table@[m]).0 != d by {
                    if table@[m].0 == d {
                        assert(index@.contains_key(table@[m].0));
                    }
                }
            }
        }
        match found {
            Some(k) => {
                let (dd, c, f) = table[k];
                let ghost before = table@;
                proof {
                    lemma_delta_count_bound(p, d as int);
                    lemma_tally_found(p, h, before, k as int);
                }
                table.set(k, (dd, c + 1, f));
                assert(table@ =~= before.update(k as int, (before[k as int].0, (before[k as int].1 + 1) as usize, before[k as int].2)));
                proof {
                    assert forall|m: int| 0 <= m < table@.len() implies index@.contains_key(#[trigger] table@[m].0) by {
                        assert(table@[m].0 == before[m].0);
                    }
                }
            },
            None => {
                proof {
                    lemma_tally_new(p, h, table@);
                }
                let position = table.len();
                let ghost before = table@;
                table.push((d, 1, i));
                index.insert(d, position);
                proof {
                    assert forall|m: int| 0 <= m < table@.len() implies index@.contains_key(#[trigger] table@[m].0) by {
                        if m < before.len() {
                            assert(table@[m] == before[m]);
                        }
                    }
                    assert forall|x: i64| #[trigger] index@.contains_key(x) implies index@[x] < table@.len()
                        && table@[index@[x] as int].0 == x by {
                        if x != d {
                            assert(table@[index@[x] as int] == before[index@[x] as int]);
                        }
                    }
                }
            },
        }
        i = i + 1;
    }
    assert(s.subrange(0, s.len() as int) =~= s);
    let capacity = java_hash_map_capacity(table.len());
    proof {
        lemma_first_with(s, delta(s[0]));
        let m = choose|m: int| 0 <= m < table@.len() && (#[trigger] table@[m]).0 == delta(s[0]);
    }
    let mut best: usize = 0;
    let mut k: usize = 1;
    while k < table.len()
        invariant
            tally_ok(s, table@),
            table@.len() >= 1,
            capacity == java_table_capacity(distinct_deltas(s)),
            capacity >= 16,
            1 <= k <= table@.len(),
            best < k,
            forall|m: int| 0 <= m < k && m != best ==> outranks(s, table@[best as int].0 as int, (#[trigger] table@[m]).0 as int),
        decreases table@.len() - k,
    {
        let (dk, ck, fk) = table[k];
        let (db, cb, fb) = table[best];
        let bk = java_bucket(dk, capacity);
        let bb = java_bucket(db, capacity);
        proof {
            lemma_first_with(s, dk as int);
            lemma_first_with(s, db as int);
            assert(table@[k as int].0 != table@[best as int].0);
        }
        if ck > cb || (ck == cb && (bk < bb || (bk == bb && fk < fb))) {
            best = k;
        }
        k = k + 1;
    }
    let d = table[best].0;
    proof {
        lemma_first_with(s, d as int);
        let f = first_with(s, d as int);
        assert(delta(s[f]) == d);
        assert forall|j: int| 0 <= j < s.len() && delta(#[trigger] s[j]) != d implies outranks(s, d as int, delta(s[j])) by {
            lemma_first_with(s, delta(s[j]));
            let m = choose|m: int| 0 <= m < table@.len() && (#[trigger] table@[m]).0 == delta(s[j]);
        }
    }
    d
}

proof fn lemma_delta_count_bound(s: Seq<Hit>, d: int)
    ensures
        delta_count(s, d) <= s.len(),
    decreases s.len(),
{
    if s.len() > 0 {
        lemma_delta_count_bound(s.drop_last(), d);
    }
}

// ---------------------------------------------------------------------------------------
// Vote anchors
// ---------------------------------------------------------------------------------------

/// `order` lists the positions of `hits` by query time, ties in input order: the order a
/// stable sort by query time leaves them in.
pub open spec fn time_order(hits: Seq<Hit>, order: Seq<usize>) -> bool {
    &&& order.len() == hits.len()
    &&& forall|k: int| 0 <= k < order.len() ==> #[trigger] order[k] < hits.len()
    &&& forall|a: int, b: int| 0 <= a < b < order.len() ==> {
        ||| hits[#[trigger] order[a] as int].q_t < hits[#[trigger] order[b] as int].q_t
        ||| hits[order[a] as int].q_t == hits[order[b] as int].q_t && order[a] < order[b]
    }
}

/// `sorted` is `hits` stably sorted by query time.
pub open spec fn sorted_by_time(hits: Seq<Hit>, sorted: Seq<Hit>) -> bool {
    exists|order: Seq<usize>| #![trigger time_order(hits, order)]
        time_order(hits, order) && sorted.len() == order.len()
        && forall|k: int| 0 <= k < sorted.len() ==> #[trigger] sorted[k] == hits[order[k] as int]
}

/// Sorts hits by query time, keeping the input order of equal times (the stable
/// `sort_by_key` on `q_t`).
pub fn sort_by_time(hits: &Vec<Hit>) -> (sorted: Vec<Hit>)
    ensures
        sorted_by_time(hits@, sorted@),
{
    let n = hits.len();
    let mut keys: Vec<(u32, usize)> = Vec::new();
    let mut i: usize = 0;
    while i < n
        invariant
            i <= n == hits@.len(),
            keys@.len() == i,
            forall|k: int| 0 <= k < i ==> #[trigger] keys@[k] == (hits@[k].q_t, k as usize),
        decreases n - i,
    {
        keys.push((hits[i].q_t, i));
        i = i + 1;
    }
    let ghost original = keys@;
    proof {
        assert(original.no_duplicates()) by {
            assert forall|a: int, b: int| 0 <= a < original.len() && 0 <= b < original.len() && a != b implies original[a] != original[b] by {
                assert(original[a].1 == a && original[b].1 == b);
            }
        }
        original.lemma_multiset_has_no_duplicates();
    }
    crate::sorting::sort_pairs(&mut keys);
    proof {
        keys@.lemma_multiset_has_no_duplicates_conv();
        vstd::seq_lib::to_multiset_len(keys@);
        vstd::seq_lib::to_multiset_len(original);
    }
    let ghost order = keys@.map_values(|p: (u32, usize)| p.1);
    assert forall|j: int| 0 <= j < n implies keys@[j].1 < n && #[trigger] keys@[j] == (hits@[keys@[j].1 as int].q_t, keys@[j].1) by {
        vstd::seq_lib::to_multiset_contains(keys@, keys@[j]);
        vstd::seq_lib::to_multiset_contains(original, keys@[j]);
        assert(keys@.contains(keys@[j]));
        let i = choose|i: int| 0 <= i < original.len() && original[i] == keys@[j];
    }
    let mut sorted: Vec<Hit> = Vec::new();
    let mut k: usize = 0;
    while k < n
        invariant
            k <= n == hits@.len() == keys@.len(),
            original.len() == n,
            forall|j: int| 0 <= j < n ==> #[trigger] original[j] == (hits@[j].q_t, j as usize),
            keys@.to_multiset() == original.to_multiset(),
            order == keys@.map_values(|p: (u32, usize)| p.1),
            sorted@.len() == k,
            forall|j: int| 0 <= j < k ==> #[trigger] sorted@[j] == hits@[order[j] as int],
            forall|j: int| 0 <= j < n ==> keys@[j].1 < n && #[trigger] keys@[j] == (hits@[keys@[j].1 as int].q_t, keys@[j].1),
        decreases n - k,
    {
        let idx = keys[k].1;
        sorted.push(hits[idx]);
        k = k + 1;
    }
    assert(time_order(hits@, order)) by {
        assert forall|a: int, b: int| 0 <= a < b < order.len() implies {
            ||| hits@[#[trigger] order[a] as int].q_t < hits@[#[trigger] order[b] as int].q_t
            ||| hits@[order[a] as int].q_t == hits@[order[b] as int].q_t && order[a] < order[b]
        } by {
            assert(crate::sorting::pair_le(keys@[a], keys@[b]));
            assert(keys@[a] != keys@[b]);
        }
    }
    sorted
}

/// How many hits each end of a vote considers: a fifth of them, at least
/// `MIN_HITS_UNFILTERED` and at most `HIT_PART_MAX_SIZE`.
pub open spec fn part_len(n: nat) -> nat {
    let base = if n / HIT_PART_DIVIDER as nat > MIN_HITS_UNFILTERED as nat { n / HIT_PART_DIVIDER as nat } else { MIN_HITS_UNFILTERED as nat };
    if base < HIT_PART_MAX_SIZE as nat { base } else { HIT_PART_MAX_SIZE as nat }
}

/// Position of the last hit voting for `d`, or -1.
pub open spec fn last_with(s: Seq<Hit>, d: int) -> int
    decreases s.len(),
{
    if s.len() == 0 {
        -1
    } else if delta(s.last()) == d {
        s.len() - 1
    } else {
        last_with(s.drop_last(), d)
    }
}

/// The two points a vote fits its line through: the first hit of the leading part on that
/// part's modal offset, and the last hit of the trailing part on its modal offset.
#[derive(Clone, Copy, Debug, PartialEq, Eq, Structural)]
pub struct VoteAnchors {
    pub x1: u32,
    pub y1: i64,
    pub x2: u32,
    pub y2: i64,
    pub ref_f: u16,
    pub q_f: u16,
}

/// `a` anchors the vote over hits sorted by query time.
pub open spec fn anchors_of(s: Seq<Hit>, a: VoteAnchors) -> bool {
    let p = part_len(s.len()) as int;
    let first = s.subrange(0, p);
    let last = s.subrange(s.len() - p, s.len() as int);
    let i1 = first_with(first, a.y1 as int);
    let i2 = last_with(last, a.y2 as int);
    &&& is_modal(first, a.y1 as int)
    &&& is_modal(last, a.y2 as int)
    &&& 0 <= i1 && a.x1 == first[i1].q_t && a.ref_f == first[i1].ref_f && a.q_f == first[i1].q_f
    &&& 0 <= i2 && a.x2 == last[i2].q_t
}

proof fn lemma_last_with(s: Seq<Hit>, d: int)
    ensures
        last_with(s, d) < s.len(),
        last_with(s, d) >= 0 ==> delta(s[last_with(s, d)]) == d,
        last_with(s, d) < 0 <==> forall|j: int| 0 <= j < s.len() ==> delta(#[trigger] s[j]) != d,
    decreases s.len(),
{
    if s.len() > 0 {
        lemma_last_with(s.drop_last(), d);
        assert forall|j: int| 0 <= j < s.len() - 1 implies s.drop_last()[j] == s[j] by {}
    }
}

/// The anchors of a vote over hits sorted by query time (the integer half of `vote`).
pub fn vote_anchors(sorted: &Vec<Hit>) -> (a: VoteAnchors)
    requires
        MIN_HITS_UNFILTERED <= sorted@.len(),
    ensures
        anchors_of(sorted@, a),
{
    let n = sorted.len();
    let base = if n / 5 > 10 { n / 5 } else { 10 };
    let p = if base < 250 { base } else { 250 };
    let ghost s = sorted@;
    let first = vstd::slice::slice_subrange(sorted.as_slice(), 0, p);
    let last = vstd::slice::slice_subrange(sorted.as_slice(), n - p, n);
    assert(first@ == s.subrange(0, p as int));
    assert(last@ == s.subrange(n - p, n as int));
    let y1 = modal_delta(first);
    let y2 = modal_delta(last);
    proof {
        lemma_first_with(first@, y1 as int);
        lemma_last_with(last@, y2 as int);
    }
    let mut i: usize = 0;
    while i < p
        invariant
            i <= p == first@.len(),
            first_with(first@, y1 as int) >= 0,
            forall|j: int| 0 <= j < i ==> delta(#[trigger] first@[j]) != y1,
        ensures
            i <= p,
            forall|j: int| 0 <= j < i ==> delta(#[trigger] first@[j]) != y1,
            i < p ==> delta(first@[i as int]) == y1,
        decreases p - i,
    {
        if first[i].delta() == y1 {
            break;
        }
        i = i + 1;
    }
    proof {
        lemma_first_with_is_first(first@, y1 as int, i as int);
    }
    let mut j: usize = p;
    while j > 0
        invariant
            j <= p == last@.len(),
            last_with(last@, y2 as int) >= 0,
            forall|m: int| j <= m < p ==> delta(#[trigger] last@[m]) != y2,
        ensures
            j <= p,
            forall|m: int| j <= m < p ==> delta(#[trigger] last@[m]) != y2,
            j > 0 ==> delta(last@[j - 1]) == y2,
        decreases j,
    {
        if last[j - 1].delta() == y2 {
            break;
        }
        j = j - 1;
    }
    proof {
        lemma_last_with_is_last(last@, y2 as int, j as int);
    }
    let h1 = first[i];
    let h2 = last[j - 1];
    VoteAnchors { x1: h1.q_t, y1, x2: h2.q_t, y2, ref_f: h1.ref_f, q_f: h1.q_f }
}

proof fn lemma_first_with_is_first(s: Seq<Hit>, d: int, i: int)
    requires
        first_with(s, d) >= 0,
        0 <= i <= s.len(),
        forall|j: int| 0 <= j < i ==> delta(#[trigger] s[j]) != d,
        i < s.len() ==> delta(s[i]) == d,
    ensures
        i < s.len(),
        first_with(s, d) == i,
    decreases s.len(),
{
    lemma_first_with(s, d);
    if i == s.len() {
        assert(delta(s[first_with(s, d)]) == d);
    } else if s.len() > 0 {
        if i < s.len() - 1 {
            lemma_first_with(s.drop_last(), d);
            assert(s.drop_last()[i] == s[i]);
            assert forall|j: int| 0 <= j < i implies delta(#[trigger] s.drop_last()[j]) != d by {
                assert(s.drop_last()[j] == s[j]);
            }
            lemma_first_with_is_first(s.drop_last(), d, i);
        } else {
            lemma_first_with(s.drop_last(), d);
            assert forall|j: int| 0 <= j < s.drop_last().len() implies delta(#[trigger] s.drop_last()[j]) != d by {
                assert(s.drop_last()[j] == s[j]);
            }
        }
    }
}

proof fn lemma_last_with_is_last(s: Seq<Hit>, d: int, j: int)
    requires
        last_with(s, d) >= 0,
        0 <= j <= s.len(),
        forall|m: int| j <= m < s.len() ==> delta(#[trigger] s[m]) != d,
        j > 0 ==> delta(s[j - 1]) == d,
    ensures
        j > 0,
        last_with(s, d) == j - 1,
    decreases s.len(),
{
    lemma_last_with(s, d);
    if j == 0 {
        assert(delta(s[last_with(s, d)]) == d);
    } else if j < s.len() {
        assert(delta(s[s.len() - 1]) != d);
        assert forall|m: int| j <= m < s.drop_last().len() implies delta(#[trigger] s.drop_last()[m]) != d by {
            assert(s.drop_last()[m] == s[m]);
        }
        assert(s.drop_last()[j - 1] == s[j - 1]);
        lemma_last_with(s.drop_last(), d);
        lemma_last_with_is_last(s.drop_last(), d, j);
    }
}

// ---------------------------------------------------------------------------------------
// Probe sets
// ---------------------------------------------------------------------------------------

/// Position of the first print with hash `h`, or -1.
pub open spec fn first_hash(s: Seq<Fingerprint>, h: u64) -> int
    decreases s.len(),
{
    if s.len() == 0 {
        -1
    } else if first_hash(s.drop_last(), h) >= 0 {
        first_hash(s.drop_last(), h)
    } else if s.last().hash == h {
        s.len() - 1
    } else {
        -1
    }
}

/// Position of the last print with hash `h`, or -1.
pub open spec fn last_hash(s: Seq<Fingerprint>, h: u64) -> int
    decreases s.len(),
{
    if s.len() == 0 {
        -1
    } else if s.last().hash == h {
        s.len() - 1
    } else {
        last_hash(s.drop_last(), h)
    }
}

/// How many prints carry hash `h`.
pub open spec fn hash_count(s: Seq<Fingerprint>, h: u64) -> nat
    decreases s.len(),
{
    if s.len() == 0 {
        0
    } else {
        hash_count(s.drop_last(), h) + if s.last().hash == h { 1nat } else { 0nat }
    }
}

/// The distinct hashes of a probe in ascending order, with the last print carrying each
/// (whose time and frequency every hit on that hash takes, as Panako's hash-keyed probe map
/// keeps), how many prints carry it and where it first occurs.
pub struct ProbeSet {
    pub hashes: Vec<u64>,
    pub last: Vec<Fingerprint>,
    pub copies: Vec<usize>,
    pub first: Vec<usize>,
}

/// `p` is the probe set of `prints`.
pub open spec fn probe_of(prints: Seq<Fingerprint>, p: ProbeSet) -> bool {
    let n = p.hashes@.len();
    &&& p.last@.len() == n
    &&& p.copies@.len() == n
    &&& p.first@.len() == n
    &&& forall|a: int, b: int| 0 <= a < b < n ==> #[trigger] p.hashes@[a] < #[trigger] p.hashes@[b]
    &&& forall|i: int| 0 <= i < prints.len() ==> p.hashes@.contains(#[trigger] prints[i].hash)
    &&& forall|k: int| 0 <= k < n ==> {
        let h = #[trigger] p.hashes@[k];
        &&& first_hash(prints, h) >= 0
        &&& p.first@[k] == first_hash(prints, h)
        &&& p.last@[k] == prints[last_hash(prints, h)]
        &&& p.copies@[k] == hash_count(prints, h)
    }
}

proof fn lemma_hash_push(s: Seq<Fingerprint>, x: Fingerprint, h: u64)
    ensures
        hash_count(s.push(x), h) == hash_count(s, h) + if x.hash == h { 1nat } else { 0nat },
        first_hash(s.push(x), h) == if first_hash(s, h) >= 0 { first_hash(s, h) } else if x.hash == h { s.len() as int } else { -1 },
        last_hash(s.push(x), h) == if x.hash == h { s.len() as int } else { last_hash(s, h) },
{
    assert(s.push(x).drop_last() =~= s);
}

proof fn lemma_first_hash(s: Seq<Fingerprint>, h: u64)
    ensures
        first_hash(s, h) < s.len(),
        last_hash(s, h) < s.len(),
        first_hash(s, h) >= 0 ==> s[first_hash(s, h)].hash == h,
        last_hash(s, h) >= 0 ==> s[last_hash(s, h)].hash == h,
        first_hash(s, h) < 0 <==> forall|j: int| 0 <= j < s.len() ==> (#[trigger] s[j]).hash != h,
        first_hash(s, h) < 0 <==> last_hash(s, h) < 0,
        hash_count(s, h) <= s.len(),
    decreases s.len(),
{
    if s.len() > 0 {
        lemma_first_hash(s.drop_last(), h);
        assert forall|j: int| 0 <= j < s.len() - 1 implies s.drop_last()[j] == s[j] by {}
    }
}

/// The per-hash tally of a prefix: one row per distinct hash, in first-occurrence order.
spec fn probe_tally(s: Seq<Fingerprint>, table: Seq<(u64, Fingerprint, usize, usize)>, index: Map<u64, usize>) -> bool {
    &&& forall|k: int| 0 <= k < table.len() ==> {
        let h = (#[trigger] table[k]).0;
        &&& first_hash(s, h) >= 0
        &&& table[k].1 == s[last_hash(s, h)]
        &&& table[k].2 == hash_count(s, h)
        &&& table[k].3 == first_hash(s, h)
        &&& index.contains_key(h) && index[h] == k
    }
    &&& forall|h: u64| #[trigger] index.contains_key(h) ==> index[h] < table.len() && table[index[h] as int].0 == h
    &&& forall|h: u64| first_hash(s, h) >= 0 ==> #[trigger] index.contains_key(h)
}

/// The probe set of `prints` (the first step of `match_restricted`).
pub fn probe_set(prints: &Vec<Fingerprint>) -> (p: ProbeSet)
    ensures
        probe_of(prints@, p),
        p.hashes@.len() <= prints@.len(),
{
    broadcast use vstd::std_specs::hash::axiom_u64_obeys_hash_table_key_model;

    let ghost s = prints@;
    let n = prints.len();
    let mut table: Vec<(u64, Fingerprint, usize, usize)> = Vec::new();
    let mut index: vstd::hash_map::HashMapWithView<u64, usize> = vstd::hash_map::HashMapWithView::new();
    let mut i: usize = 0;
    while i < n
        invariant
            s == prints@,
            i <= n == s.len(),
            table@.len() <= i,
            probe_tally(s.subrange(0, i as int), table@, index@),
        decreases n - i,
    {
        let x = prints[i];
        let ghost p = s.subrange(0, i as int);
        proof {
            assert(s.subrange(0, i as int + 1) =~= p.push(x));
            lemma_first_hash(p, x.hash);
        }
        let ghost before = table@;
        let ghost before_index = index@;
        match index.get(&x.hash) {
            Some(k) => {
                let k = *k;
                let (h, _, c, f) = table[k];
                table.set(k, (h, x, c + 1, f));
                proof {
                    assert forall|m: int| 0 <= m < table@.len() implies {
                        let h = (#[trigger] table@[m]).0;
                        &&& first_hash(p.push(x), h) >= 0
                        &&& table@[m].1 == p.push(x)[last_hash(p.push(x), h)]
                        &&& table@[m].2 == hash_count(p.push(x), h)
                        &&& table@[m].3 == first_hash(p.push(x), h)
                        &&& index@.contains_key(h) && index@[h] == m
                    } by {
                        lemma_hash_push(p, x, table@[m].0);
                        lemma_first_hash(p, table@[m].0);
                        if m != k {
                            assert(before[m].0 != x.hash);
                        }
                    }
                    assert forall|hh: u64| first_hash(p.push(x), hh) >= 0 implies #[trigger] index@.contains_key(hh) by {
                        lemma_hash_push(p, x, hh);
                    }
                }
            },
            None => {
                proof {
                    if first_hash(p, x.hash) >= 0 {
                        assert(index@.contains_key(x.hash));
                    }
                }
                let k = table.len();
                table.push((x.hash, x, 1, i));
                index.insert(x.hash, k);
                proof {
                    assert forall|m: int| 0 <= m < table@.len() implies {
                        let h = (#[trigger] table@[m]).0;
                        &&& first_hash(p.push(x), h) >= 0
                        &&& table@[m].1 == p.push(x)[last_hash(p.push(x), h)]
                        &&& table@[m].2 == hash_count(p.push(x), h)
                        &&& table@[m].3 == first_hash(p.push(x), h)
                        &&& index@.contains_key(h) && index@[h] == m
                    } by {
                        lemma_hash_push(p, x, table@[m].0);
                        lemma_first_hash(p, table@[m].0);
                        if m < k {
                            assert(before_index.contains_key(before[m].0));
                            assert(before[m].0 != x.hash);
                        } else {
                            lemma_count_zero(p, x.hash);
                        }
                    }
                    assert forall|hh: u64| #[trigger] index@.contains_key(hh) implies index@[hh] < table@.len() && table@[index@[hh] as int].0 == hh by {
                        if hh != x.hash {
                            assert(before_index.contains_key(hh));
                        }
                    }
                    assert forall|hh: u64| first_hash(p.push(x), hh) >= 0 implies #[trigger] index@.contains_key(hh) by {
                        lemma_hash_push(p, x, hh);
                    }
                }
            },
        }
        i = i + 1;
    }
    assert(s.subrange(0, n as int) =~= s);
    let mut keys: Vec<(u64, usize)> = Vec::new();
    let mut k: usize = 0;
    while k < table.len()
        invariant
            k <= table@.len(),
            keys@.len() == k,
            forall|m: int| 0 <= m < k ==> #[trigger] keys@[m] == (table@[m].0, m as usize),
        decreases table@.len() - k,
    {
        keys.push((table[k].0, k));
        k = k + 1;
    }
    let ghost original = keys@;
    proof {
        assert(original.no_duplicates()) by {
            assert forall|a: int, b: int| 0 <= a < original.len() && 0 <= b < original.len() && a != b implies original[a] != original[b] by {
                assert(original[a].1 == a && original[b].1 == b);
            }
        }
        original.lemma_multiset_has_no_duplicates();
    }
    crate::sorting::sort_hash_pairs(&mut keys);
    proof {
        keys@.lemma_multiset_has_no_duplicates_conv();
        vstd::seq_lib::to_multiset_len(keys@);
        vstd::seq_lib::to_multiset_len(original);
        assert forall|j: int| 0 <= j < keys@.len() implies keys@[j].1 < table@.len() && #[trigger] keys@[j] == (table@[keys@[j].1 as int].0, keys@[j].1) by {
            vstd::seq_lib::to_multiset_contains(keys@, keys@[j]);
            vstd::seq_lib::to_multiset_contains(original, keys@[j]);
            assert(keys@.contains(keys@[j]));
            let i = choose|i: int| 0 <= i < original.len() && original[i] == keys@[j];
        }
        assert forall|m: int| 0 <= m < table@.len() implies keys@.contains(#[trigger] original[m]) by {
            vstd::seq_lib::to_multiset_contains(keys@, original[m]);
            vstd::seq_lib::to_multiset_contains(original, original[m]);
        }
    }
    let mut hashes: Vec<u64> = Vec::new();
    let mut last: Vec<Fingerprint> = Vec::new();
    let mut copies: Vec<usize> = Vec::new();
    let mut first: Vec<usize> = Vec::new();
    let mut j: usize = 0;
    while j < keys.len()
        invariant
            j <= keys@.len() == table@.len(),
            hashes@.len() == j && last@.len() == j && copies@.len() == j && first@.len() == j,
            forall|m: int| 0 <= m < keys@.len() ==> keys@[m].1 < table@.len() && #[trigger] keys@[m] == (table@[keys@[m].1 as int].0, keys@[m].1),
            forall|m: int| 0 <= m < j ==> {
                &&& #[trigger] hashes@[m] == table@[keys@[m].1 as int].0
                &&& last@[m] == table@[keys@[m].1 as int].1
                &&& copies@[m] == table@[keys@[m].1 as int].2
                &&& first@[m] == table@[keys@[m].1 as int].3
            },
        decreases keys@.len() - j,
    {
        let t = keys[j].1;
        let (h, l, c, f) = table[t];
        hashes.push(h);
        last.push(l);
        copies.push(c);
        first.push(f);
        j = j + 1;
    }
    let p = ProbeSet { hashes, last, copies, first };
    proof {
        assert forall|a: int, b: int| 0 <= a < b < p.hashes@.len() implies #[trigger] p.hashes@[a] < #[trigger] p.hashes@[b] by {
            assert(crate::sorting::hash_pair_le(keys@[a], keys@[b]));
            assert(keys@[a] != keys@[b]);
            let (ta, tb) = (keys@[a].1 as int, keys@[b].1 as int);
            if keys@[a].0 == keys@[b].0 {
                assert(index@[table@[ta].0] == ta);
                assert(index@[table@[tb].0] == tb);
            }
        }
        assert forall|i: int| 0 <= i < s.len() implies p.hashes@.contains(#[trigger] s[i].hash) by {
            lemma_first_hash(s, s[i].hash);
            assert(first_hash(s, s[i].hash) >= 0);
            assert(index@.contains_key(s[i].hash));
            let t = index@[s[i].hash] as int;
            assert(t < table@.len());
            assert(keys@.contains(original[t]));
            let j = choose|j: int| 0 <= j < keys@.len() && keys@[j] == original[t];
            assert(p.hashes@[j] == s[i].hash);
        }
    }
    p
}

proof fn lemma_count_zero(s: Seq<Fingerprint>, h: u64)
    requires
        first_hash(s, h) < 0,
    ensures
        hash_count(s, h) == 0,
    decreases s.len(),
{
    if s.len() > 0 {
        lemma_count_zero(s.drop_last(), h);
    }
}

// ---------------------------------------------------------------------------------------
// Hit collection
// ---------------------------------------------------------------------------------------

/// `hits` is what the store answers for `hash`: all hits of the scan range, or only those of
/// resource `only`'s shard that belong to it.
pub open spec fn answers(store: Store, hash: u64, only: Option<u32>, hits: Seq<StoredHit>) -> bool {
    match only {
        None => store.lookup_answer(hash, hits),
        Some(id) => store.resource_lookup_answer(hash, id, hits),
    }
}

/// `e` is how the lookup of `hash` fails, in the whole store or (with `only`) in the shard
/// of that resource.
pub open spec fn lookup_fails(store: Store, hash: u64, only: Option<u32>, e: Error) -> bool {
    match only {
        None => store.lookup_failure(hash, e),
        Some(id) => store.resource_lookup_failure(hash, id, e),
    }
}

/// A lookup restricted to `only` reads a shard the generation has.
pub open spec fn only_in_shards(store: Store, only: Option<u32>) -> bool {
    match only {
        Some(id) => store.id_in_shards(id),
        None => true,
    }
}

/// How many lookups found something.
pub open spec fn live_count(found: Seq<Seq<StoredHit>>) -> nat
    decreases found.len(),
{
    if found.len() == 0 {
        0
    } else {
        live_count(found.drop_last()) + if found.last().len() > 0 { 1nat } else { 0nat }
    }
}

/// The order Panako walks its hash-keyed map of non-empty lookups: by the hash's bucket in
/// a Java `HashMap` sized for them, then by first occurrence in the probe.
pub open spec fn walk_order(p: ProbeSet, found: Seq<Seq<StoredHit>>, order: Seq<usize>) -> bool {
    let cap = java_table_capacity(live_count(found)) as usize;
    &&& order.len() == live_count(found)
    &&& forall|m: int| 0 <= m < order.len() ==> #[trigger] order[m] < found.len() && found[order[m] as int].len() > 0
    &&& forall|a: int, b: int| 0 <= a < b < order.len() ==> {
        let (ka, kb) = (#[trigger] order[a] as int, #[trigger] order[b] as int);
        let (ba, bb) = (long_bucket(p.hashes@[ka], cap), long_bucket(p.hashes@[kb], cap));
        ba < bb || (ba == bb && p.first@[ka] < p.first@[kb])
    }
}

/// The hit stored posting `s` makes with probe hash `k`.
pub open spec fn hit_of(p: ProbeSet, k: int, s: StoredHit) -> Hit {
    Hit {
        ref_t: s.t,
        ref_f: s.f,
        q_t: p.last@[k].t,
        q_f: p.last@[k].f,
        original_hash: p.hashes@[k],
        matched_hash: s.matched_hash,
    }
}

/// The `(resource, hit)` votes of probe hash `k`'s lookup: each stored posting votes as
/// many times as the probe holds the hash; postings of other resources are skipped when the
/// match is restricted to `only`.
pub open spec fn expand_lookup(p: ProbeSet, k: int, hits: Seq<StoredHit>, only: Option<u32>) -> Seq<(u32, Hit)>
    decreases hits.len(),
{
    if hits.len() == 0 {
        Seq::empty()
    } else {
        let s = hits.last();
        expand_lookup(p, k, hits.drop_last(), only) + if only matches Some(id) && id != s.resource_id {
            Seq::empty()
        } else {
            Seq::new(p.copies@[k] as nat, |i: int| (s.resource_id, hit_of(p, k, s)))
        }
    }
}

/// Every vote, lookup by lookup in walk order.
pub open spec fn expand_all(p: ProbeSet, found: Seq<Seq<StoredHit>>, order: Seq<usize>, only: Option<u32>) -> Seq<(u32, Hit)>
    decreases order.len(),
{
    if order.len() == 0 {
        Seq::empty()
    } else {
        expand_all(p, found, order.drop_last(), only) + expand_lookup(p, order.last() as int, found[order.last() as int], only)
    }
}

/// The hits of resource `id` among the votes, in order.
pub open spec fn hits_for(votes: Seq<(u32, Hit)>, id: u32) -> Seq<Hit>
    decreases votes.len(),
{
    if votes.len() == 0 {
        Seq::empty()
    } else {
        hits_for(votes.drop_last(), id) + if votes.last().0 == id { seq![votes.last().1] } else { Seq::empty() }
    }
}

/// Some vote before position `j` is for resource `id`.
pub open spec fn voted_before(votes: Seq<(u32, Hit)>, id: u32, j: int) -> bool {
    exists|l: int| 0 <= l < j && (#[trigger] votes[l]).0 == id
}

/// Every vote for a group's resource comes after some vote for each earlier group's resource.
pub open spec fn in_first_vote_order(votes: Seq<(u32, Hit)>, groups: Seq<(u32, Vec<Hit>)>) -> bool {
    forall|a: int, b: int, j: int|
        #![trigger groups[a], groups[b], votes[j]]
        0 <= a < b < groups.len() && 0 <= j < votes.len() && votes[j].0 == groups[b].0 ==> voted_before(
            votes,
            groups[a].0,
            j,
        )
}

/// Groups whose resources first vote at increasing positions are in first-vote order.
proof fn lemma_first_vote_order(votes: Seq<(u32, Hit)>, groups: Seq<(u32, Vec<Hit>)>, firsts: Seq<int>)
    requires
        firsts.len() == groups.len(),
        forall|g: int| 0 <= g < groups.len() ==> 0 <= #[trigger] firsts[g] < votes.len() && votes[firsts[g]].0 == groups[g].0,
        forall|g: int, j: int| 0 <= g < groups.len() && 0 <= j < #[trigger] firsts[g] ==> (#[trigger] votes[j]).0 != groups[g].0,
        forall|a: int, b: int| 0 <= a < b < groups.len() ==> #[trigger] firsts[a] < #[trigger] firsts[b],
    ensures
        in_first_vote_order(votes, groups),
{
    assert forall|a: int, b: int, j: int|
        #![trigger groups[a], groups[b], votes[j]]
        0 <= a < b < groups.len() && 0 <= j < votes.len() && votes[j].0 == groups[b].0 implies voted_before(
            votes,
            groups[a].0,
            j,
        ) by {
        if j < firsts[b] {
            assert(votes[j].0 != groups[b].0);
        }
        assert(firsts[a] < firsts[b]);
        assert(votes[firsts[a]].0 == groups[a].0);
    }
}

/// `groups` holds the votes per resource: one group per resource that has votes, each with
/// that resource's hits in vote order, and the groups in order of each resource's first vote.
pub open spec fn grouped(votes: Seq<(u32, Hit)>, groups: Seq<(u32, Vec<Hit>)>) -> bool {
    &&& in_first_vote_order(votes, groups)
    &&& forall|a: int, b: int| 0 <= a < b < groups.len() ==> #[trigger] groups[a].0 != #[trigger] groups[b].0
    &&& forall|g: int| 0 <= g < groups.len() ==> (#[trigger] groups[g]).1@ == hits_for(votes, groups[g].0)
        && hits_for(votes, groups[g].0).len() > 0
    &&& forall|i: int| 0 <= i < votes.len() ==> exists|g: int| 0 <= g < groups.len() && (#[trigger] groups[g]).0 == (#[trigger] votes[i]).0
}

proof fn lemma_hits_for_push(votes: Seq<(u32, Hit)>, v: (u32, Hit), id: u32)
    ensures
        hits_for(votes.push(v), id) == hits_for(votes, id) + if v.0 == id { seq![v.1] } else { Seq::<Hit>::empty() },
{
    assert(votes.push(v).drop_last() =~= votes);
}

/// Groups votes by resource, groups in order of each resource's first vote.
#[verifier::spinoff_prover]
pub fn group_by_resource(votes: &Vec<(u32, Hit)>) -> (groups: Vec<(u32, Vec<Hit>)>)
    ensures
        grouped(votes@, groups@),
{
    broadcast use vstd::std_specs::hash::axiom_u32_obeys_hash_table_key_model;

    let ghost v = votes@;
    let mut ids: Vec<u32> = Vec::new();
    let mut lists: Vec<Vec<Hit>> = Vec::new();
    let mut index: vstd::hash_map::HashMapWithView<u32, usize> = vstd::hash_map::HashMapWithView::new();
    let mut i: usize = 0;
    let ghost mut firsts: Seq<int> = Seq::empty();
    while i < votes.len()
        invariant
            v == votes@,
            i <= v.len(),
            ids@.len() == lists@.len(),
            firsts.len() == ids@.len(),
            forall|g: int| 0 <= g < ids@.len() ==> 0 <= #[trigger] firsts[g] < i && v[firsts[g]].0 == ids@[g],
            forall|g: int, j: int| 0 <= g < ids@.len() && 0 <= j < #[trigger] firsts[g] ==> (#[trigger] v[j]).0 != ids@[g],
            forall|a: int, b: int| 0 <= a < b < ids@.len() ==> #[trigger] firsts[a] < #[trigger] firsts[b],
            forall|a: int, b: int| 0 <= a < b < ids@.len() ==> #[trigger] ids@[a] != #[trigger] ids@[b],
            forall|g: int| 0 <= g < ids@.len() ==> (#[trigger] lists@[g])@ == hits_for(v.subrange(0, i as int), ids@[g])
                && hits_for(v.subrange(0, i as int), ids@[g]).len() > 0,
            forall|id: u32| #[trigger] index@.contains_key(id) ==> index@[id] < ids@.len() && ids@[index@[id] as int] == id,
            forall|g: int| 0 <= g < ids@.len() ==> index@.contains_key(#[trigger] ids@[g]),
            forall|j: int| 0 <= j < i ==> index@.contains_key(#[trigger] v[j].0),
            forall|id: u32| !index@.contains_key(id) ==> hits_for(v.subrange(0, i as int), id).len() == 0,
        decreases v.len() - i,
    {
        let (id, h) = votes[i];
        let ghost p = v.subrange(0, i as int);
        proof {
            assert(v.subrange(0, i as int + 1) =~= p.push(v[i as int]));
        }
        let ghost before_ids = ids@;
        let ghost before_lists = lists@;
        let ghost before_index = index@;
        match index.get(&id) {
            Some(g) => {
                let g = *g;
                lists[g].push(h);
                proof {
                    assert forall|x: int| 0 <= x < ids@.len() implies (#[trigger] lists@[x])@ == hits_for(p.push(v[i as int]), ids@[x])
                        && hits_for(p.push(v[i as int]), ids@[x]).len() > 0 by {
                        lemma_hits_for_push(p, v[i as int], ids@[x]);
                        if x != g {
                            assert(lists@[x] == before_lists[x]);
                        }
                    }
                    assert forall|other: u32| !index@.contains_key(other) implies hits_for(p.push(v[i as int]), other).len() == 0 by {
                        lemma_hits_for_push(p, v[i as int], other);
                    }
                }
            },
            None => {
                let g = ids.len();
                ids.push(id);
                let mut fresh: Vec<Hit> = Vec::new();
                fresh.push(h);
                lists.push(fresh);
                index.insert(id, g);
                proof {
                    assert forall|j: int| 0 <= j < i implies (#[trigger] v[j]).0 != id by {
                        assert(before_index.contains_key(v[j].0));
                    }
                    firsts = firsts.push(i as int);
                    assert forall|x: int| 0 <= x < ids@.len() implies (#[trigger] lists@[x])@ == hits_for(p.push(v[i as int]), ids@[x])
                        && hits_for(p.push(v[i as int]), ids@[x]).len() > 0 by {
                        lemma_hits_for_push(p, v[i as int], ids@[x]);
                        if x < g {
                            assert(lists@[x] == before_lists[x]);
                            assert(before_index.contains_key(before_ids[x]));
                        }
                    }
                    assert forall|a: int, b: int| 0 <= a < b < ids@.len() implies #[trigger] ids@[a] != #[trigger] ids@[b] by {
                        if b == g {
                            assert(before_index.contains_key(before_ids[a]));
                        }
                    }
                    assert forall|other: u32| #[trigger] index@.contains_key(other) implies index@[other] < ids@.len() && ids@[index@[other] as int] == other by {
                        if other != id {
                            assert(before_index.contains_key(other));
                        }
                    }
                    assert forall|other: u32| !index@.contains_key(other) implies hits_for(p.push(v[i as int]), other).len() == 0 by {
                        lemma_hits_for_push(p, v[i as int], other);
                    }
                }
            },
        }
        i = i + 1;
    }
    assert(v.subrange(0, v.len() as int) =~= v);
    let ghost all_lists = lists@;
    let total = lists.len();
    let mut groups: Vec<(u32, Vec<Hit>)> = Vec::new();
    let mut g: usize = 0;
    for list in it: lists.into_iter()
        invariant
            g == it.index(),
            it.seq() == all_lists,
            all_lists.len() == total,
            ids@.len() == total,
            groups@.len() == g,
            forall|x: int| 0 <= x < g ==> (#[trigger] groups@[x]).0 == ids@[x] && groups@[x].1 == all_lists[x],
    {
        groups.push((ids[g], list));
        g = g + 1;
    }
    proof {
        assert forall|j: int| 0 <= j < v.len() implies exists|x: int| 0 <= x < groups@.len() && (#[trigger] groups@[x]).0 == (#[trigger] v[j]).0 by {
            assert(index@.contains_key(v[j].0));
            let x = index@[v[j].0] as int;
            assert(groups@[x].0 == v[j].0);
        }
        assert forall|a: int, b: int| 0 <= a < b < groups@.len() implies #[trigger] groups@[a].0 != #[trigger] groups@[b].0 by {
            assert(ids@[a] != ids@[b]);
        }
        lemma_first_vote_order(v, groups@, firsts);
        assert forall|x: int| 0 <= x < groups@.len() implies (#[trigger] groups@[x]).1@ == hits_for(v, groups@[x].0)
            && hits_for(v, groups@[x].0).len() > 0 by {
            assert(all_lists[x]@ == hits_for(v, ids@[x]));
        }
    }
    groups
}

proof fn lemma_last_hash_is_last(s: Seq<Fingerprint>, h: u64)
    ensures
        last_hash(s, h) >= 0 ==> forall|j: int| last_hash(s, h) < j < s.len() ==> (#[trigger] s[j]).hash != h,
    decreases s.len(),
{
    if s.len() > 0 && s.last().hash != h {
        lemma_last_hash_is_last(s.drop_last(), h);
        if last_hash(s, h) >= 0 {
            assert forall|j: int| last_hash(s, h) < j < s.len() - 1 implies (#[trigger] s[j]).hash != h by {
                assert(s[j] == s.drop_last()[j]);
            }
        }
    }
}

proof fn lemma_expand_lookup_member(p: ProbeSet, k: int, hits: Seq<StoredHit>, only: Option<u32>, m: int)
    requires
        0 <= m < expand_lookup(p, k, hits, only).len(),
    ensures
        exists|x: int| 0 <= x < hits.len() && #[trigger] expand_lookup(p, k, hits, only)[m] == (hits[x].resource_id, hit_of(p, k, hits[x])),
    decreases hits.len(),
{
    let pre = expand_lookup(p, k, hits.drop_last(), only);
    if m < pre.len() {
        lemma_expand_lookup_member(p, k, hits.drop_last(), only, m);
        let x = choose|x: int| 0 <= x < hits.drop_last().len() && #[trigger] pre[m] == (hits.drop_last()[x].resource_id, hit_of(p, k, hits.drop_last()[x]));
        assert(hits.drop_last()[x] == hits[x]);
        assert(expand_lookup(p, k, hits, only)[m] == pre[m]);
    } else {
        let x = hits.len() - 1;
        assert(expand_lookup(p, k, hits, only)[m] == (hits[x].resource_id, hit_of(p, k, hits[x])));
    }
}

proof fn lemma_expand_all_member(p: ProbeSet, found: Seq<Seq<StoredHit>>, order: Seq<usize>, only: Option<u32>, m: int)
    requires
        0 <= m < expand_all(p, found, order, only).len(),
    ensures
        exists|j: int, x: int| 0 <= j < order.len() && 0 <= x < found[order[j] as int].len() && #[trigger] expand_all(p, found, order, only)[m] == (
            found[order[j] as int][x].resource_id,
            hit_of(p, order[j] as int, found[order[j] as int][x]),
        ),
    decreases order.len(),
{
    let pre = expand_all(p, found, order.drop_last(), only);
    let all = expand_all(p, found, order, only);
    if m < pre.len() {
        lemma_expand_all_member(p, found, order.drop_last(), only, m);
        let (j, x) = choose|j: int, x: int| 0 <= j < order.drop_last().len() && 0 <= x < found[order.drop_last()[j] as int].len()
            && #[trigger] pre[m] == (
            found[order.drop_last()[j] as int][x].resource_id,
            hit_of(p, order.drop_last()[j] as int, found[order.drop_last()[j] as int][x]),
        );
        assert(order.drop_last()[j] == order[j]);
        assert(all[m] == pre[m]);
    } else {
        let j = order.len() - 1;
        let k = order[j] as int;
        lemma_expand_lookup_member(p, k, found[k], only, m - pre.len());
        let x = choose|x: int| 0 <= x < found[k].len() && #[trigger] expand_lookup(p, k, found[k], only)[m - pre.len()] == (
            found[k][x].resource_id,
            hit_of(p, k, found[k][x]),
        );
        assert(all[m] == expand_lookup(p, k, found[k], only)[m - pre.len()]);
    }
}

/// Every vote pairs a stored posting with the probe: for the posting found by looking up
/// one of the probe's hashes, it votes for the posting's resource with the reference time
/// and band of the posting, the hash it was stored under, the probe's hash, and the time and
/// band of the last probe print carrying that hash, so its offset is stored time minus probe
/// time.
pub proof fn lemma_votes_pair_stored_with_probe(
    prints: Seq<Fingerprint>,
    p: ProbeSet,
    found: Seq<Seq<StoredHit>>,
    order: Seq<usize>,
    only: Option<u32>,
    m: int,
)
    requires
        probe_of(prints, p),
        found.len() == p.hashes@.len(),
        walk_order(p, found, order),
        0 <= m < expand_all(p, found, order, only).len(),
    ensures
        exists|k: int, x: int, i: int|
            #![trigger found[k][x], prints[i]]
            0 <= k < found.len() && 0 <= x < found[k].len() && 0 <= i < prints.len() && {
                let v = expand_all(p, found, order, only)[m];
                let s = found[k][x];
                &&& v.0 == s.resource_id
                &&& v.1.ref_t == s.t
                &&& v.1.ref_f == s.f
                &&& v.1.matched_hash == s.matched_hash
                &&& v.1.original_hash == p.hashes@[k]
                &&& prints[i].hash == p.hashes@[k]
                &&& (forall|j: int| i < j < prints.len() ==> (#[trigger] prints[j]).hash != p.hashes@[k])
                &&& v.1.q_t == prints[i].t
                &&& v.1.q_f == prints[i].f
                &&& delta(v.1) == s.t - prints[i].t
            },
{
    lemma_expand_all_member(p, found, order, only, m);
    let (j, x) = choose|j: int, x: int| 0 <= j < order.len() && 0 <= x < found[order[j] as int].len()
        && #[trigger] expand_all(p, found, order, only)[m] == (
        found[order[j] as int][x].resource_id,
        hit_of(p, order[j] as int, found[order[j] as int][x]),
    );
    let k = order[j] as int;
    let h = p.hashes@[k];
    lemma_first_hash(prints, h);
    lemma_last_hash_is_last(prints, h);
    let i = last_hash(prints, h);
    assert(prints[i].hash == h);
    assert(p.last@[k] == prints[i]);
    let v = expand_all(p, found, order, only)[m];
    assert(v.1 == hit_of(p, k, found[k][x]));
}

/// How many of `hits` a lookup restricted to `only` keeps.
pub open spec fn admitted(hits: Seq<StoredHit>, only: Option<u32>) -> nat
    decreases hits.len(),
{
    if hits.len() == 0 {
        0
    } else {
        admitted(hits.drop_last(), only) + if only matches Some(id) && id != hits.last().resource_id { 0nat } else { 1nat }
    }
}

/// How many votes all lookups in `order` give: each kept posting of a lookup once per probe
/// print carrying the looked-up hash.
pub open spec fn vote_total(prints: Seq<Fingerprint>, p: ProbeSet, found: Seq<Seq<StoredHit>>, order: Seq<usize>, only: Option<u32>) -> nat
    decreases order.len(),
{
    if order.len() == 0 {
        0
    } else {
        let k = order.last() as int;
        vote_total(prints, p, found, order.drop_last(), only) + admitted(found[k], only) * hash_count(prints, p.hashes@[k])
    }
}

proof fn lemma_expand_lookup_len(prints: Seq<Fingerprint>, p: ProbeSet, k: int, hits: Seq<StoredHit>, only: Option<u32>)
    requires
        probe_of(prints, p),
        0 <= k < p.hashes@.len(),
    ensures
        expand_lookup(p, k, hits, only).len() == admitted(hits, only) * hash_count(prints, p.hashes@[k]),
    decreases hits.len(),
{
    if hits.len() > 0 {
        lemma_expand_lookup_len(prints, p, k, hits.drop_last(), only);
        let a = admitted(hits.drop_last(), only);
        let c = hash_count(prints, p.hashes@[k]);
        assert(p.copies@[k] == c);
        assert((a + 1) * c == a * c + c) by (nonlinear_arith);
    } else {
        let c = hash_count(prints, p.hashes@[k]);
        assert(0 * c == 0) by (nonlinear_arith);
    }
}

/// A probe casts, for every lookup in walk order, one vote per kept stored posting and per
/// probe print carrying the looked-up hash: no more and no fewer.
pub proof fn lemma_vote_count(prints: Seq<Fingerprint>, p: ProbeSet, found: Seq<Seq<StoredHit>>, order: Seq<usize>, only: Option<u32>)
    requires
        probe_of(prints, p),
        found.len() == p.hashes@.len(),
        walk_order(p, found, order),
    ensures
        expand_all(p, found, order, only).len() == vote_total(prints, p, found, order, only),
{
    lemma_vote_count_prefix(prints, p, found, order, only);
}

proof fn lemma_vote_count_prefix(prints: Seq<Fingerprint>, p: ProbeSet, found: Seq<Seq<StoredHit>>, order: Seq<usize>, only: Option<u32>)
    requires
        probe_of(prints, p),
        found.len() == p.hashes@.len(),
        forall|m: int| 0 <= m < order.len() ==> #[trigger] order[m] < found.len(),
    ensures
        expand_all(p, found, order, only).len() == vote_total(prints, p, found, order, only),
    decreases order.len(),
{
    if order.len() > 0 {
        let shorter = order.drop_last();
        assert forall|m: int| 0 <= m < shorter.len() implies #[trigger] shorter[m] < found.len() by {
            assert(shorter[m] == order[m]);
        }
        lemma_vote_count_prefix(prints, p, found, shorter, only);
        let k = order.last() as int;
        assert(order[order.len() - 1] < found.len());
        lemma_expand_lookup_len(prints, p, k, found[k], only);
    }
}

proof fn lemma_expand_all_push(p: ProbeSet, found: Seq<Seq<StoredHit>>, order: Seq<usize>, k: usize, only: Option<u32>)
    ensures
        expand_all(p, found, order.push(k), only) == expand_all(p, found, order, only) + expand_lookup(p, k as int, found[k as int], only),
{
    assert(order.push(k).drop_last() =~= order);
}

proof fn lemma_expand_lookup_push(p: ProbeSet, k: int, hits: Seq<StoredHit>, s: StoredHit, only: Option<u32>)
    ensures
        expand_lookup(p, k, hits.push(s), only) == expand_lookup(p, k, hits, only) + if only matches Some(id) && id != s.resource_id {
            Seq::<(u32, Hit)>::empty()
        } else {
            Seq::new(p.copies@[k] as nat, |i: int| (s.resource_id, hit_of(p, k, s)))
        },
{
    assert(hits.push(s).drop_last() =~= hits);
}

/// Looks up every distinct probe hash, in ascending order; the first failure is returned.
fn lookup_all(store: &Store, probe: &ProbeSet, only: Option<u32>) -> (r: Result<Vec<Vec<StoredHit>>, Error>)
    requires
        (exists|j: int| 0 <= j < probe.hashes@.len() && #[trigger] probe.hashes@[j] <= MAX_HASH) ==> only_in_shards(
            *store,
            only,
        ),
    ensures
        match r {
            Ok(found) => found@.len() == probe.hashes@.len() && forall|k: int| 0 <= k < found@.len() ==> answers(
                *store,
                probe.hashes@[k],
                only,
                (#[trigger] found@[k])@,
            ),
            Err(e) => lookup_error(e) && exists|j: int| 0 <= j < probe.hashes@.len() && lookup_fails(
                *store,
                #[trigger] probe.hashes@[j],
                only,
                e,
            ),
        },
{
    let mut found: Vec<Vec<StoredHit>> = Vec::new();
    let mut k: usize = 0;
    while k < probe.hashes.len()
        invariant
            k <= probe.hashes@.len(),
            found@.len() == k,
            forall|j: int| 0 <= j < k ==> answers(*store, probe.hashes@[j], only, (#[trigger] found@[j])@),
            (exists|j: int| 0 <= j < probe.hashes@.len() && #[trigger] probe.hashes@[j] <= MAX_HASH) ==> only_in_shards(
                *store,
                only,
            ),
        decreases probe.hashes@.len() - k,
    {
        let hash = probe.hashes[k];
        assert(hash == probe.hashes@[k as int]);
        let r = match only {
            None => store.lookup(hash),
            Some(id) => store.lookup_resource(hash, id),
        };
        match r {
            Ok(hits) => found.push(hits),
            Err(e) => {
                assert(lookup_fails(*store, probe.hashes@[k as int], only, e));
                return Err(e);
            },
        }
        k = k + 1;
    }
    Ok(found)
}

/// The votes of a probe against the store (a match up to the grouping): every
/// distinct hash is looked up in ascending order, the lookups that found something are
/// walked in Java `HashMap` order, and every stored posting votes once per probe print
/// carrying the hash.
pub fn collect_votes(store: &Store, prints: &Vec<Fingerprint>, probe: &ProbeSet, only: Option<u32>) -> (r: Result<Vec<(u32, Hit)>, Error>)
    requires
        probe_of(prints@, *probe),
        probe.hashes@.len() <= usize::MAX / 8,
        (exists|j: int| 0 <= j < probe.hashes@.len() && #[trigger] probe.hashes@[j] <= MAX_HASH) ==> only_in_shards(
            *store,
            only,
        ),
    ensures
        match r {
            Ok(votes) => exists|found: Seq<Seq<StoredHit>>, order: Seq<usize>| #![trigger walk_order(*probe, found, order)]
                found.len() == probe.hashes@.len()
                && (forall|k: int| 0 <= k < found.len() ==> answers(*store, probe.hashes@[k], only, #[trigger] found[k]))
                && walk_order(*probe, found, order) && votes@ == expand_all(*probe, found, order, only),
            Err(e) => lookup_error(e) && exists|j: int| 0 <= j < probe.hashes@.len() && lookup_fails(
                *store,
                #[trigger] probe.hashes@[j],
                only,
                e,
            ),
        },
{
    let found = match lookup_all(store, probe, only) {
        Ok(f) => f,
        Err(e) => return Err(e),
    };
    let ghost fv = found@.map_values(|v: Vec<StoredHit>| v@);
    let n = found.len();
    let mut count: usize = 0;
    let mut k: usize = 0;
    while k < n
        invariant
            k <= n == found@.len(),
            fv == found@.map_values(|v: Vec<StoredHit>| v@),
            count == live_count(fv.subrange(0, k as int)),
            count <= k,
        decreases n - k,
    {
        proof {
            assert(fv.subrange(0, k as int + 1).drop_last() =~= fv.subrange(0, k as int));
        }
        if found[k].len() > 0 {
            count = count + 1;
        }
        k = k + 1;
    }
    assert(fv.subrange(0, n as int) =~= fv);
    let cap = java_hash_map_capacity(count);
    let mut live: Vec<(usize, usize, usize)> = Vec::new();
    let mut k: usize = 0;
    while k < n
        invariant
            k <= n == found@.len() == probe.hashes@.len() == probe.first@.len(),
            fv == found@.map_values(|v: Vec<StoredHit>| v@),
            cap >= 16,
            live@.len() == live_count(fv.subrange(0, k as int)),
            forall|m: int| 0 <= m < live@.len() ==> {
                let t = #[trigger] live@[m];
                &&& t.2 < k
                &&& fv[t.2 as int].len() > 0
                &&& t.0 == long_bucket(probe.hashes@[t.2 as int], cap)
                &&& t.1 == probe.first@[t.2 as int]
            },
            forall|a: int, b: int| 0 <= a < b < live@.len() ==> #[trigger] live@[a].2 < #[trigger] live@[b].2,
        decreases n - k,
    {
        proof {
            assert(fv.subrange(0, k as int + 1).drop_last() =~= fv.subrange(0, k as int));
        }
        if found[k].len() > 0 {
            let b = java_long_bucket(probe.hashes[k], cap);
            live.push((b, probe.first[k], k));
        }
        k = k + 1;
    }
    let ghost original = live@;
    proof {
        assert(original.no_duplicates()) by {
            assert forall|a: int, b: int| 0 <= a < original.len() && 0 <= b < original.len() && a != b implies original[a] != original[b] by {
                if a < b {
                    assert(original[a].2 < original[b].2);
                } else {
                    assert(original[b].2 < original[a].2);
                }
            }
        }
        original.lemma_multiset_has_no_duplicates();
    }
    crate::sorting::sort_triples(&mut live);
    proof {
        live@.lemma_multiset_has_no_duplicates_conv();
        vstd::seq_lib::to_multiset_len(live@);
        vstd::seq_lib::to_multiset_len(original);
        assert forall|m: int| 0 <= m < live@.len() implies {
            let t = #[trigger] live@[m];
            &&& t.2 < n
            &&& fv[t.2 as int].len() > 0
            &&& t.0 == long_bucket(probe.hashes@[t.2 as int], cap)
            &&& t.1 == probe.first@[t.2 as int]
        } by {
            vstd::seq_lib::to_multiset_contains(live@, live@[m]);
            vstd::seq_lib::to_multiset_contains(original, live@[m]);
            assert(live@.contains(live@[m]));
            let i = choose|i: int| 0 <= i < original.len() && original[i] == live@[m];
        }
    }
    let ghost order = live@.map_values(|t: (usize, usize, usize)| t.2);
    proof {
        assert(walk_order(*probe, fv, order)) by {
            assert forall|a: int, b: int| 0 <= a < b < order.len() implies {
                let (ka, kb) = (#[trigger] order[a] as int, #[trigger] order[b] as int);
                let (ba, bb) = (long_bucket(probe.hashes@[ka], cap), long_bucket(probe.hashes@[kb], cap));
                ba < bb || (ba == bb && probe.first@[ka] < probe.first@[kb])
            } by {
                let (ta, tb) = (live@[a], live@[b]);
                assert(crate::sorting::triple_le(ta, tb));
                assert(ta != tb);
                if ta.2 != tb.2 {
                    let (ka, kb) = (ta.2 as int, tb.2 as int);
                    assert(prints@[probe.first@[ka] as int].hash == probe.hashes@[ka]) by {
                        lemma_first_hash(prints@, probe.hashes@[ka]);
                    }
                    assert(prints@[probe.first@[kb] as int].hash == probe.hashes@[kb]) by {
                        lemma_first_hash(prints@, probe.hashes@[kb]);
                    }
                    if ka < kb {
                        assert(probe.hashes@[ka] < probe.hashes@[kb]);
                    } else {
                        assert(probe.hashes@[kb] < probe.hashes@[ka]);
                    }
                }
            }
        }
    }
    let mut votes: Vec<(u32, Hit)> = Vec::new();
    let mut m: usize = 0;
    while m < live.len()
        invariant
            m <= live@.len() == order.len(),
            n == found@.len() == probe.hashes@.len() == probe.last@.len() == probe.copies@.len(),
            fv == found@.map_values(|v: Vec<StoredHit>| v@),
            order == live@.map_values(|t: (usize, usize, usize)| t.2),
            forall|x: int| 0 <= x < live@.len() ==> (#[trigger] live@[x]).2 < n,
            votes@ == expand_all(*probe, fv, order.subrange(0, m as int), only),
        decreases live@.len() - m,
    {
        let k = live[m].2;
        let hits = &found[k];
        let ghost base = votes@;
        let mut j: usize = 0;
        while j < hits.len()
            invariant
                j <= hits@.len(),
                k < n == probe.hashes@.len() == probe.last@.len() == probe.copies@.len(),
                hits@ == fv[k as int],
                votes@ == base + expand_lookup(*probe, k as int, hits@.subrange(0, j as int), only),
            decreases hits@.len() - j,
        {
            let s = hits[j];
            proof {
                assert(hits@.subrange(0, j as int + 1) =~= hits@.subrange(0, j as int).push(s));
                lemma_expand_lookup_push(*probe, k as int, hits@.subrange(0, j as int), s, only);
            }
            let skip = match only {
                Some(id) => id != s.resource_id,
                None => false,
            };
            if !skip {
                let h = Hit {
                    ref_t: s.t,
                    ref_f: s.f,
                    q_t: probe.last[k].t,
                    q_f: probe.last[k].f,
                    original_hash: probe.hashes[k],
                    matched_hash: s.matched_hash,
                };
                let copies = probe.copies[k];
                let ghost mid = votes@;
                let mut c: usize = 0;
                while c < copies
                    invariant
                        c <= copies,
                        votes@ == mid + Seq::new(c as nat, |i: int| (s.resource_id, h)),
                    decreases copies - c,
                {
                    votes.push((s.resource_id, h));
                    c = c + 1;
                    assert(votes@ =~= mid + Seq::new(c as nat, |i: int| (s.resource_id, h)));
                }
                assert(h == hit_of(*probe, k as int, s));
                assert(votes@ =~= base + expand_lookup(*probe, k as int, hits@.subrange(0, j as int + 1), only));
            } else {
                assert(votes@ =~= base + expand_lookup(*probe, k as int, hits@.subrange(0, j as int + 1), only));
            }
            j = j + 1;
        }
        proof {
            assert(hits@.subrange(0, hits@.len() as int) =~= hits@);
            assert(order.subrange(0, m as int + 1) =~= order.subrange(0, m as int).push(k));
            lemma_expand_all_push(*probe, fv, order.subrange(0, m as int), k, only);
        }
        m = m + 1;
    }
    assert(order.subrange(0, order.len() as int) =~= order);
    assert(found@.len() == fv.len());
    assert forall|k: int| 0 <= k < fv.len() implies answers(*store, probe.hashes@[k], only, #[trigger] fv[k]) by {
        assert(fv[k] == found@[k]@);
    }
    let result: Result<Vec<(u32, Hit)>, Error> = Ok(votes);
    assert(result matches Ok(votes) ==> exists|found: Seq<Seq<StoredHit>>, order: Seq<usize>| #![trigger walk_order(*probe, found, order)]
        found.len() == probe.hashes@.len()
        && (forall|k: int| 0 <= k < found.len() ==> answers(*store, probe.hashes@[k], only, #[trigger] found[k]))
        && walk_order(*probe, found, order) && votes@ == expand_all(*probe, found, order, only)) by {
        assert(walk_order(*probe, fv, order));
    }
    result
}

// ---------------------------------------------------------------------------------------
// Multi-line peeling
// ---------------------------------------------------------------------------------------

/// The identity of a hit as multi-line peeling compares hits.
pub open spec fn hit_key(h: Hit) -> (u32, u32, u64, u64) {
    (h.q_t, h.ref_t, h.original_hash, h.matched_hash)
}

pub open spec fn keys_of(s: Seq<Hit>) -> Seq<(u32, u32, u64, u64)> {
    s.map_values(|h: Hit| hit_key(h))
}

/// What peeling keeps of `remaining`: left to right, a hit is dropped while `budget` still
/// holds an unused copy of its key.
pub open spec fn peel(remaining: Seq<Hit>, budget: Multiset<(u32, u32, u64, u64)>) -> Seq<Hit>
    decreases remaining.len(),
{
    if remaining.len() == 0 {
        Seq::empty()
    } else {
        let h = remaining[0];
        if budget.count(hit_key(h)) > 0 {
            peel(remaining.drop_first(), budget.remove(hit_key(h)))
        } else {
            seq![h] + peel(remaining.drop_first(), budget)
        }
    }
}

/// Removes from `remaining` the hits a multi-line vote selected (what the next multi-line pass votes on):
/// each selected key removes its earliest remaining copy.
pub fn remove_selected(remaining: Vec<Hit>, selected: &Vec<Hit>) -> (kept: Vec<Hit>)
    ensures
        kept@ == peel(remaining@, keys_of(selected@).to_multiset()),
{
    broadcast use vstd::multiset::group_multiset_axioms;

    let ghost sel = selected@;
    let mut table: Vec<((u32, u32, u64, u64), usize)> = Vec::new();
    proof {
        assert(keys_of(sel.subrange(0, 0)) =~= Seq::<(u32, u32, u64, u64)>::empty());
        vstd::seq_lib::to_multiset_len(keys_of(sel.subrange(0, 0)));
        assert forall|key: (u32, u32, u64, u64)| #[trigger] keys_of(sel.subrange(0, 0)).to_multiset().count(key) == budget_count(table@, key) by {
            assert(keys_of(sel.subrange(0, 0)).to_multiset().count(key) <= keys_of(sel.subrange(0, 0)).to_multiset().len());
        }
    }
    let mut i: usize = 0;
    while i < selected.len()
        invariant
            sel == selected@,
            i <= sel.len(),
            forall|a: int, b: int| 0 <= a < b < table@.len() ==> #[trigger] table@[a].0 != #[trigger] table@[b].0,
            forall|key: (u32, u32, u64, u64)| #[trigger] keys_of(sel.subrange(0, i as int)).to_multiset().count(key) == budget_count(table@, key),
            forall|a: int| 0 <= a < table@.len() ==> (#[trigger] table@[a]).1 <= i,
        decreases sel.len() - i,
    {
        let h = selected[i];
        let key = (h.q_t, h.ref_t, h.original_hash, h.matched_hash);
        let ghost prefix = keys_of(sel.subrange(0, i as int));
        proof {
            assert(keys_of(sel.subrange(0, i as int + 1)) =~= prefix.push(key));
            vstd::seq_lib::to_multiset_build(prefix, key);
        }
        let ghost before = table@;
        match find_key(&table, key) {
            Some(k) => {
                let c = table[k].1;
                table.set(k, (key, c + 1));
                proof {
                    lemma_budget_present(before, k as int, key);
                    assert forall|other: (u32, u32, u64, u64)| #[trigger] prefix.push(key).to_multiset().count(other)
                        == budget_count(table@, other) by {
                        lemma_budget_count_set(before, k as int, (key, (c + 1) as usize), other);
                    }
                }
            },
            None => {
                table.push((key, 1));
                proof {
                    lemma_budget_absent(before, key);
                    assert forall|other: (u32, u32, u64, u64)| #[trigger] prefix.push(key).to_multiset().count(other)
                        == budget_count(table@, other) by {
                        lemma_budget_count_push(before, (key, 1usize), other);
                    }
                }
            },
        }
        i = i + 1;
    }
    assert(sel.subrange(0, sel.len() as int) =~= sel);
    let ghost budget0 = keys_of(sel).to_multiset();
    let ghost r = remaining@;
    let total = remaining.len();
    let mut kept: Vec<Hit> = Vec::new();
    let mut j: usize = 0;
    let ghost mut budget = budget0;
    assert(r.subrange(0, r.len() as int) =~= r);
    assert(kept@ + peel(r.subrange(0, r.len() as int), budget) =~= peel(r, budget0));
    for h in it: remaining.into_iter()
        invariant
            j == it.index(),
            it.seq() == r,
            r.len() == total,
            forall|a: int, b: int| 0 <= a < b < table@.len() ==> #[trigger] table@[a].0 != #[trigger] table@[b].0,
            forall|key: (u32, u32, u64, u64)| #[trigger] budget.count(key) == budget_count(table@, key),
            kept@ + peel(r.subrange(j as int, r.len() as int), budget) == peel(r, budget0),
    {
        let key = (h.q_t, h.ref_t, h.original_hash, h.matched_hash);
        let ghost rest = r.subrange(j as int, r.len() as int);
        proof {
            assert(rest[0] == h);
            assert(rest.drop_first() =~= r.subrange(j as int + 1, r.len() as int));
        }
        let ghost before = table@;
        let mut take = false;
        match find_key(&table, key) {
            Some(k) => {
                proof {
                    lemma_budget_present(before, k as int, key);
                }
                if table[k].1 > 0 {
                    let c = table[k].1;
                    table.set(k, (key, c - 1));
                    take = true;
                    proof {
                        assert forall|other: (u32, u32, u64, u64)| #[trigger] budget.remove(key).count(other) == budget_count(table@, other) by {
                            lemma_budget_count_set(before, k as int, (key, (c - 1) as usize), other);
                        }
                        budget = budget.remove(key);
                    }
                }
            },
            None => {
                proof {
                    lemma_budget_absent(before, key);
                }
            },
        }
        if !take {
            let ghost prev = kept@;
            kept.push(h);
            assert(kept@ + peel(r.subrange(j as int + 1, r.len() as int), budget) =~= prev + peel(rest, budget));
        }
        j = j + 1;
    }
    assert(r.subrange(r.len() as int, r.len() as int) =~= Seq::<Hit>::empty());
    assert(kept@ + Seq::<Hit>::empty() =~= kept@);
    kept
}

/// How many copies of `key` the budget table holds.
pub open spec fn budget_count(table: Seq<((u32, u32, u64, u64), usize)>, key: (u32, u32, u64, u64)) -> nat
    decreases table.len(),
{
    if table.len() == 0 {
        0
    } else if table.last().0 == key {
        table.last().1 as nat
    } else {
        budget_count(table.drop_last(), key)
    }
}

proof fn lemma_budget_absent(table: Seq<((u32, u32, u64, u64), usize)>, key: (u32, u32, u64, u64))
    requires
        forall|m: int| 0 <= m < table.len() ==> (#[trigger] table[m]).0 != key,
    ensures
        budget_count(table, key) == 0,
    decreases table.len(),
{
    if table.len() > 0 {
        assert forall|m: int| 0 <= m < table.len() - 1 implies (#[trigger] table.drop_last()[m]).0 != key by {
            assert(table.drop_last()[m] == table[m]);
        }
        lemma_budget_absent(table.drop_last(), key);
    }
}

proof fn lemma_budget_present(table: Seq<((u32, u32, u64, u64), usize)>, k: int, key: (u32, u32, u64, u64))
    requires
        0 <= k < table.len(),
        table[k].0 == key,
        forall|a: int, b: int| 0 <= a < b < table.len() ==> #[trigger] table[a].0 != #[trigger] table[b].0,
    ensures
        budget_count(table, key) == table[k].1,
    decreases table.len(),
{
    if k < table.len() - 1 {
        assert(table.last().0 != key);
        assert(table.drop_last()[k] == table[k]);
        assert forall|a: int, b: int| 0 <= a < b < table.drop_last().len() implies #[trigger] table.drop_last()[a].0 != #[trigger] table.drop_last()[b].0 by {
            assert(table.drop_last()[a] == table[a]);
            assert(table.drop_last()[b] == table[b]);
        }
        lemma_budget_present(table.drop_last(), k, key);
    }
}

proof fn lemma_budget_count_set(table: Seq<((u32, u32, u64, u64), usize)>, k: int, entry: ((u32, u32, u64, u64), usize), key: (u32, u32, u64, u64))
    requires
        0 <= k < table.len(),
        entry.0 == table[k].0,
        forall|a: int, b: int| 0 <= a < b < table.len() ==> #[trigger] table[a].0 != #[trigger] table[b].0,
    ensures
        budget_count(table.update(k, entry), key) == if key == entry.0 { entry.1 as nat } else { budget_count(table, key) },
    decreases table.len(),
{
    let t2 = table.update(k, entry);
    if k < table.len() - 1 {
        assert(t2.drop_last() =~= table.drop_last().update(k, entry));
        assert(table.last().0 != entry.0);
        assert forall|a: int, b: int| 0 <= a < b < table.drop_last().len() implies #[trigger] table.drop_last()[a].0 != #[trigger] table.drop_last()[b].0 by {
            assert(table.drop_last()[a] == table[a]);
            assert(table.drop_last()[b] == table[b]);
        }
        assert(table.drop_last()[k] == table[k]);
        lemma_budget_count_set(table.drop_last(), k, entry, key);
    } else {
        assert(t2.drop_last() =~= table.drop_last());
    }
}

proof fn lemma_budget_count_push(table: Seq<((u32, u32, u64, u64), usize)>, entry: ((u32, u32, u64, u64), usize), key: (u32, u32, u64, u64))
    ensures
        budget_count(table.push(entry), key) == if key == entry.0 { entry.1 as nat } else { budget_count(table, key) },
{
    assert(table.push(entry).drop_last() =~= table);
}

fn find_key(table: &Vec<((u32, u32, u64, u64), usize)>, key: (u32, u32, u64, u64)) -> (r: Option<usize>)
    ensures
        r matches Some(k) ==> k < table@.len() && table@[k as int].0 == key,
        r is None ==> forall|m: int| 0 <= m < table@.len() ==> (#[trigger] table@[m]).0 != key,
{
    let mut k: usize = 0;
    while k < table.len()
        invariant
            k <= table@.len(),
            forall|m: int| 0 <= m < k ==> (#[trigger] table@[m]).0 != key,
        decreases table@.len() - k,
    {
        let t = table[k].0;
        if t.0 == key.0 && t.1 == key.1 && t.2 == key.2 && t.3 == key.3 {
            return Some(k);
        }
        k = k + 1;
    }
    None
}

proof fn lemma_singleton_multiset(k: (u32, u32, u64, u64))
    ensures
        seq![k].to_multiset() =~= Multiset::singleton(k),
{
    broadcast use vstd::multiset::group_multiset_axioms;

    assert(Seq::<(u32, u32, u64, u64)>::empty().push(k) =~= seq![k]);
    vstd::seq_lib::to_multiset_build(Seq::<(u32, u32, u64, u64)>::empty(), k);
    vstd::seq_lib::to_multiset_len(Seq::<(u32, u32, u64, u64)>::empty());
    assert(Seq::<(u32, u32, u64, u64)>::empty().to_multiset() =~= Multiset::empty());
}

/// Peeling removes exactly the budget: the kept hits' keys are the remaining hits' keys
/// less the budget (as many copies of each key as the budget holds, when there are that many).
pub proof fn lemma_peel_removes_budget(remaining: Seq<Hit>, budget: Multiset<(u32, u32, u64, u64)>)
    ensures
        keys_of(peel(remaining, budget)).to_multiset() =~= keys_of(remaining).to_multiset().sub(budget),
    decreases remaining.len(),
{
    broadcast use vstd::multiset::group_multiset_axioms;

    if remaining.len() == 0 {
        assert(keys_of(remaining) =~= Seq::<(u32, u32, u64, u64)>::empty());
        vstd::seq_lib::to_multiset_len(Seq::<(u32, u32, u64, u64)>::empty());
        assert(Seq::<(u32, u32, u64, u64)>::empty().to_multiset() =~= Multiset::empty());
        assert(peel(remaining, budget) =~= Seq::<Hit>::empty());
        assert(keys_of(peel(remaining, budget)) =~= Seq::<(u32, u32, u64, u64)>::empty());
        assert(Multiset::<(u32, u32, u64, u64)>::empty().sub(budget) =~= Multiset::empty());
    } else {
        let h = remaining[0];
        let t = remaining.drop_first();
        let kh = hit_key(h);
        assert(keys_of(remaining) =~= seq![kh] + keys_of(t));
        vstd::seq_lib::lemma_multiset_commutative(seq![kh], keys_of(t));
        lemma_singleton_multiset(kh);
        let whole = keys_of(remaining).to_multiset();
        let tail = keys_of(t).to_multiset();
        assert(whole =~= Multiset::singleton(kh).add(tail));
        if budget.count(kh) > 0 {
            lemma_peel_removes_budget(t, budget.remove(kh));
            let kept = keys_of(peel(t, budget.remove(kh))).to_multiset();
            assert(peel(remaining, budget) == peel(t, budget.remove(kh)));
            assert forall|v: (u32, u32, u64, u64)| #[trigger] kept.count(v) == whole.sub(budget).count(v) by {
                if v == kh {
                } else {
                }
            }
            assert(kept =~= whole.sub(budget));
        } else {
            lemma_peel_removes_budget(t, budget);
            let p = peel(t, budget);
            assert(peel(remaining, budget) == seq![h] + p);
            assert(keys_of(seq![h] + p) =~= seq![kh] + keys_of(p));
            vstd::seq_lib::lemma_multiset_commutative(seq![kh], keys_of(p));
            let kept = keys_of(seq![h] + p).to_multiset();
            assert(kept =~= Multiset::singleton(kh).add(keys_of(p).to_multiset()));
            assert forall|v: (u32, u32, u64, u64)| #[trigger] kept.count(v) == whole.sub(budget).count(v) by {
                if v == kh {
                } else {
                }
            }
            assert(kept =~= whole.sub(budget));
        }
    }
}

/// When every selected key is among the remaining hits, peeling removes exactly as many
/// hits as were selected, so each multi-line vote shrinks what remains.
pub proof fn lemma_peel_len(remaining: Seq<Hit>, budget: Multiset<(u32, u32, u64, u64)>)
    requires
        budget.subset_of(keys_of(remaining).to_multiset()),
    ensures
        peel(remaining, budget).len() == remaining.len() - budget.len(),
{
    broadcast use vstd::multiset::group_multiset_axioms;

    lemma_peel_removes_budget(remaining, budget);
    vstd::seq_lib::to_multiset_len(keys_of(peel(remaining, budget)));
    vstd::seq_lib::to_multiset_len(keys_of(remaining));
}

// ---------------------------------------------------------------------------------------
// Offset histogram
// ---------------------------------------------------------------------------------------

/// One offset of the evidence histogram and how many hits vote for it.
#[derive(Clone, Copy, Debug, PartialEq, Eq, Structural)]
pub struct HistogramBin {
    pub bin: i64,
    pub count: usize,
}

/// Offset `a` comes before offset `b` in the histogram: more votes, then the smaller offset.
pub open spec fn bin_before(s: Seq<Hit>, a: int, b: int) -> bool {
    delta_count(s, a) > delta_count(s, b) || (delta_count(s, a) == delta_count(s, b) && a < b)
}

/// `bins` is the evidence histogram of `s`: its ten (or fewer) leading offsets with their
/// vote counts, most votes first, ties by offset.
pub open spec fn histogram_of(s: Seq<Hit>, bins: Seq<HistogramBin>) -> bool {
    &&& bins.len() == if distinct_deltas(s) < 10 { distinct_deltas(s) } else { 10 }
    &&& forall|i: int| 0 <= i < bins.len() ==> first_with(s, (#[trigger] bins[i]).bin as int) >= 0
        && bins[i].count == delta_count(s, bins[i].bin as int)
    &&& forall|i: int, j: int| 0 <= i < j < bins.len() ==> bin_before(s, (#[trigger] bins[i]).bin as int, (#[trigger] bins[j]).bin as int)
    &&& forall|d: int| first_with(s, d) >= 0 && (forall|i: int| 0 <= i < bins.len() ==> (#[trigger] bins[i]).bin != d)
        ==> forall|i: int| 0 <= i < bins.len() ==> bin_before(s, (#[trigger] bins[i]).bin as int, d)
}

proof fn lemma_distinct_bound(s: Seq<Hit>)
    ensures
        distinct_deltas(s) <= s.len(),
    decreases s.len(),
{
    if s.len() > 0 {
        lemma_distinct_bound(s.drop_last());
    }
}

/// The offset histogram of the filtered hits (the evidence histogram).
pub fn offset_top(hits: &Vec<Hit>) -> (bins: Vec<HistogramBin>)
    requires
        hits@.len() <= usize::MAX / 8,
    ensures
        histogram_of(hits@, bins@),
{
    broadcast use vstd::std_specs::hash::axiom_i64_obeys_hash_table_key_model;

    let ghost s = hits@;
    let mut table: Vec<(i64, usize, usize)> = Vec::new();
    let mut index: vstd::hash_map::HashMapWithView<i64, usize> = vstd::hash_map::HashMapWithView::new();
    let mut i: usize = 0;
    while i < hits.len()
        invariant
            s == hits@,
            i <= s.len() <= usize::MAX / 8,
            table@.len() <= i,
            tally_ok(s.subrange(0, i as int), table@),
            forall|x: i64| #[trigger] index@.contains_key(x) ==> index@[x] < table@.len() && table@[index@[x] as int].0 == x,
            forall|m: int| 0 <= m < table@.len() ==> index@.contains_key(#[trigger] table@[m].0),
        decreases s.len() - i,
    {
        let h = hits[i];
        let d = h.delta();
        let ghost p = s.subrange(0, i as int);
        proof {
            assert(s.subrange(0, i as int + 1) =~= p.push(h));
        }
        let found = match index.get(&d) {
            Some(k) => Some(*k),
            None => None,
        };
        proof {
            if found is None {
                assert forall|m: int| 0 <= m < table@.len() implies (#[trigger] table@[m]).0 != d by {
                    if table@[m].0 == d {
                        assert(index@.contains_key(table@[m].0));
                    }
                }
            }
        }
        match found {
            Some(k) => {
                let (dd, c, f) = table[k];
                let ghost before = table@;
                proof {
                    lemma_delta_count_bound(p, d as int);
                    lemma_tally_found(p, h, before, k as int);
                }
                table.set(k, (dd, c + 1, f));
                assert(table@ =~= before.update(k as int, (before[k as int].0, (before[k as int].1 + 1) as usize, before[k as int].2)));
                proof {
                    assert forall|m: int| 0 <= m < table@.len() implies index@.contains_key(#[trigger] table@[m].0) by {
                        assert(table@[m].0 == before[m].0);
                    }
                }
            },
            None => {
                proof {
                    lemma_tally_new(p, h, table@);
                }
                let position = table.len();
                let ghost before = table@;
                table.push((d, 1, i));
                index.insert(d, position);
                proof {
                    assert forall|m: int| 0 <= m < table@.len() implies index@.contains_key(#[trigger] table@[m].0) by {
                        if m < before.len() {
                            assert(table@[m] == before[m]);
                        }
                    }
                    assert forall|x: i64| #[trigger] index@.contains_key(x) implies index@[x] < table@.len()
                        && table@[index@[x] as int].0 == x by {
                        if x != d {
                            assert(table@[index@[x] as int] == before[index@[x] as int]);
                        }
                    }
                }
            },
        }
        i = i + 1;
    }
    assert(s.subrange(0, s.len() as int) =~= s);
    let mut ranked: Vec<(usize, i64)> = Vec::new();
    let mut k: usize = 0;
    while k < table.len()
        invariant
            tally_ok(s, table@),
            k <= table@.len(),
            ranked@.len() == k,
            forall|m: int| 0 <= m < k ==> #[trigger] ranked@[m] == ((usize::MAX - table@[m].1) as usize, table@[m].0),
        decreases table@.len() - k,
    {
        let (d, c, _) = table[k];
        ranked.push((usize::MAX - c, d));
        k = k + 1;
    }
    let ghost original = ranked@;
    proof {
        assert(original.no_duplicates()) by {
            assert forall|a: int, b: int| 0 <= a < original.len() && 0 <= b < original.len() && a != b implies original[a] != original[b] by {
                if a < b {
                    assert(table@[a].0 != table@[b].0);
                } else {
                    assert(table@[b].0 != table@[a].0);
                }
            }
        }
        original.lemma_multiset_has_no_duplicates();
    }
    crate::sorting::sort_rank_pairs(&mut ranked);
    proof {
        ranked@.lemma_multiset_has_no_duplicates_conv();
        vstd::seq_lib::to_multiset_len(ranked@);
        vstd::seq_lib::to_multiset_len(original);
        assert forall|m: int| 0 <= m < ranked@.len() implies exists|t: int| 0 <= t < table@.len()
            && #[trigger] ranked@[m] == ((usize::MAX - table@[t].1) as usize, table@[t].0) by {
            vstd::seq_lib::to_multiset_contains(ranked@, ranked@[m]);
            vstd::seq_lib::to_multiset_contains(original, ranked@[m]);
            assert(ranked@.contains(ranked@[m]));
            let t = choose|t: int| 0 <= t < original.len() && original[t] == ranked@[m];
        }
        assert forall|t: int| 0 <= t < table@.len() implies ranked@.contains(#[trigger] original[t]) by {
            vstd::seq_lib::to_multiset_contains(ranked@, original[t]);
            vstd::seq_lib::to_multiset_contains(original, original[t]);
        }
    }
    let limit = if ranked.len() < 10 { ranked.len() } else { 10 };
    let mut bins: Vec<HistogramBin> = Vec::new();
    let mut j: usize = 0;
    while j < limit
        invariant
            limit <= ranked@.len(),
            j <= limit,
            bins@.len() == j,
            forall|m: int| 0 <= m < j ==> (#[trigger] bins@[m]).bin == ranked@[m].1 && bins@[m].count == usize::MAX - ranked@[m].0,
        decreases limit - j,
    {
        let (r, d) = ranked[j];
        bins.push(HistogramBin { bin: d, count: usize::MAX - r });
        j = j + 1;
    }
    proof {
        assert forall|m: int| 0 <= m < bins@.len() implies first_with(s, (#[trigger] bins@[m]).bin as int) >= 0
            && bins@[m].count == delta_count(s, bins@[m].bin as int) by {
            let t = choose|t: int| 0 <= t < table@.len() && #[trigger] ranked@[m] == ((usize::MAX - table@[t].1) as usize, table@[t].0);
        }
        assert forall|a: int, b: int| 0 <= a < b < bins@.len() implies bin_before(s, (#[trigger] bins@[a]).bin as int, (#[trigger] bins@[b]).bin as int) by {
            assert(crate::sorting::rank_pair_le(ranked@[a], ranked@[b]));
            assert(ranked@[a] != ranked@[b]);
            let ta = choose|t: int| 0 <= t < table@.len() && #[trigger] ranked@[a] == ((usize::MAX - table@[t].1) as usize, table@[t].0);
            let tb = choose|t: int| 0 <= t < table@.len() && #[trigger] ranked@[b] == ((usize::MAX - table@[t].1) as usize, table@[t].0);
        }
        assert forall|d: int| first_with(s, d) >= 0 && (forall|i: int| 0 <= i < bins@.len() ==> (#[trigger] bins@[i]).bin != d)
            implies forall|i: int| 0 <= i < bins@.len() ==> bin_before(s, (#[trigger] bins@[i]).bin as int, d) by {
            let t = choose|t: int| 0 <= t < table@.len() && (#[trigger] table@[t]).0 == d;
            assert(ranked@.contains(original[t]));
            let pos = choose|pos: int| 0 <= pos < ranked@.len() && ranked@[pos] == original[t];
            if pos < limit {
                assert(bins@[pos].bin == d);
            }
            assert forall|i: int| 0 <= i < bins@.len() implies bin_before(s, (#[trigger] bins@[i]).bin as int, d) by {
                assert(crate::sorting::rank_pair_le(ranked@[i], ranked@[pos]));
                assert(ranked@[i] != ranked@[pos]);
                let ti = choose|x: int| 0 <= x < table@.len() && #[trigger] ranked@[i] == ((usize::MAX - table@[x].1) as usize, table@[x].0);
            }
        }
    }
    bins
}

// ---------------------------------------------------------------------------------------
// The integer half of a match
// ---------------------------------------------------------------------------------------

/// A match needs probe prints and a positive row limit.
pub fn check_match_request(prints: &Vec<Fingerprint>, k: usize) -> (r: Result<(), Error>)
    ensures
        r is Ok <==> prints@.len() > 0 && k > 0,
        prints@.len() == 0 ==> (r matches Err(Error::BadRequest(m)) && m@ == "probe prints must not be empty"@),
        prints@.len() > 0 && k == 0 ==> (r matches Err(Error::BadRequest(m)) && m@ == "k must be greater than zero"@),
{
    if prints.len() == 0 {
        return Err(Error::BadRequest(literal("probe prints must not be empty")));
    }
    if k == 0 {
        return Err(Error::BadRequest(literal("k must be greater than zero")));
    }
    Ok(())
}

/// The resources a probe votes for with at least `MIN_HITS_UNFILTERED` hits, each with its
/// hits in vote order (a match up to the line fit, which is the caller's).
pub fn candidates(store: &Store, prints: &Vec<Fingerprint>, k: usize, only: Option<u32>) -> (r: Result<Vec<(u32, Vec<Hit>)>, Error>)
    requires
        prints@.len() <= usize::MAX / 8,
        k > 0 && (exists|i: int| 0 <= i < prints@.len() && (#[trigger] prints@[i]).hash <= MAX_HASH) ==> only_in_shards(
            *store,
            only,
        ),
    ensures
        prints@.len() == 0 ==> (r matches Err(Error::BadRequest(m)) && m@ == "probe prints must not be empty"@),
        prints@.len() > 0 && k == 0 ==> (r matches Err(Error::BadRequest(m)) && m@ == "k must be greater than zero"@),
        prints@.len() > 0 && k > 0 && r is Err ==> (r matches Err(e) && lookup_error(e) && exists|i: int|
            0 <= i < prints@.len() && lookup_fails(*store, (#[trigger] prints@[i]).hash, only, e)),
        r matches Ok(c) ==> prints@.len() > 0 && k > 0 && exists|probe: ProbeSet, votes: Seq<(u32, Hit)>, groups: Seq<(u32, Vec<Hit>)>|
            #![trigger grouped(votes, groups), probe_of(prints@, probe)]
            probe_of(prints@, probe) && (exists|found: Seq<Seq<StoredHit>>, order: Seq<usize>| #![trigger walk_order(probe, found, order)]
                found.len() == probe.hashes@.len()
                && (forall|j: int| 0 <= j < found.len() ==> answers(*store, probe.hashes@[j], only, #[trigger] found[j]))
                && walk_order(probe, found, order) && votes == expand_all(probe, found, order, only))
            && grouped(votes, groups) && c@ == groups.filter(|g: (u32, Vec<Hit>)| g.1@.len() >= MIN_HITS_UNFILTERED),
        r matches Err(e) ==> e is BadRequest || e is InvalidStore,
{
    match check_match_request(prints, k) {
        Ok(()) => {},
        Err(e) => return Err(e),
    }
    let probe = probe_set(prints);
    proof {
        if exists|j: int| 0 <= j < probe.hashes@.len() && #[trigger] probe.hashes@[j] <= MAX_HASH {
            let j = choose|j: int| 0 <= j < probe.hashes@.len() && #[trigger] probe.hashes@[j] <= MAX_HASH;
            let h = probe.hashes@[j];
            lemma_first_hash(prints@, h);
            let i = first_hash(prints@, h);
            assert(prints@[i].hash <= MAX_HASH);
        }
    }
    let votes = match collect_votes(store, prints, &probe, only) {
        Ok(v) => v,
        Err(e) => {
            proof {
                let j = choose|j: int| 0 <= j < probe.hashes@.len() && lookup_fails(
                    *store,
                    #[trigger] probe.hashes@[j],
                    only,
                    e,
                );
                let h = probe.hashes@[j];
                lemma_first_hash(prints@, h);
                let i = first_hash(prints@, h);
                assert(prints@[i].hash == h);
                assert(lookup_fails(*store, prints@[i].hash, only, e));
            }
            return Err(e);
        },
    };
    let groups = group_by_resource(&votes);
    let ghost all = groups@;
    let total = groups.len();
    let mut kept: Vec<(u32, Vec<Hit>)> = Vec::new();
    let mut i: usize = 0;
    for g in it: groups.into_iter()
        invariant
            i == it.index(),
            it.seq() == all,
            all.len() == total,
            kept@ == all.subrange(0, i as int).filter(|g: (u32, Vec<Hit>)| g.1@.len() >= MIN_HITS_UNFILTERED),
    {
        proof {
            reveal(Seq::filter);
            assert(all.subrange(0, i as int + 1).drop_last() =~= all.subrange(0, i as int));
        }
        if g.1.len() >= 10 {
            kept.push(g);
        }
        i = i + 1;
    }
    assert(all.subrange(0, all.len() as int) =~= all);
    let result: Result<Vec<(u32, Vec<Hit>)>, Error> = Ok(kept);
    assert(result matches Ok(c) ==> exists|probe: ProbeSet, votes: Seq<(u32, Hit)>, groups: Seq<(u32, Vec<Hit>)>|
        #![trigger grouped(votes, groups), probe_of(prints@, probe)]
        probe_of(prints@, probe) && (exists|found: Seq<Seq<StoredHit>>, order: Seq<usize>| #![trigger walk_order(probe, found, order)]
            found.len() == probe.hashes@.len()
            && (forall|j: int| 0 <= j < found.len() ==> answers(*store, probe.hashes@[j], only, #[trigger] found[j]))
            && walk_order(probe, found, order) && votes == expand_all(probe, found, order, only))
        && grouped(votes, groups) && c@ == groups.filter(|g: (u32, Vec<Hit>)| g.1@.len() >= MIN_HITS_UNFILTERED)) by {
        assert(grouped(votes@, all) && probe_of(prints@, probe));
    }
    result
}

} // verus!

//! Comparisons of two stores' answers and of two extraction paths: score deltas, question
//! verdicts, rankings by score and name, and stream agreement.
use vstd::prelude::*;

use crate::fingerprint::Fingerprint;
use crate::sorting::text_le;

verus! {

/// `b - a`, clamped to the `i64` range.
pub open spec fn spec_signed_delta(a: nat, b: nat) -> int {
    if b >= a {
        if b - a > i64::MAX { i64::MAX as int } else { b - a }
    } else {
        if a - b > i64::MAX { -(i64::MAX as int) } else { b - a }
    }
}

/// The signed score change from A to B.
pub fn signed_delta(a: usize, b: usize) -> (d: i64)
    ensures
        d == spec_signed_delta(a as nat, b as nat),
{
    if b >= a {
        let diff = b - a;
        if diff as u64 > 0x7fff_ffff_ffff_ffff { i64::MAX } else { diff as i64 }
    } else {
        let diff = a - b;
        if diff as u64 > 0x7fff_ffff_ffff_ffff { -i64::MAX } else { -(diff as i64) }
    }
}

/// One reference of a question compared across the two stores: its score on each side
/// where present, and, when present on both, whether the query and reference spans are
/// disjoint (overlap exactly zero) or overlap (overlap above zero).
#[derive(Clone, Copy, Debug, PartialEq, Eq, Structural)]
pub struct RowFacts {
    pub score_a: Option<usize>,
    pub score_b: Option<usize>,
    pub q_disjoint: bool,
    pub ref_disjoint: bool,
    pub q_overlaps: bool,
    pub ref_overlaps: bool,
}

pub open spec fn abs_int(x: int) -> nat {
    if x >= 0 { x as nat } else { (-x) as nat }
}

/// How much one compared reference weighs in a question's severity: its absolute score
/// delta plus 100000 per disjoint span when on both sides, 1000000 when on one side.
pub open spec fn row_weight(r: RowFacts) -> nat {
    match (r.score_a, r.score_b) {
        (Some(a), Some(b)) => abs_int(spec_signed_delta(a as nat, b as nat)) + (if r.q_disjoint { 100000nat } else { 0nat })
            + (if r.ref_disjoint { 100000nat } else { 0nat }),
        _ => 1000000,
    }
}

pub open spec fn rows_weight(rows: Seq<RowFacts>) -> nat
    decreases rows.len(),
{
    if rows.len() == 0 {
        0
    } else {
        rows_weight(rows.drop_last()) + row_weight(rows.last())
    }
}

/// A compared reference agrees: present on both sides, both spans overlap, and the score
/// moved by at most `max`.
pub open spec fn row_agrees(r: RowFacts, max: nat) -> bool {
    &&& r.score_a is Some && r.score_b is Some
    &&& r.q_overlaps && r.ref_overlaps
    &&& abs_int(spec_signed_delta(r.score_a->Some_0 as nat, r.score_b->Some_0 as nat)) <= max
}

fn unsigned_abs(d: i64) -> (r: u64)
    ensures
        r == abs_int(d as int),
{
    if d >= 0 { d as u64 } else { (-(d as i128)) as u64 }
}

/// A question's verdict (the decisions of `compare_question`): it agrees when neither side
/// failed, both found the same references and every reference agrees; its severity is the
/// rows' weight plus 10000000 when a side failed, saturating at `u64::MAX`.
pub fn question_verdict(rows: &Vec<RowFacts>, errored: bool, same_references: bool, max_score_delta: usize) -> (v: (bool, u64))
    ensures
        v.0 == (!errored && same_references && forall|i: int| 0 <= i < rows@.len() ==> row_agrees(#[trigger] rows@[i], max_score_delta as nat)),
        v.1 == ({
            let total = rows_weight(rows@) + if errored { 10000000nat } else { 0nat };
            if total > u64::MAX { u64::MAX as nat } else { total }
        }),
{
    let mut severity: u64 = 0;
    let mut all_agree = true;
    let mut i: usize = 0;
    while i < rows.len()
        invariant
            i <= rows@.len(),
            severity == (if rows_weight(rows@.subrange(0, i as int)) > u64::MAX { u64::MAX as nat } else { rows_weight(rows@.subrange(0, i as int)) }),
            all_agree == forall|j: int| 0 <= j < i ==> row_agrees(#[trigger] rows@[j], max_score_delta as nat),
        decreases rows@.len() - i,
    {
        let r = rows[i];
        proof {
            assert(rows@.subrange(0, i as int + 1).drop_last() =~= rows@.subrange(0, i as int));
        }
        match (r.score_a, r.score_b) {
            (Some(a), Some(b)) => {
                let delta = unsigned_abs(signed_delta(a, b));
                severity = severity.saturating_add(delta);
                if r.q_disjoint {
                    severity = severity.saturating_add(100000);
                }
                if r.ref_disjoint {
                    severity = severity.saturating_add(100000);
                }
                if !(r.q_overlaps && r.ref_overlaps && delta <= max_score_delta as u64) {
                    all_agree = false;
                }
            },
            _ => {
                severity = severity.saturating_add(1000000);
                all_agree = false;
            },
        }
        i = i + 1;
    }
    assert(rows@.subrange(0, rows@.len() as int) =~= rows@);
    if errored {
        severity = severity.saturating_add(10000000);
    }
    (!errored && same_references && all_agree, severity)
}

/// Entry `a` (score, name, position) ranks before entry `b`: a higher score, then the name
/// first in byte order, then the earlier position.
pub open spec fn ranks_before(a: (u64, Seq<char>, int), b: (u64, Seq<char>, int)) -> bool {
    ||| a.0 > b.0
    ||| a.0 == b.0 && a.1 != b.1 && text_le(a.1, b.1)
    ||| a.0 == b.0 && a.1 == b.1 && a.2 < b.2
}

pub open spec fn entry_of(entries: Seq<(u64, String)>, i: int) -> (u64, Seq<char>, int) {
    (entries[i].0, entries[i].1@, i)
}

/// `order` lists the positions of the `limit` (or fewer) leading entries, best first.
pub open spec fn ranked(entries: Seq<(u64, String)>, limit: nat, order: Seq<usize>) -> bool {
    &&& order.len() == if entries.len() < limit { entries.len() } else { limit }
    &&& forall|k: int| 0 <= k < order.len() ==> #[trigger] order[k] < entries.len()
    &&& forall|a: int, b: int| 0 <= a < b < order.len() ==> ranks_before(
        entry_of(entries, #[trigger] order[a] as int),
        entry_of(entries, #[trigger] order[b] as int),
    )
    &&& forall|i: int, k: int|
        #![trigger entry_of(entries, i), order[k]]
        0 <= i < entries.len() && 0 <= k < order.len() && !order.contains(i as usize)
            ==> ranks_before(entry_of(entries, order[k] as int), entry_of(entries, i))
}

/// The positions of the leading entries by score, then name (the ranking of crosscheck
/// matches and of A/B divergences).
pub fn rank_entries(entries: &Vec<(u64, String)>, limit: usize) -> (order: Vec<usize>)
    ensures
        ranked(entries@, limit as nat, order@),
{
    let n = entries.len();
    let mut keyed: Vec<(u64, String, usize)> = Vec::new();
    let mut i: usize = 0;
    while i < n
        invariant
            i <= n == entries@.len(),
            keyed@.len() == i,
            forall|k: int| 0 <= k < i ==> (#[trigger] keyed@[k]).0 == u64::MAX - entries@[k].0 && keyed@[k].1 == entries@[k].1
                && keyed@[k].2 == k,
        decreases n - i,
    {
        keyed.push((u64::MAX - entries[i].0, entries[i].1.clone(), i));
        i = i + 1;
    }
    let ghost unsorted = keyed@;
    proof {
        assert(unsorted.no_duplicates()) by {
            assert forall|a: int, b: int| 0 <= a < unsorted.len() && 0 <= b < unsorted.len() && a != b implies unsorted[a] != unsorted[b] by {
                assert(unsorted[a].2 == a && unsorted[b].2 == b);
            }
        }
        unsorted.lemma_multiset_has_no_duplicates();
    }
    crate::sorting::sort_ranked(&mut keyed);
    proof {
        keyed@.lemma_multiset_has_no_duplicates_conv();
        vstd::seq_lib::to_multiset_len(keyed@);
        vstd::seq_lib::to_multiset_len(unsorted);
        assert forall|m: int| 0 <= m < keyed@.len() implies (#[trigger] keyed@[m]).2 < n && keyed@[m] == unsorted[keyed@[m].2 as int] by {
            vstd::seq_lib::to_multiset_contains(keyed@, keyed@[m]);
            vstd::seq_lib::to_multiset_contains(unsorted, keyed@[m]);
            assert(keyed@.contains(keyed@[m]));
            let t = choose|t: int| 0 <= t < unsorted.len() && unsorted[t] == keyed@[m];
        }
        assert forall|t: int| 0 <= t < n implies keyed@.contains(#[trigger] unsorted[t]) by {
            vstd::seq_lib::to_multiset_contains(keyed@, unsorted[t]);
            vstd::seq_lib::to_multiset_contains(unsorted, unsorted[t]);
        }
    }
    let take = if n < limit { n } else { limit };
    let mut order: Vec<usize> = Vec::new();
    let mut j: usize = 0;
    while j < take
        invariant
            take <= keyed@.len(),
            j <= take,
            order@.len() == j,
            forall|m: int| 0 <= m < j ==> #[trigger] order@[m] == keyed@[m].2,
        decreases take - j,
    {
        order.push(keyed[j].2);
        j = j + 1;
    }
    proof {
        assert forall|a: int, b: int| 0 <= a < b < order@.len() implies ranks_before(
            entry_of(entries@, #[trigger] order@[a] as int),
            entry_of(entries@, #[trigger] order@[b] as int),
        ) by {
            assert(crate::sorting::ranked_le(keyed@[a], keyed@[b]));
            assert(keyed@[a] != keyed@[b]);
            assert(keyed@[a] == unsorted[keyed@[a].2 as int]);
            assert(keyed@[b] == unsorted[keyed@[b].2 as int]);
        }
        assert forall|i: int, k: int|
            #![trigger entry_of(entries@, i), order@[k]]
            0 <= i < entries@.len() && 0 <= k < order@.len() && !order@.contains(i as usize)
            implies ranks_before(entry_of(entries@, order@[k] as int), entry_of(entries@, i)) by {
            assert(keyed@.contains(unsorted[i]));
            let pos = choose|pos: int| 0 <= pos < keyed@.len() && keyed@[pos] == unsorted[i];
            if pos < take {
                assert(order@[pos] == i);
                assert(order@.contains(i as usize));
            }
            assert(crate::sorting::ranked_le(keyed@[k], keyed@[pos]));
            assert(keyed@[k] != keyed@[pos]);
            assert(keyed@[k] == unsorted[keyed@[k].2 as int]);
        }
    }
    order
}

/// Row `a` (score, reference key, query bin, reference bin, position) comes before row `b`
/// in a match answer: a higher score, then the key first in byte order, then the earlier
/// query start, then the earlier reference start, then the earlier position.
pub open spec fn row_before(a: (u64, Seq<char>, u32, u32, int), b: (u64, Seq<char>, u32, u32, int)) -> bool {
    ||| a.0 > b.0
    ||| a.0 == b.0 && a.1 != b.1 && text_le(a.1, b.1)
    ||| a.0 == b.0 && a.1 == b.1 && (a.2 < b.2 || (a.2 == b.2 && (a.3 < b.3 || (a.3 == b.3 && a.4 < b.4))))
}

pub open spec fn row_of(rows: Seq<(u64, String, u32, u32)>, i: int) -> (u64, Seq<char>, u32, u32, int) {
    (rows[i].0, rows[i].1@, rows[i].2, rows[i].3, i)
}

/// `order` lists the positions of the `limit` (or fewer) leading rows, first first.
pub open spec fn rows_ranked(rows: Seq<(u64, String, u32, u32)>, limit: nat, order: Seq<usize>) -> bool {
    &&& order.len() == if rows.len() < limit { rows.len() } else { limit }
    &&& forall|k: int| 0 <= k < order.len() ==> #[trigger] order[k] < rows.len()
    &&& forall|a: int, b: int| 0 <= a < b < order.len() ==> row_before(
        row_of(rows, #[trigger] order[a] as int),
        row_of(rows, #[trigger] order[b] as int),
    )
    &&& forall|i: int, k: int|
        #![trigger row_of(rows, i), order[k]]
        0 <= i < rows.len() && 0 <= k < order.len() && !order.contains(i as usize)
            ==> row_before(row_of(rows, order[k] as int), row_of(rows, i))
}

/// The positions of the leading rows of a match answer, given each row's score, reference
/// key and start bins on both clocks (start times grow with their bins, so this is the order
/// by start seconds).
pub fn rank_rows(rows: &Vec<(u64, String, u32, u32)>, limit: usize) -> (order: Vec<usize>)
    ensures
        rows_ranked(rows@, limit as nat, order@),
{
    let n = rows.len();
    let mut keyed: Vec<(u64, String, u32, u32, usize)> = Vec::new();
    let mut i: usize = 0;
    while i < n
        invariant
            i <= n == rows@.len(),
            keyed@.len() == i,
            forall|k: int| 0 <= k < i ==> (#[trigger] keyed@[k]).0 == u64::MAX - rows@[k].0 && keyed@[k].1 == rows@[k].1
                && keyed@[k].2 == rows@[k].2 && keyed@[k].3 == rows@[k].3 && keyed@[k].4 == k,
        decreases n - i,
    {
        keyed.push((u64::MAX - rows[i].0, rows[i].1.clone(), rows[i].2, rows[i].3, i));
        i = i + 1;
    }
    let ghost unsorted = keyed@;
    proof {
        assert(unsorted.no_duplicates()) by {
            assert forall|a: int, b: int| 0 <= a < unsorted.len() && 0 <= b < unsorted.len() && a != b implies unsorted[a] != unsorted[b] by {
                assert(unsorted[a].4 == a && unsorted[b].4 == b);
            }
        }
        unsorted.lemma_multiset_has_no_duplicates();
    }
    crate::sorting::sort_row_keys(&mut keyed);
    proof {
        keyed@.lemma_multiset_has_no_duplicates_conv();
        vstd::seq_lib::to_multiset_len(keyed@);
        vstd::seq_lib::to_multiset_len(unsorted);
        assert forall|m: int| 0 <= m < keyed@.len() implies (#[trigger] keyed@[m]).4 < n && keyed@[m] == unsorted[keyed@[m].4 as int] by {
            vstd::seq_lib::to_multiset_contains(keyed@, keyed@[m]);
            vstd::seq_lib::to_multiset_contains(unsorted, keyed@[m]);
            assert(keyed@.contains(keyed@[m]));
            let t = choose|t: int| 0 <= t < unsorted.len() && unsorted[t] == keyed@[m];
        }
        assert forall|t: int| 0 <= t < n implies keyed@.contains(#[trigger] unsorted[t]) by {
            vstd::seq_lib::to_multiset_contains(keyed@, unsorted[t]);
            vstd::seq_lib::to_multiset_contains(unsorted, unsorted[t]);
        }
    }
    let take = if n < limit { n } else { limit };
    let mut order: Vec<usize> = Vec::new();
    let mut j: usize = 0;
    while j < take
        invariant
            take <= keyed@.len(),
            j <= take,
            order@.len() == j,
            forall|m: int| 0 <= m < j ==> #[trigger] order@[m] == keyed@[m].4,
        decreases take - j,
    {
        order.push(keyed[j].4);
        j = j + 1;
    }
    proof {
        assert forall|a: int, b: int| 0 <= a < b < order@.len() implies row_before(
            row_of(rows@, #[trigger] order@[a] as int),
            row_of(rows@, #[trigger] order@[b] as int),
        ) by {
            assert(crate::sorting::row_key_le(keyed@[a], keyed@[b]));
            assert(keyed@[a] != keyed@[b]);
            assert(keyed@[a] == unsorted[keyed@[a].4 as int]);
            assert(keyed@[b] == unsorted[keyed@[b].4 as int]);
        }
        assert forall|i: int, k: int|
            #![trigger row_of(rows@, i), order@[k]]
            0 <= i < rows@.len() && 0 <= k < order@.len() && !order@.contains(i as usize)
            implies row_before(row_of(rows@, order@[k] as int), row_of(rows@, i)) by {
            assert(keyed@.contains(unsorted[i]));
            let pos = choose|pos: int| 0 <= pos < keyed@.len() && keyed@[pos] == unsorted[i];
            if pos < take {
                assert(order@[pos] == i);
                assert(order@.contains(i as usize));
            }
            assert(crate::sorting::row_key_le(keyed@[k], keyed@[pos]));
            assert(keyed@[k] != keyed@[pos]);
            assert(keyed@[k] == unsorted[keyed@[k].4 as int]);
        }
    }
    order
}

/// How many of `flags` are set.
pub open spec fn set_count(flags: Seq<bool>) -> nat
    decreases flags.len(),
{
    if flags.len() == 0 {
        0
    } else {
        set_count(flags.drop_last()) + if flags.last() { 1nat } else { 0nat }
    }
}

/// How many of `flags` are set (agreed questions, questions with the same references).
pub fn count_set(flags: &Vec<bool>) -> (n: usize)
    ensures
        n == set_count(flags@),
{
    let mut n: usize = 0;
    let mut i: usize = 0;
    while i < flags.len()
        invariant
            i <= flags@.len(),
            n == set_count(flags@.subrange(0, i as int)),
            n <= i,
        decreases flags@.len() - i,
    {
        proof {
            assert(flags@.subrange(0, i as int + 1).drop_last() =~= flags@.subrange(0, i as int));
        }
        if flags[i] {
            n = n + 1;
        }
        i = i + 1;
    }
    assert(flags@.subrange(0, flags@.len() as int) =~= flags@);
    n
}

/// How whole-file and streamed extraction of one file compare.
#[derive(Clone, Copy, Debug, PartialEq, Eq, Structural)]
pub enum StreamCheck {
    DurationDiffers,
    PrintsDiffer,
    Agree(usize),
}

/// Whole-file and streamed extraction must give the same duration, bit for bit, and the
/// same prints after both extractions; on agreement, the print count.
pub fn compare_streams(whole_duration_bits: u64, whole: &Vec<Fingerprint>, stream_duration_bits: u64, streamed: &Vec<Fingerprint>) -> (c: StreamCheck)
    ensures
        whole_duration_bits != stream_duration_bits ==> c == StreamCheck::DurationDiffers,
        whole_duration_bits == stream_duration_bits && whole@ != streamed@ ==> c == StreamCheck::PrintsDiffer,
        whole_duration_bits == stream_duration_bits && whole@ == streamed@ ==> c == StreamCheck::Agree(streamed@.len() as usize),
{
    if whole_duration_bits != stream_duration_bits {
        return StreamCheck::DurationDiffers;
    }
    if whole.len() != streamed.len() {
        return StreamCheck::PrintsDiffer;
    }
    let mut i: usize = 0;
    while i < whole.len()
        invariant
            i <= whole@.len() == streamed@.len(),
            whole_duration_bits == stream_duration_bits,
            forall|j: int| 0 <= j < i ==> whole@[j] == streamed@[j],
        decreases whole@.len() - i,
    {
        if whole[i] != streamed[i] {
            return StreamCheck::PrintsDiffer;
        }
        i = i + 1;
    }
    assert(whole@ =~= streamed@);
    StreamCheck::Agree(streamed.len())
}

} // verus!

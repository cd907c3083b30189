//! Orderings used by the store and the matcher, with the std sorts that establish them.
use vstd::prelude::*;
use vstd::utf8::*;

use crate::dump::DumpResource;
use crate::fingerprint::Fingerprint;
use crate::shard::{inverted_key_le, inverted_ordered, FullPosting};
use crate::store::ResourceInfo;

verus! {

/// Canonical print order: time, then hash, then frequency.
pub open spec fn canonical_le(a: Fingerprint, b: Fingerprint) -> bool {
    a.t < b.t || (a.t == b.t && (a.hash < b.hash || (a.hash == b.hash && a.f <= b.f)))
}

pub open spec fn canonical_ordered(s: Seq<Fingerprint>) -> bool {
    forall|i: int, j: int| 0 <= i < j < s.len() ==> canonical_le(#[trigger] s[i], #[trigger] s[j])
}

/// The canonical sort key of a print.
pub fn canonical_key(p: &Fingerprint) -> (k: (u32, u64, u16))
    ensures
        k == (p.t, p.hash, p.f),
{
    (p.t, p.hash, p.f)
}

/// Sorts prints canonically, through `slice::sort_by_key` on the integer tuple
/// `(t, hash, f)`, whose order std documents as lexicographic: the result is a permutation of
/// the input in canonical order.
#[verifier::external_body]
pub(crate) fn sort_canonical(v: &mut Vec<Fingerprint>)
    ensures
        final(v)@.to_multiset() == old(v)@.to_multiset(),
        canonical_ordered(final(v)@),
{
    v.sort_by_key(canonical_key)
}

/// The inverted sort key of a posting.
pub fn inverted_key(p: &FullPosting) -> (k: (u64, u32, u32, u16))
    ensures
        k == (p.hash, p.resource_id, p.t, p.f),
{
    (p.hash, p.resource_id, p.t, p.f)
}

/// Sorts postings by `(hash, resource, time, frequency)`, through `slice::sort_by_key` on that
/// integer tuple: the result is a permutation of the input in inverted order.
#[verifier::external_body]
pub(crate) fn sort_inverted(v: &mut Vec<FullPosting>)
    ensures
        final(v)@.to_multiset() == old(v)@.to_multiset(),
        inverted_ordered(final(v)@),
{
    v.sort_by_key(inverted_key)
}

/// Sorts `(key, position)` pairs lexicographically, through `slice::sort_unstable`; pairs are
/// distinct whenever positions are, so the order is fully determined.
#[verifier::external_body]
pub(crate) fn sort_pairs(v: &mut Vec<(u32, usize)>)
    ensures
        final(v)@.to_multiset() == old(v)@.to_multiset(),
        forall|i: int, j: int| 0 <= i < j < final(v)@.len() ==> pair_le(#[trigger] final(v)@[i], #[trigger] final(v)@[j]),
{
    v.sort_unstable()
}

/// Sorts `(hash, position)` pairs lexicographically, through `slice::sort_unstable`.
#[verifier::external_body]
pub(crate) fn sort_hash_pairs(v: &mut Vec<(u64, usize)>)
    ensures
        final(v)@.to_multiset() == old(v)@.to_multiset(),
        forall|i: int, j: int| 0 <= i < j < final(v)@.len() ==> hash_pair_le(#[trigger] final(v)@[i], #[trigger] final(v)@[j]),
{
    v.sort_unstable()
}

/// Sorts `(bucket, first occurrence, position)` triples lexicographically, through
/// `slice::sort_unstable`.
#[verifier::external_body]
pub(crate) fn sort_triples(v: &mut Vec<(usize, usize, usize)>)
    ensures
        final(v)@.to_multiset() == old(v)@.to_multiset(),
        forall|i: int, j: int| 0 <= i < j < final(v)@.len() ==> triple_le(#[trigger] final(v)@[i], #[trigger] final(v)@[j]),
{
    v.sort_unstable()
}

pub open spec fn triple_le(a: (usize, usize, usize), b: (usize, usize, usize)) -> bool {
    a.0 < b.0 || (a.0 == b.0 && (a.1 < b.1 || (a.1 == b.1 && a.2 <= b.2)))
}

/// Sorts `(rank, offset)` pairs lexicographically, through `slice::sort_unstable`.
#[verifier::external_body]
pub(crate) fn sort_rank_pairs(v: &mut Vec<(usize, i64)>)
    ensures
        final(v)@.to_multiset() == old(v)@.to_multiset(),
        forall|i: int, j: int| 0 <= i < j < final(v)@.len() ==> rank_pair_le(#[trigger] final(v)@[i], #[trigger] final(v)@[j]),
{
    v.sort_unstable()
}

pub open spec fn rank_pair_le(a: (usize, i64), b: (usize, i64)) -> bool {
    a.0 < b.0 || (a.0 == b.0 && a.1 <= b.1)
}

/// Sorts evidence-hit identities lexicographically, through `slice::sort_unstable`.
#[verifier::external_body]
pub(crate) fn sort_keys4(v: &mut Vec<(u32, u32, u64, u64)>)
    ensures
        final(v)@.to_multiset() == old(v)@.to_multiset(),
        forall|i: int, j: int| 0 <= i < j < final(v)@.len() ==> key4_le(#[trigger] final(v)@[i], #[trigger] final(v)@[j]),
{
    v.sort_unstable()
}

pub open spec fn key4_lt(a: (u32, u32, u64, u64), b: (u32, u32, u64, u64)) -> bool {
    a.0 < b.0 || (a.0 == b.0 && (a.1 < b.1 || (a.1 == b.1 && (a.2 < b.2 || (a.2 == b.2 && a.3 < b.3)))))
}

pub open spec fn key4_le(a: (u32, u32, u64, u64), b: (u32, u32, u64, u64)) -> bool {
    key4_lt(a, b) || a == b
}

pub open spec fn hash_pair_le(a: (u64, usize), b: (u64, usize)) -> bool {
    a.0 < b.0 || (a.0 == b.0 && a.1 <= b.1)
}

pub open spec fn pair_le(a: (u32, usize), b: (u32, usize)) -> bool {
    a.0 < b.0 || (a.0 == b.0 && a.1 <= b.1)
}

/// Lexicographic order of byte strings, which is how `str` orders text.
pub open spec fn bytes_le(a: Seq<u8>, b: Seq<u8>) -> bool
    decreases a.len(),
{
    if a.len() == 0 {
        true
    } else if b.len() == 0 {
        false
    } else if a[0] != b[0] {
        a[0] < b[0]
    } else {
        bytes_le(a.drop_first(), b.drop_first())
    }
}

pub open spec fn text_le(a: Seq<char>, b: Seq<char>) -> bool {
    bytes_le(encode_utf8(a), encode_utf8(b))
}

/// `(inverted score, name, position)` entries in tuple order: the smaller first field, then
/// the name first in byte order, then the smaller position.
pub open spec fn ranked_le(a: (u64, String, usize), b: (u64, String, usize)) -> bool {
    ||| a.0 < b.0
    ||| a.0 == b.0 && a.1@ != b.1@ && text_le(a.1@, b.1@)
    ||| a.0 == b.0 && a.1@ == b.1@ && a.2 <= b.2
}

/// `(inverted score, name, query bin, reference bin, position)` row keys in tuple order.
pub open spec fn row_key_le(a: (u64, String, u32, u32, usize), b: (u64, String, u32, u32, usize)) -> bool {
    ||| a.0 < b.0
    ||| a.0 == b.0 && a.1@ != b.1@ && text_le(a.1@, b.1@)
    ||| a.0 == b.0 && a.1@ == b.1@ && (a.2 < b.2 || (a.2 == b.2 && (a.3 < b.3 || (a.3 == b.3 && a.4 <= b.4))))
}

/// Sorts row keys through `slice::sort_unstable`, whose order for tuples std documents as
/// lexicographic, and for `String` as by bytes.
#[verifier::external_body]
pub(crate) fn sort_row_keys(v: &mut Vec<(u64, String, u32, u32, usize)>)
    ensures
        final(v)@.to_multiset() == old(v)@.to_multiset(),
        forall|i: int, j: int| 0 <= i < j < final(v)@.len() ==> row_key_le(#[trigger] final(v)@[i], #[trigger] final(v)@[j]),
{
    v.sort_unstable()
}

/// Sorts `(inverted score, name, position)` entries through `slice::sort_unstable`, whose
/// order for tuples std documents as lexicographic, and for `String` as by bytes.
#[verifier::external_body]
pub(crate) fn sort_ranked(v: &mut Vec<(u64, String, usize)>)
    ensures
        final(v)@.to_multiset() == old(v)@.to_multiset(),
        forall|i: int, j: int| 0 <= i < j < final(v)@.len() ==> ranked_le(#[trigger] final(v)@[i], #[trigger] final(v)@[j]),
{
    v.sort_unstable()
}

/// Sorts dump resources by key, through the stable `slice::sort_by` with `str`'s ordering,
/// which std documents as lexicographic by bytes.
#[verifier::external_body]
pub(crate) fn sort_by_key_text(v: &mut Vec<DumpResource>)
    ensures
        final(v)@.to_multiset() == old(v)@.to_multiset(),
        forall|i: int, j: int| 0 <= i < j < final(v)@.len() ==> text_le(#[trigger] final(v)@[i].meta.key@, #[trigger] final(v)@[j].meta.key@),
{
    v.sort_by(|a, b| a.meta.key.cmp(&b.meta.key))
}

/// Sorts strings through `slice::sort`, whose order for `String` std documents as
/// lexicographic by bytes.
#[verifier::external_body]
pub(crate) fn sort_texts(v: &mut Vec<String>)
    ensures
        final(v)@.to_multiset() == old(v)@.to_multiset(),
        forall|i: int, j: int| 0 <= i < j < final(v)@.len() ==> text_le(#[trigger] final(v)@[i]@, #[trigger] final(v)@[j]@),
{
    v.sort()
}

/// Sorts shard members by id, through `slice::sort_by_key` on the `u32` id.
#[verifier::external_body]
pub(crate) fn sort_members_by_id(v: &mut Vec<(u32, DumpResource)>)
    ensures
        final(v)@.to_multiset() == old(v)@.to_multiset(),
        forall|i: int, j: int| 0 <= i < j < final(v)@.len() ==> #[trigger] final(v)@[i].0 <= #[trigger] final(v)@[j].0,
{
    v.sort_by_key(|m| m.0)
}

/// Sorts resource entries by id, through `slice::sort_by_key` on the `u32` id.
#[verifier::external_body]
pub(crate) fn sort_infos_by_id(v: &mut Vec<ResourceInfo>)
    ensures
        final(v)@.to_multiset() == old(v)@.to_multiset(),
        forall|i: int, j: int| 0 <= i < j < final(v)@.len() ==> #[trigger] final(v)@[i].id <= #[trigger] final(v)@[j].id,
{
    v.sort_by_key(|r| r.id)
}

/// The canonical ordering of a multiset of prints.
pub open spec fn canonical_prints(p: Seq<Fingerprint>) -> Seq<Fingerprint> {
    choose|c: Seq<Fingerprint>| c.to_multiset() == p.to_multiset() && canonical_ordered(c)
}

/// Any canonically ordered permutation of `p` is `canonical_prints(p)`.
pub proof fn lemma_canonical_unique(p: Seq<Fingerprint>, c: Seq<Fingerprint>)
    requires
        c.to_multiset() == p.to_multiset(),
        canonical_ordered(c),
    ensures
        canonical_prints(p) == c,
{
    let leq = |a: Fingerprint, b: Fingerprint| canonical_le(a, b);
    let d = canonical_prints(p);
    assert(d.to_multiset() == p.to_multiset() && canonical_ordered(d));
    assert(vstd::relations::total_ordering(leq)) by {
        assert forall|a: Fingerprint, b: Fingerprint| #[trigger] leq(a, b) && #[trigger] leq(b, a) implies a == b by {}
    }
    assert(vstd::relations::sorted_by(c, leq));
    assert(vstd::relations::sorted_by(d, leq));
    vstd::seq_lib::lemma_sorted_unique(c, d, leq);
}

} // verus!

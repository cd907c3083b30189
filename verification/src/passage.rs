//! The integer and identity half of passages: the snapshot a passage result is taken in,
//! passage identities, and the de-duplication of evidence hits across overlapping regions.
use vstd::prelude::*;
use vstd::bytes::spec_u64_to_le_bytes;
use vstd::utf8::encode_utf8;

use crate::codec::{lemma_le_roundtrips, lemma_records, push_u64, records};
use crate::digest::{hex_lower, push_str_bytes, sha256, sha256_hex};
use crate::error::Error;
use crate::rebuild::{corrected_hash, profile_is_current};
use crate::store::{forward_refusal, key_index, Store};
use crate::text::{debug_quoted, join, literal};

verus! {

/// The profile that names passage output.
pub open spec fn spec_passage_profile() -> Seq<char> {
    "passage-v3"@
}

pub fn passage_profile() -> (s: &'static str)
    ensures
        s@ == spec_passage_profile(),
{
    "passage-v3"
}

/// What a passage result was computed against. The direction is a fact about the probe:
/// A was probed against B.
pub struct PassageSnapshot {
    pub profile: String,
    pub direction: String,
    pub config_id: String,
    pub a_generation: String,
    pub b_generation: String,
    pub a_key: String,
    pub a_content_hash: String,
}

/// The snapshot of a probe of `a_key` in `a_store` against `b_store`.
pub fn snapshot(a_store: &Store, b_store: &Store, a_key: &str) -> (r: Result<PassageSnapshot, Error>)
    requires
        !profile_is_current(a_store.spec_manifest()) ==> a_store.key_in_shards(a_key@),
    ensures
        ({
            let res = a_store.spec_manifest().resources@;
            let info = a_store.entry(a_key@);
            match r {
                Ok(s) => {
                    &&& s.profile@ == spec_passage_profile()
                    &&& s.direction@ == "a_to_b"@
                    &&& s.config_id@ == a_store.spec_manifest().config_id@
                    &&& s.a_generation@ == a_store.spec_manifest().generation@
                    &&& s.b_generation@ == b_store.spec_manifest().generation@
                    &&& s.a_key@ == a_key@
                    &&& key_index(res).contains_key(a_key@)
                    &&& if profile_is_current(a_store.spec_manifest()) {
                        s.a_content_hash == info.content_hash
                    } else {
                        a_store.readable(info) && s.a_content_hash@ == corrected_hash(*a_store, a_key@)
                    }
                },
                Err(e) => if !key_index(res).contains_key(a_key@) {
                    e matches Error::BadRequest(m) && m@ == "unknown resource key "@ + debug_quoted(a_key@)
                } else {
                    !profile_is_current(a_store.spec_manifest()) && !a_store.readable(info) && forward_refusal(a_key@, e)
                },
            }
        }),
{
    let a_stats = a_store.stats();
    let b_stats = b_store.stats();
    let a_content_hash = match a_store.fingerprint_content_hash(a_key) {
        Ok(h) => h,
        Err(e) => return Err(e),
    };
    Ok(PassageSnapshot {
        profile: literal(passage_profile()),
        direction: literal("a_to_b"),
        config_id: literal(a_store.config_id()),
        a_generation: a_stats.generation,
        b_generation: b_stats.generation,
        a_key: literal(a_key),
        a_content_hash,
    })
}

/// One support span of a passage as it enters the passage identity: the IEEE-754 bit
/// patterns of its four clock bounds and its hit count.
#[derive(Clone, Copy, Debug, PartialEq, Eq, Structural)]
pub struct SupportBits {
    pub a_start: u64,
    pub a_stop: u64,
    pub b_start: u64,
    pub b_stop: u64,
    pub hits: u64,
}

pub open spec fn support_record(s: SupportBits) -> Seq<u8> {
    spec_u64_to_le_bytes(s.a_start) + spec_u64_to_le_bytes(s.a_stop) + spec_u64_to_le_bytes(s.b_start)
        + spec_u64_to_le_bytes(s.b_stop) + spec_u64_to_le_bytes(s.hits)
}

/// A text field of the passage identity: its UTF-8 bytes and a zero terminator.
pub open spec fn field_record(s: Seq<char>) -> Seq<u8> {
    encode_utf8(s).push(0u8)
}

/// The bytes a passage identity digests.
pub open spec fn passage_message(
    config_id: Seq<char>,
    a_key: Seq<char>,
    a_hash: Seq<char>,
    b_key: Seq<char>,
    b_hash: Seq<char>,
    support: Seq<SupportBits>,
) -> Seq<u8> {
    field_record(spec_passage_profile()) + field_record(config_id) + field_record(a_key) + field_record(a_hash)
        + field_record(b_key) + field_record(b_hash) + records(support, |s: SupportBits| support_record(s))
}

/// How many bytes the six text fields of a passage identity take: each field's UTF-8 bytes
/// and a terminator.
pub open spec fn passage_head_len(config_id: Seq<char>, a_key: Seq<char>, a_hash: Seq<char>, b_key: Seq<char>, b_hash: Seq<char>) -> int {
    let total: nat = (encode_utf8(spec_passage_profile()).len() + 1) + (encode_utf8(config_id).len() + 1) + (
    encode_utf8(a_key).len() + 1) + (encode_utf8(a_hash).len() + 1) + (encode_utf8(b_key).len() + 1) + (encode_utf8(
        b_hash,
    ).len() + 1);
    total as int
}

proof fn lemma_support_record(x: SupportBits)
    ensures
        support_record(x).len() == 40,
        support_record(x).subrange(0, 8) == spec_u64_to_le_bytes(x.a_start),
        support_record(x).subrange(8, 16) == spec_u64_to_le_bytes(x.a_stop),
        support_record(x).subrange(16, 24) == spec_u64_to_le_bytes(x.b_start),
        support_record(x).subrange(24, 32) == spec_u64_to_le_bytes(x.b_stop),
        support_record(x).subrange(32, 40) == spec_u64_to_le_bytes(x.hits),
{
    lemma_le_roundtrips();
    let r = support_record(x);
    assert(r.subrange(0, 8) =~= spec_u64_to_le_bytes(x.a_start));
    assert(r.subrange(8, 16) =~= spec_u64_to_le_bytes(x.a_stop));
    assert(r.subrange(16, 24) =~= spec_u64_to_le_bytes(x.b_start));
    assert(r.subrange(24, 32) =~= spec_u64_to_le_bytes(x.b_stop));
    assert(r.subrange(32, 40) =~= spec_u64_to_le_bytes(x.hits));
}

/// The bytes a passage identity digests are its six text fields, each with a terminator,
/// then one 40-byte record per support span, in order: the little-endian start and stop on
/// both clocks and the hit count.
pub proof fn lemma_passage_message_layout(
    config_id: Seq<char>,
    a_key: Seq<char>,
    a_hash: Seq<char>,
    b_key: Seq<char>,
    b_hash: Seq<char>,
    support: Seq<SupportBits>,
)
    ensures
        ({
            let msg = passage_message(config_id, a_key, a_hash, b_key, b_hash, support);
            let h = passage_head_len(config_id, a_key, a_hash, b_key, b_hash);
            &&& msg.len() == h + 40 * support.len()
            &&& msg.subrange(0, h) == encode_utf8(spec_passage_profile()).push(0u8) + encode_utf8(config_id).push(0u8)
                + encode_utf8(a_key).push(0u8) + encode_utf8(a_hash).push(0u8) + encode_utf8(b_key).push(0u8)
                + encode_utf8(b_hash).push(0u8)
            &&& forall|k: int| 0 <= k < support.len() ==> #[trigger] msg.subrange(h + 40 * k, h + 40 * k + 40)
                == spec_u64_to_le_bytes(support[k].a_start) + spec_u64_to_le_bytes(support[k].a_stop)
                + spec_u64_to_le_bytes(support[k].b_start) + spec_u64_to_le_bytes(support[k].b_stop)
                + spec_u64_to_le_bytes(support[k].hits)
        }),
{
    let msg = passage_message(config_id, a_key, a_hash, b_key, b_hash, support);
    let h = passage_head_len(config_id, a_key, a_hash, b_key, b_hash);
    let head = field_record(spec_passage_profile()) + field_record(config_id) + field_record(a_key) + field_record(a_hash)
        + field_record(b_key) + field_record(b_hash);
    let enc = |s: SupportBits| support_record(s);
    let rec = records(support, enc);
    assert forall|x: SupportBits| #[trigger] enc(x).len() == 40 by {
        lemma_support_record(x);
    }
    lemma_records(support, enc, 40, 0);
    assert(head.len() == h);
    assert(msg == head + rec);
    assert(msg.subrange(0, h) =~= head);
    assert forall|k: int| 0 <= k < support.len() implies #[trigger] msg.subrange(h + 40 * k, h + 40 * k + 40)
        == spec_u64_to_le_bytes(support[k].a_start) + spec_u64_to_le_bytes(support[k].a_stop)
        + spec_u64_to_le_bytes(support[k].b_start) + spec_u64_to_le_bytes(support[k].b_stop)
        + spec_u64_to_le_bytes(support[k].hits) by {
        lemma_records(support, enc, 40, k);
        assert(40 * k + 40 <= 40 * support.len());
        assert(msg.subrange(h + 40 * k, h + 40 * k + 40) =~= rec.subrange(40 * k, 40 * k + 40));
    }
}

/// Passages that differ in their support, with the same text fields, digest different
/// bytes: a span added, dropped or changed anywhere changes the message.
pub proof fn lemma_passage_message_tells_support_apart(
    config_id: Seq<char>,
    a_key: Seq<char>,
    a_hash: Seq<char>,
    b_key: Seq<char>,
    b_hash: Seq<char>,
    support: Seq<SupportBits>,
    other: Seq<SupportBits>,
)
    requires
        support != other,
    ensures
        passage_message(config_id, a_key, a_hash, b_key, b_hash, support) != passage_message(
            config_id,
            a_key,
            a_hash,
            b_key,
            b_hash,
            other,
        ),
{
    let m1 = passage_message(config_id, a_key, a_hash, b_key, b_hash, support);
    let m2 = passage_message(config_id, a_key, a_hash, b_key, b_hash, other);
    let h = passage_head_len(config_id, a_key, a_hash, b_key, b_hash);
    lemma_passage_message_layout(config_id, a_key, a_hash, b_key, b_hash, support);
    lemma_passage_message_layout(config_id, a_key, a_hash, b_key, b_hash, other);
    if support.len() == other.len() && m1 == m2 {
        assert(exists|k: int| 0 <= k < support.len() && support[k] != other[k]) by {
            if forall|k: int| 0 <= k < support.len() ==> support[k] == other[k] {
                assert(support =~= other);
            }
        }
        let k = choose|k: int| 0 <= k < support.len() && support[k] != other[k];
        let r1 = m1.subrange(h + 40 * k, h + 40 * k + 40);
        let r2 = m2.subrange(h + 40 * k, h + 40 * k + 40);
        assert(r1 == r2);
        let x = support[k];
        let y = other[k];
        lemma_le_roundtrips();
        assert(r1.subrange(0, 8) =~= spec_u64_to_le_bytes(x.a_start));
        assert(r2.subrange(0, 8) =~= spec_u64_to_le_bytes(y.a_start));
        assert(r1.subrange(8, 16) =~= spec_u64_to_le_bytes(x.a_stop));
        assert(r2.subrange(8, 16) =~= spec_u64_to_le_bytes(y.a_stop));
        assert(r1.subrange(16, 24) =~= spec_u64_to_le_bytes(x.b_start));
        assert(r2.subrange(16, 24) =~= spec_u64_to_le_bytes(y.b_start));
        assert(r1.subrange(24, 32) =~= spec_u64_to_le_bytes(x.b_stop));
        assert(r2.subrange(24, 32) =~= spec_u64_to_le_bytes(y.b_stop));
        assert(r1.subrange(32, 40) =~= spec_u64_to_le_bytes(x.hits));
        assert(r2.subrange(32, 40) =~= spec_u64_to_le_bytes(y.hits));
        assert(x == y);
    }
}

fn push_field(out: &mut Vec<u8>, s: &str)
    ensures
        final(out)@ == old(out)@ + field_record(s@),
{
    push_str_bytes(out, s);
    out.push(0);
}

/// A passage's identity: `psg_` and the hex SHA-256 of the profile, the
/// configuration, both endpoints' keys and content hashes, and its support spans. Nothing
/// else enters it, so diagnostic payloads cannot change it.
pub fn passage_id(a_key: &str, a_hash: &str, b_key: &str, b_hash: &str, config_id: &str, support: &Vec<SupportBits>) -> (id: String)
    ensures
        id@ == "psg_"@ + hex_lower(sha256(passage_message(config_id@, a_key@, a_hash@, b_key@, b_hash@, support@))),
{
    let mut bytes: Vec<u8> = Vec::new();
    push_field(&mut bytes, passage_profile());
    push_field(&mut bytes, config_id);
    push_field(&mut bytes, a_key);
    push_field(&mut bytes, a_hash);
    push_field(&mut bytes, b_key);
    push_field(&mut bytes, b_hash);
    let ghost head = bytes@;
    let mut i: usize = 0;
    while i < support.len()
        invariant
            i <= support@.len(),
            bytes@ == head + records(support@.subrange(0, i as int), |s: SupportBits| support_record(s)),
        decreases support@.len() - i,
    {
        let s = support[i];
        let ghost before = bytes@;
        push_u64(&mut bytes, s.a_start);
        push_u64(&mut bytes, s.a_stop);
        push_u64(&mut bytes, s.b_start);
        push_u64(&mut bytes, s.b_stop);
        push_u64(&mut bytes, s.hits);
        proof {
            let pre = support@.subrange(0, i as int + 1);
            assert(pre.drop_last() =~= support@.subrange(0, i as int));
            assert(bytes@ =~= before + support_record(s));
        }
        i = i + 1;
    }
    assert(support@.subrange(0, support@.len() as int) =~= support@);
    assert(bytes@ =~= passage_message(config_id@, a_key@, a_hash@, b_key@, b_hash@, support@));
    join(literal("psg_"), sha256_hex(bytes.as_slice()).as_str())
}

/// Evidence-hit identities in strictly ascending order.
pub open spec fn strictly_ascending(s: Seq<(u32, u32, u64, u64)>) -> bool {
    forall|i: int, j: int| 0 <= i < j < s.len() ==> crate::sorting::key4_lt(#[trigger] s[i], #[trigger] s[j])
}

/// The distinct evidence-hit identities of a passage's segments, ascending (the sort and
/// de-duplication of `passage_from_track`): overlapping regions count a hit once.
pub fn unique_hit_keys(keys: Vec<(u32, u32, u64, u64)>) -> (u: Vec<(u32, u32, u64, u64)>)
    ensures
        strictly_ascending(u@),
        u@.to_set() == keys@.to_set(),
{
    let mut sorted = keys;
    let ghost input = sorted@;
    crate::sorting::sort_keys4(&mut sorted);
    let mut u: Vec<(u32, u32, u64, u64)> = Vec::new();
    let mut i: usize = 0;
    while i < sorted.len()
        invariant
            i <= sorted@.len(),
            forall|a: int, b: int| 0 <= a < b < sorted@.len() ==> crate::sorting::key4_le(#[trigger] sorted@[a], #[trigger] sorted@[b]),
            strictly_ascending(u@),
            u@.to_set() == sorted@.subrange(0, i as int).to_set(),
            i > 0 ==> u@.len() > 0 && u@.last() == sorted@[i - 1],
            i == 0 ==> u@.len() == 0,
        decreases sorted@.len() - i,
    {
        let k = sorted[i];
        let fresh = if i == 0 {
            true
        } else {
            let p = u[u.len() - 1];
            !(p.0 == k.0 && p.1 == k.1 && p.2 == k.2 && p.3 == k.3)
        };
        let ghost before = u@;
        proof {
            assert(sorted@.subrange(0, i as int + 1) =~= sorted@.subrange(0, i as int).push(k));
        }
        if fresh {
            u.push(k);
            proof {
                assert forall|a: int, b: int| 0 <= a < b < u@.len() implies crate::sorting::key4_lt(#[trigger] u@[a], #[trigger] u@[b]) by {
                    if b == u@.len() - 1 {
                        assert(i > 0);
                        assert(u@[b] == k);
                        assert(u@[a] == before[a]);
                        let l = before[before.len() - 1];
                        assert(crate::sorting::key4_le(sorted@[i - 1], k));
                        assert(l != k);
                        assert(crate::sorting::key4_lt(l, k));
                        if a < before.len() - 1 {
                            assert(crate::sorting::key4_lt(before[a], l));
                        }
                    } else {
                        assert(u@[a] == before[a] && u@[b] == before[b]);
                    }
                }
                lemma_set_push(before, k);
                lemma_set_push(sorted@.subrange(0, i as int), k);
            }
        } else {
            proof {
                lemma_set_push(sorted@.subrange(0, i as int), k);
                assert(before.contains(before.last()));
                assert(before.to_set().contains(k));
                assert(sorted@.subrange(0, i as int).to_set().insert(k) =~= sorted@.subrange(0, i as int).to_set());
            }
        }
        i = i + 1;
    }
    proof {
        assert(sorted@.subrange(0, sorted@.len() as int) =~= sorted@);
        vstd::seq_lib::lemma_multiset_commutative(Seq::<(u32, u32, u64, u64)>::empty(), sorted@);
        assert forall|x: (u32, u32, u64, u64)| sorted@.to_set().contains(x) <==> input.to_set().contains(x) by {
            vstd::seq_lib::to_multiset_contains(sorted@, x);
            vstd::seq_lib::to_multiset_contains(input, x);
        }
        assert(sorted@.to_set() =~= input.to_set());
    }
    u
}

proof fn lemma_set_push(s: Seq<(u32, u32, u64, u64)>, x: (u32, u32, u64, u64))
    ensures
        s.push(x).to_set() == s.to_set().insert(x),
{
    s.lemma_push_to_set_commute(x);
}

/// A discovered reference that discovery leaves out: the probe's own key, or an excluded key.
pub fn is_excluded(found_key: &str, a_key: &str, excluded: &Vec<String>) -> (r: bool)
    ensures
        r == (found_key@ == a_key@ || exists|i: int| 0 <= i < excluded@.len() && #[trigger] excluded@[i]@ == found_key@),
{
    let found = literal(found_key);
    if found == literal(a_key) {
        return true;
    }
    let mut i: usize = 0;
    while i < excluded.len()
        invariant
            i <= excluded@.len(),
            found@ == found_key@,
            forall|j: int| 0 <= j < i ==> (#[trigger] excluded@[j])@ != found_key@,
        decreases excluded@.len() - i,
    {
        if excluded[i] == found {
            return true;
        }
        i = i + 1;
    }
    false
}

} // verus!

//! Content addressing: resource content hashes, shard placement, shard digests and
//! generation identities.
use vstd::bytes::*;
use vstd::prelude::*;
use vstd::utf8::*;

use crate::codec::{push_u16, push_u32, push_u64, records};
use crate::config::{config_id, spec_config_id};
use crate::digest::{hex_encode, hex_lower, push_str_bytes, sha256, sha256_digest, sha256_hex};
use crate::fingerprint::Fingerprint;
use crate::store::{ResourceInfo, SHARD_COUNT};
use crate::text::{decimal, join, literal};

verus! {

/// The bytes a print contributes to its resource's content hash.
pub open spec fn print_record(p: Fingerprint) -> Seq<u8> {
    spec_u64_to_le_bytes(p.hash) + spec_u32_to_le_bytes(p.t) + spec_u16_to_le_bytes(p.f)
}

/// Prints-only identity of a fingerprint vector: hex SHA-256 over `(hash, t, f)` records.
pub open spec fn spec_content_hash(prints: Seq<Fingerprint>) -> Seq<char> {
    hex_lower(sha256(records(prints, |p: Fingerprint| print_record(p))))
}

/// Content hash of prints in the given order.
pub fn fingerprint_content_hash(prints: &Vec<Fingerprint>) -> (h: String)
    ensures
        h@ == spec_content_hash(prints@),
{
    let mut bytes: Vec<u8> = Vec::new();
    let mut i: usize = 0;
    while i < prints.len()
        invariant
            i <= prints@.len(),
            bytes@ == records(prints@.subrange(0, i as int), |p: Fingerprint| print_record(p)),
        decreases prints@.len() - i,
    {
        let p = prints[i];
        push_u64(&mut bytes, p.hash);
        push_u32(&mut bytes, p.t);
        push_u16(&mut bytes, p.f);
        proof {
            let pre = prints@.subrange(0, i as int + 1);
            assert(pre.drop_last() =~= prints@.subrange(0, i as int));
            assert(bytes@ =~= records(prints@.subrange(0, i as int), |p: Fingerprint| print_record(p)) + print_record(p));
        }
        i = i + 1;
    }
    assert(prints@.subrange(0, prints@.len() as int) =~= prints@);
    sha256_hex(bytes.as_slice())
}

/// The shard a key belongs to: the first four digest bytes, little-endian, modulo 64.
pub open spec fn spec_shard_for_key(key: Seq<char>) -> u32 {
    (spec_u32_from_le_bytes(sha256(encode_utf8(key)).subrange(0, 4)) % (SHARD_COUNT as u32)) as u32
}

pub fn shard_for_key(key: &str) -> (n: u32)
    ensures
        n == spec_shard_for_key(key@),
        n < SHARD_COUNT,
{
    let d = sha256_digest(key.as_bytes());
    let prefix = vstd::slice::slice_subrange(d.as_slice(), 0, 4);
    let v = u32_from_le_bytes(prefix);
    v % 64
}

/// The bytes a resource contributes to a generation identity.
pub open spec fn generation_record(r: ResourceInfo) -> Seq<u8> {
    spec_u32_to_le_bytes(r.id) + encode_utf8(r.key@) + spec_u64_to_le_bytes(r.duration_bits) + encode_utf8(
        r.content_hash@,
    )
}

/// The identity profile a generation digest names; unmarked legacy manifests use
/// `legacy-duration-v0`.
pub open spec fn profile_or_legacy(profile: Option<Seq<char>>) -> Seq<char> {
    match profile {
        Some(p) => p,
        None => "legacy-duration-v0"@,
    }
}

pub open spec fn generation_message(resources: Seq<ResourceInfo>, profile: Option<Seq<char>>) -> Seq<u8> {
    encode_utf8(spec_config_id()) + encode_utf8(profile_or_legacy(profile)) + records(
        resources,
        |r: ResourceInfo| generation_record(r),
    )
}

/// A generation's identity: the first 24 hex digits of the digest of the configuration,
/// the identity profile and every resource's id, key, duration and content hash.
pub open spec fn spec_generation_id(resources: Seq<ResourceInfo>, profile: Option<Seq<char>>) -> Seq<char> {
    hex_lower(sha256(generation_message(resources, profile)).subrange(0, 12))
}

pub fn generation_id_from_infos(resources: &Vec<ResourceInfo>, identity_profile: Option<&str>) -> (g: String)
    ensures
        g@ == spec_generation_id(resources@, match identity_profile { Some(p) => Some(p@), None => None }),
{
    let ghost profile = match identity_profile { Some(p) => Some(p@), None => None::<Seq<char>> };
    let mut bytes: Vec<u8> = Vec::new();
    let id = config_id();
    push_str_bytes(&mut bytes, id.as_str());
    match identity_profile {
        Some(p) => push_str_bytes(&mut bytes, p),
        None => {
            let legacy = "legacy-duration-v0";
            proof {
                reveal_strlit("legacy-duration-v0");
            }
            push_str_bytes(&mut bytes, legacy);
        },
    }
    let ghost head = bytes@;
    assert(head == encode_utf8(spec_config_id()) + encode_utf8(profile_or_legacy(profile)));
    let mut i: usize = 0;
    while i < resources.len()
        invariant
            i <= resources@.len(),
            bytes@ == head + records(resources@.subrange(0, i as int), |r: ResourceInfo| generation_record(r)),
        decreases resources@.len() - i,
    {
        let r = &resources[i];
        let ghost before = bytes@;
        push_u32(&mut bytes, r.id);
        push_str_bytes(&mut bytes, r.key.as_str());
        push_u64(&mut bytes, r.duration_bits);
        push_str_bytes(&mut bytes, r.content_hash.as_str());
        proof {
            let pre = resources@.subrange(0, i as int + 1);
            assert(pre.drop_last() =~= resources@.subrange(0, i as int));
            assert(bytes@ =~= before + generation_record(*r));
        }
        i = i + 1;
    }
    assert(resources@.subrange(0, resources@.len() as int) =~= resources@);
    let d = sha256_digest(bytes.as_slice());
    let prefix = vstd::slice::slice_subrange(d.as_slice(), 0, 12);
    hex_encode(prefix)
}

/// The bytes a resource contributes to its shard's digest.
pub open spec fn shard_record(r: ResourceInfo) -> Seq<u8> {
    spec_u32_to_le_bytes(r.id) + encode_utf8(r.key@) + encode_utf8(r.content_hash@)
}

/// The digest that names a shard file: configuration plus each member's id, key and
/// content hash, in the given order.
pub open spec fn spec_shard_digest(resources: Seq<ResourceInfo>) -> Seq<u8> {
    sha256(encode_utf8(spec_config_id()) + records(resources, |r: ResourceInfo| shard_record(r)))
}

/// Two-digit zero-padded decimal of a shard number.
pub open spec fn two_digits(n: u32) -> Seq<char> {
    if n < 10 {
        seq!['0'] + crate::text::decimal_chars(n as nat)
    } else {
        crate::text::decimal_chars(n as nat)
    }
}

/// The file name of a shard: `shard-NN-` and the first 24 hex digits of its digest.
pub open spec fn spec_shard_file_name(number: u32, resources: Seq<ResourceInfo>) -> Seq<char> {
    "shard-"@ + two_digits(number) + "-"@ + hex_lower(spec_shard_digest(resources).subrange(0, 12)) + ".bin"@
}

pub fn shard_file_name(number: u32, resources: &Vec<ResourceInfo>) -> (name: String)
    ensures
        name@ == spec_shard_file_name(number, resources@),
{
    let mut bytes: Vec<u8> = Vec::new();
    let id = config_id();
    push_str_bytes(&mut bytes, id.as_str());
    let ghost head = bytes@;
    let mut i: usize = 0;
    while i < resources.len()
        invariant
            i <= resources@.len(),
            bytes@ == head + records(resources@.subrange(0, i as int), |r: ResourceInfo| shard_record(r)),
            head == encode_utf8(spec_config_id()),
        decreases resources@.len() - i,
    {
        let r = &resources[i];
        let ghost before = bytes@;
        push_u32(&mut bytes, r.id);
        push_str_bytes(&mut bytes, r.key.as_str());
        push_str_bytes(&mut bytes, r.content_hash.as_str());
        proof {
            let pre = resources@.subrange(0, i as int + 1);
            assert(pre.drop_last() =~= resources@.subrange(0, i as int));
            assert(bytes@ =~= before + shard_record(*r));
        }
        i = i + 1;
    }
    assert(resources@.subrange(0, resources@.len() as int) =~= resources@);
    let d = sha256_digest(bytes.as_slice());
    let prefix = vstd::slice::slice_subrange(d.as_slice(), 0, 12);
    let digest_text = hex_encode(prefix);
    proof {
        reveal_strlit("shard-");
        reveal_strlit("0");
        reveal_strlit("-");
        reveal_strlit(".bin");
    }
    let mut name = literal("shard-");
    if number < 10 {
        name = join(name, "0");
    }
    name = join(name, decimal(number as u64).as_str());
    name = join(name, "-");
    name = join(name, digest_text.as_str());
    name = join(name, ".bin");
    assert(name@ =~= spec_shard_file_name(number, resources@));
    name
}

} // verus!

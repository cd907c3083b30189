//! The immutable shard file: a fixed header followed by three directly addressed regions
//! (forward postings, a distinct-hash index, compact inverted hits), all little-endian.
use vstd::bytes::*;
use vstd::prelude::*;

use crate::codec::{
    lemma_le_roundtrips, lemma_records, lemma_records_push, lemma_window, le_u16_at, le_u32_at,
    le_u64_at, push_u16, push_u32, push_u64, read_u16, read_u32, read_u64, checked_region, records,
};
use crate::error::Error;
use crate::fingerprint::Fingerprint;
use crate::text::{debug_quoted, decimal, decimal_chars, join, literal, quoted};

verus! {

pub const STORE_VERSION: u32 = 1;
pub const HEADER_SIZE: u64 = 128;
pub const FORWARD_SIZE: u64 = 20;
pub const HASH_INDEX_SIZE: u64 = 24;
pub const HIT_SIZE: u64 = 12;

/// One posting with its owning resource, as written to both access orders.
#[derive(Clone, Copy, Debug, PartialEq, Eq, Structural)]
pub struct FullPosting {
    pub hash: u64,
    pub resource_id: u32,
    pub t: u32,
    pub f: u16,
}

/// One entry of the distinct-hash index: the hash and its run of inverted hits.
#[derive(Clone, Copy, Debug, PartialEq, Eq, Structural)]
pub struct IndexEntry {
    pub hash: u64,
    pub hit_start: u64,
    pub hit_count: u64,
}

/// One inverted posting returned by a hash lookup, with the stored hash that matched.
#[derive(Clone, Copy, Debug, PartialEq, Eq, Structural)]
pub struct StoredHit {
    pub resource_id: u32,
    pub t: u32,
    pub f: u16,
    pub matched_hash: u64,
}

/// Region geometry read from a shard header.
#[derive(Clone, Copy, Debug, PartialEq, Eq, Structural)]
pub struct ShardHeader {
    pub forward_offset: u64,
    pub forward_count: u64,
    pub hash_index_offset: u64,
    pub hash_count: u64,
    pub hits_offset: u64,
    pub hit_count: u64,
}

// ---------------------------------------------------------------------------------------
// The written image
// ---------------------------------------------------------------------------------------
/// The eight magic bytes `RESIDNT1`.
pub open spec fn magic() -> Seq<u8> {
    seq![82u8, 69u8, 83u8, 73u8, 68u8, 78u8, 84u8, 49u8]
}

pub open spec fn zeros(n: nat) -> Seq<u8> {
    Seq::new(n, |i: int| 0u8)
}

/// The header a writer derives from its region sizes.
pub open spec fn layout(forward: nat, hashes: nat, hits: nat) -> ShardHeader {
    ShardHeader {
        forward_offset: HEADER_SIZE,
        forward_count: forward as u64,
        hash_index_offset: (HEADER_SIZE + forward * FORWARD_SIZE) as u64,
        hash_count: hashes as u64,
        hits_offset: (HEADER_SIZE + forward * FORWARD_SIZE + hashes * HASH_INDEX_SIZE) as u64,
        hit_count: hits as u64,
    }
}

pub open spec fn header_bytes(number: u32, h: ShardHeader) -> Seq<u8> {
    magic() + spec_u32_to_le_bytes(STORE_VERSION) + spec_u32_to_le_bytes(number)
        + spec_u64_to_le_bytes(h.forward_offset) + spec_u64_to_le_bytes(h.forward_count)
        + spec_u64_to_le_bytes(h.hash_index_offset) + spec_u64_to_le_bytes(h.hash_count)
        + spec_u64_to_le_bytes(h.hits_offset) + spec_u64_to_le_bytes(h.hit_count) + zeros(64)
}

pub open spec fn forward_record(p: FullPosting) -> Seq<u8> {
    spec_u32_to_le_bytes(p.resource_id) + spec_u32_to_le_bytes(p.t) + spec_u16_to_le_bytes(p.f)
        + seq![0u8, 0u8] + spec_u64_to_le_bytes(p.hash)
}

pub open spec fn index_record(e: IndexEntry) -> Seq<u8> {
    spec_u64_to_le_bytes(e.hash) + spec_u64_to_le_bytes(e.hit_start) + spec_u64_to_le_bytes(
        e.hit_count,
    )
}

pub open spec fn hit_record(p: FullPosting) -> Seq<u8> {
    spec_u32_to_le_bytes(p.resource_id) + spec_u32_to_le_bytes(p.t) + spec_u16_to_le_bytes(p.f)
        + seq![0u8, 0u8]
}

/// Distinct-hash index of a hash-ordered posting sequence: one entry per maximal run of
/// equal hashes, pointing at the run's position and length.
pub open spec fn run_index(s: Seq<FullPosting>) -> Seq<IndexEntry>
    decreases s.len(),
{
    if s.len() == 0 {
        Seq::empty()
    } else {
        let p = run_index(s.drop_last());
        let x = s.last();
        if p.len() > 0 && p.last().hash == x.hash {
            p.update(
                p.len() - 1,
                IndexEntry {
                    hash: x.hash,
                    hit_start: p.last().hit_start,
                    hit_count: (p.last().hit_count + 1) as u64,
                },
            )
        } else {
            p.push(IndexEntry { hash: x.hash, hit_start: (s.len() - 1) as u64, hit_count: 1 })
        }
    }
}

/// The complete bytes of a shard file with the given forward and inverted postings.
pub open spec fn shard_image(number: u32, forward: Seq<FullPosting>, inverted: Seq<FullPosting>) -> Seq<u8> {
    let index = run_index(inverted);
    header_bytes(number, layout(forward.len(), index.len(), inverted.len())) + records(
        forward,
        |p: FullPosting| forward_record(p),
    ) + records(index, |e: IndexEntry| index_record(e)) + records(
        inverted,
        |p: FullPosting| hit_record(p),
    )
}

/// Postings ordered by `(hash, resource, time, frequency)`.
pub open spec fn inverted_ordered(s: Seq<FullPosting>) -> bool {
    forall|i: int, j: int|
        0 <= i < j < s.len() ==> inverted_key_le(#[trigger] s[i], #[trigger] s[j])
}

pub open spec fn inverted_key_le(a: FullPosting, b: FullPosting) -> bool {
    a.hash < b.hash || (a.hash == b.hash && (a.resource_id < b.resource_id || (a.resource_id
        == b.resource_id && (a.t < b.t || (a.t == b.t && a.f <= b.f)))))
}

// ---------------------------------------------------------------------------------------
// Writing
// ---------------------------------------------------------------------------------------
fn push_forward_record(out: &mut Vec<u8>, p: FullPosting)
    ensures
        final(out)@ == old(out)@ + forward_record(p),
{
    push_u32(out, p.resource_id);
    push_u32(out, p.t);
    push_u16(out, p.f);
    out.push(0);
    out.push(0);
    push_u64(out, p.hash);
    assert(final(out)@ =~= old(out)@ + forward_record(p));
}

/// `write_forward` of the shard writer: one forward record.
pub fn write_forward(out: &mut Vec<u8>, posting: FullPosting)
    ensures
        final(out)@ == old(out)@ + forward_record(posting),
        forward_record(posting).len() == FORWARD_SIZE,
{
    proof {
        lemma_le_roundtrips();
    }
    push_forward_record(out, posting);
}

fn push_hit_record(out: &mut Vec<u8>, p: FullPosting)
    ensures
        final(out)@ == old(out)@ + hit_record(p),
{
    push_u32(out, p.resource_id);
    push_u32(out, p.t);
    push_u16(out, p.f);
    out.push(0);
    out.push(0);
    assert(final(out)@ =~= old(out)@ + hit_record(p));
}

fn push_index_record(out: &mut Vec<u8>, e: IndexEntry)
    ensures
        final(out)@ == old(out)@ + index_record(e),
{
    push_u64(out, e.hash);
    push_u64(out, e.hit_start);
    push_u64(out, e.hit_count);
    assert(final(out)@ =~= old(out)@ + index_record(e));
}

/// The distinct-hash index of hash-ordered postings.
pub fn build_hash_index(inverted: &Vec<FullPosting>) -> (index: Vec<IndexEntry>)
    ensures
        index@ == run_index(inverted@),
{
    let mut index: Vec<IndexEntry> = Vec::new();
    let mut i: usize = 0;
    while i < inverted.len()
        invariant
            i <= inverted@.len(),
            index@ == run_index(inverted@.subrange(0, i as int)),
            forall|k: int| 0 <= k < index@.len() ==> #[trigger] index@[k].hit_start + index@[k].hit_count <= i,
        decreases inverted@.len() - i,
    {
        let x = inverted[i];
        let ghost prefix = inverted@.subrange(0, i as int + 1);
        assert(prefix.drop_last() =~= inverted@.subrange(0, i as int));
        assert(prefix.last() == x);
        let n = index.len();
        if n > 0 && index[n - 1].hash == x.hash {
            let last = index[n - 1];
            index.set(n - 1, IndexEntry { hash: x.hash, hit_start: last.hit_start, hit_count: last.hit_count + 1 });
        } else {
            index.push(IndexEntry { hash: x.hash, hit_start: i as u64, hit_count: 1 });
        }
        i = i + 1;
    }
    assert(inverted@.subrange(0, inverted@.len() as int) =~= inverted@);
    index
}

proof fn lemma_header_len(number: u32, h: ShardHeader)
    ensures
        header_bytes(number, h).len() == HEADER_SIZE,
{
    lemma_le_roundtrips();
}

fn push_header(out: &mut Vec<u8>, number: u32, h: ShardHeader)
    ensures
        final(out)@ == old(out)@ + header_bytes(number, h),
{
    out.push(82);
    out.push(69);
    out.push(83);
    out.push(73);
    out.push(68);
    out.push(78);
    out.push(84);
    out.push(49);
    push_u32(out, STORE_VERSION);
    push_u32(out, number);
    push_u64(out, h.forward_offset);
    push_u64(out, h.forward_count);
    push_u64(out, h.hash_index_offset);
    push_u64(out, h.hash_count);
    push_u64(out, h.hits_offset);
    push_u64(out, h.hit_count);
    let mut k: usize = 0;
    let ghost before = out@;
    while k < 64
        invariant
            k <= 64,
            out@ == before + zeros(k as nat),
        decreases 64 - k,
    {
        out.push(0);
        k = k + 1;
        assert(out@ =~= before + zeros(k as nat));
    }
    assert(final(out)@ =~= old(out)@ + header_bytes(number, h));
}

/// The complete file image of one shard: header, forward region, hash index, hits.
/// `forward` is expected in forward order and `inverted` in hash order; the image is
/// exactly `shard_image` of them either way.
pub fn shard_file_bytes(number: u32, forward: &Vec<FullPosting>, inverted: &Vec<FullPosting>) -> (bytes: Vec<u8>)
    requires
        HEADER_SIZE + forward@.len() * FORWARD_SIZE + inverted@.len() * HASH_INDEX_SIZE + inverted@.len() * HIT_SIZE <= u64::MAX,
    ensures
        bytes@ == shard_image(number, forward@, inverted@),
{
    let index = build_hash_index(inverted);
    proof {
        lemma_run_index_len(inverted@);
    }
    let forward_count = forward.len() as u64;
    let hash_count = index.len() as u64;
    let hash_index_offset = HEADER_SIZE + forward_count * FORWARD_SIZE;
    let hits_offset = hash_index_offset + hash_count * HASH_INDEX_SIZE;
    let header = ShardHeader {
        forward_offset: HEADER_SIZE,
        forward_count,
        hash_index_offset,
        hash_count,
        hits_offset,
        hit_count: inverted.len() as u64,
    };
    assert(header == layout(forward@.len(), index@.len(), inverted@.len()));
    let mut out: Vec<u8> = Vec::new();
    push_header(&mut out, number, header);
    let ghost h = out@;
    let mut i: usize = 0;
    while i < forward.len()
        invariant
            i <= forward@.len(),
            out@ == h + records(forward@.subrange(0, i as int), |p: FullPosting| forward_record(p)),
        decreases forward@.len() - i,
    {
        push_forward_record(&mut out, forward[i]);
        proof {
            assert(forward@.subrange(0, i as int + 1) =~= forward@.subrange(0, i as int).push(forward@[i as int]));
            lemma_records_push(forward@.subrange(0, i as int), forward@[i as int], |p: FullPosting| forward_record(p));
        }
        i = i + 1;
    }
    assert(forward@.subrange(0, forward@.len() as int) =~= forward@);
    let ghost hf = out@;
    let mut k: usize = 0;
    while k < index.len()
        invariant
            k <= index@.len(),
            out@ == hf + records(index@.subrange(0, k as int), |e: IndexEntry| index_record(e)),
        decreases index@.len() - k,
    {
        push_index_record(&mut out, index[k]);
        proof {
            assert(index@.subrange(0, k as int + 1) =~= index@.subrange(0, k as int).push(index@[k as int]));
            lemma_records_push(index@.subrange(0, k as int), index@[k as int], |e: IndexEntry| index_record(e));
        }
        k = k + 1;
    }
    assert(index@.subrange(0, index@.len() as int) =~= index@);
    let ghost hi = out@;
    let mut j: usize = 0;
    while j < inverted.len()
        invariant
            j <= inverted@.len(),
            out@ == hi + records(inverted@.subrange(0, j as int), |p: FullPosting| hit_record(p)),
        decreases inverted@.len() - j,
    {
        push_hit_record(&mut out, inverted[j]);
        proof {
            assert(inverted@.subrange(0, j as int + 1) =~= inverted@.subrange(0, j as int).push(inverted@[j as int]));
            lemma_records_push(inverted@.subrange(0, j as int), inverted@[j as int], |p: FullPosting| hit_record(p));
        }
        j = j + 1;
    }
    assert(inverted@.subrange(0, inverted@.len() as int) =~= inverted@);
    out
}

pub proof fn lemma_run_index_len(s: Seq<FullPosting>)
    ensures
        run_index(s).len() <= s.len(),
    decreases s.len(),
{
    if s.len() > 0 {
        lemma_run_index_len(s.drop_last());
    }
}


// ---------------------------------------------------------------------------------------
// Reading
// ---------------------------------------------------------------------------------------
/// The six region fields of a header image.
pub open spec fn header_at(b: Seq<u8>) -> ShardHeader {
    ShardHeader {
        forward_offset: le_u64_at(b, 16),
        forward_count: le_u64_at(b, 24),
        hash_index_offset: le_u64_at(b, 32),
        hash_count: le_u64_at(b, 40),
        hits_offset: le_u64_at(b, 48),
        hit_count: le_u64_at(b, 56),
    }
}

/// The three regions follow the header back to back and end exactly at the end of the file.
pub open spec fn regions_fit(len: nat, h: ShardHeader) -> bool {
    &&& h.forward_offset == HEADER_SIZE
    &&& h.forward_offset + h.forward_count * FORWARD_SIZE == h.hash_index_offset
    &&& h.hash_index_offset + h.hash_count * HASH_INDEX_SIZE == h.hits_offset
    &&& h.hits_offset + h.hit_count * HIT_SIZE == len
    &&& len <= u64::MAX
}

/// What opening a shard accepts for a manifest entry with the given number and counts.
pub open spec fn shard_acceptable(b: Seq<u8>, number: u32, postings: u64, hashes: u64) -> bool {
    &&& b.len() >= HEADER_SIZE
    &&& b.subrange(0, 8) == magic()
    &&& le_u32_at(b, 8) == STORE_VERSION
    &&& le_u32_at(b, 12) == number
    &&& regions_fit(b.len(), header_at(b))
    &&& header_at(b).forward_count == postings
    &&& header_at(b).hit_count == postings
    &&& header_at(b).hash_count == hashes
}

pub open spec fn forward_at(b: Seq<u8>, h: ShardHeader, i: int) -> FullPosting {
    let o = h.forward_offset + i * FORWARD_SIZE;
    FullPosting {
        resource_id: le_u32_at(b, o),
        t: le_u32_at(b, o + 4),
        f: le_u16_at(b, o + 8),
        hash: le_u64_at(b, o + 12),
    }
}

pub open spec fn index_at(b: Seq<u8>, h: ShardHeader, i: int) -> IndexEntry {
    let o = h.hash_index_offset + i * HASH_INDEX_SIZE;
    IndexEntry {
        hash: le_u64_at(b, o),
        hit_start: le_u64_at(b, o + 8),
        hit_count: le_u64_at(b, o + 16),
    }
}

pub open spec fn hit_at(b: Seq<u8>, h: ShardHeader, j: int, hash: u64) -> StoredHit {
    let o = h.hits_offset + j * HIT_SIZE;
    StoredHit {
        resource_id: le_u32_at(b, o),
        t: le_u32_at(b, o + 4),
        f: le_u16_at(b, o + 8),
        matched_hash: hash,
    }
}

/// The inverted hits an index entry points at.
pub open spec fn entry_hits(b: Seq<u8>, h: ShardHeader, e: IndexEntry) -> Seq<StoredHit> {
    Seq::new(e.hit_count as nat, |j: int| hit_at(b, h, e.hit_start + j, e.hash))
}

/// Hits of the first `n` index entries whose hash lies in `[start, stop]`, in index order.
pub open spec fn range_hits(b: Seq<u8>, h: ShardHeader, start: u64, stop: u64, n: int) -> Seq<StoredHit>
    decreases n,
{
    if n <= 0 {
        Seq::empty()
    } else {
        let e = index_at(b, h, n - 1);
        range_hits(b, h, start, stop, n - 1) + if start <= e.hash <= stop {
            entry_hits(b, h, e)
        } else {
            Seq::empty()
        }
    }
}

/// Every index entry in `[start, stop]` points inside the hits region.
pub open spec fn range_in_bounds(b: Seq<u8>, h: ShardHeader, start: u64, stop: u64) -> bool {
    forall|i: int|
        0 <= i < h.hash_count && start <= #[trigger] index_at(b, h, i).hash <= stop ==> index_at(
            b,
            h,
            i,
        ).hit_start + index_at(b, h, i).hit_count <= h.hit_count
}

/// The distinct-hash index is strictly increasing.
pub open spec fn index_sorted(b: Seq<u8>, h: ShardHeader) -> bool {
    forall|i: int, j: int|
        0 <= i < j < h.hash_count ==> #[trigger] index_at(b, h, i).hash < #[trigger] index_at(
            b,
            h,
            j,
        ).hash
}

fn invalid_header(path: &str) -> (e: Error)
    ensures
        e matches Error::InvalidStore(m) && m@ == path@ + " has an invalid shard header"@,
{
    Error::InvalidStore(join(literal(path), " has an invalid shard header"))
}

/// The error that refuses shard bytes `b` (file `path`) whose header fails its checks, by the
/// first check that fails: magic and size, format version, shard number, region layout.
pub open spec fn header_refusal(b: Seq<u8>, number: u32, path: Seq<char>, e: Error) -> bool {
    if b.len() < HEADER_SIZE || b.subrange(0, 8) != magic() {
        e matches Error::InvalidStore(m) && m@ == path + " has an invalid shard header"@
    } else if le_u32_at(b, 8) != STORE_VERSION {
        e == (Error::StoreVersionMismatch { expected: STORE_VERSION, found: le_u32_at(b, 8) })
    } else if le_u32_at(b, 12) != number {
        e matches Error::InvalidStore(m) && m@ == path + " shard number disagrees with manifest"@
    } else {
        e matches Error::InvalidStore(m) && (m@ == "store region overflow"@ || m@ == path
            + " has inconsistent shard regions"@)
    }
}

/// Header checks of opening a published shard file against its manifest entry.
pub fn parse_shard_header(bytes: &[u8], number: u32, postings: u64, hashes: u64, path: &str) -> (r: Result<ShardHeader, Error>)
    ensures
        match r {
            Ok(h) => shard_acceptable(bytes@, number, postings, hashes) && h == header_at(bytes@),
            Err(e) => !shard_acceptable(bytes@, number, postings, hashes) && header_refusal(bytes@, number, path@, e),
        },
{
    if bytes.len() < 128 {
        return Err(invalid_header(path));
    }
    let magic_bytes: [u8; 8] = [82, 69, 83, 73, 68, 78, 84, 49];
    let mut i: usize = 0;
    while i < 8
        invariant
            i <= 8,
            bytes@.len() >= 128,
            magic_bytes@ == magic(),
            forall|k: int| 0 <= k < i ==> bytes@[k] == magic()[k],
        decreases 8 - i,
    {
        if bytes[i] != magic_bytes[i] {
            assert(bytes@.subrange(0, 8)[i as int] != magic()[i as int]);
            return Err(invalid_header(path));
        }
        i = i + 1;
    }
    assert(bytes@.subrange(0, 8) =~= magic());
    let version = match read_u32(bytes, 8) { Ok(v) => v, Err(e) => return Err(e) };
    if version != STORE_VERSION {
        return Err(Error::StoreVersionMismatch { expected: STORE_VERSION, found: version });
    }
    let found_number = match read_u32(bytes, 12) { Ok(v) => v, Err(e) => return Err(e) };
    if found_number != number {
        return Err(Error::InvalidStore(join(literal(path), " shard number disagrees with manifest")));
    }
    let forward_offset = match read_u64(bytes, 16) { Ok(v) => v, Err(e) => return Err(e) };
    let forward_count = match read_u64(bytes, 24) { Ok(v) => v, Err(e) => return Err(e) };
    let hash_index_offset = match read_u64(bytes, 32) { Ok(v) => v, Err(e) => return Err(e) };
    let hash_count = match read_u64(bytes, 40) { Ok(v) => v, Err(e) => return Err(e) };
    let hits_offset = match read_u64(bytes, 48) { Ok(v) => v, Err(e) => return Err(e) };
    let hit_count = match read_u64(bytes, 56) { Ok(v) => v, Err(e) => return Err(e) };
    let header = ShardHeader { forward_offset, forward_count, hash_index_offset, hash_count, hits_offset, hit_count };
    let forward_end = match checked_region(forward_offset, forward_count, FORWARD_SIZE) { Ok(v) => v, Err(e) => return Err(e) };
    let index_end = match checked_region(hash_index_offset, hash_count, HASH_INDEX_SIZE) { Ok(v) => v, Err(e) => return Err(e) };
    let hits_end = match checked_region(hits_offset, hit_count, HIT_SIZE) { Ok(v) => v, Err(e) => return Err(e) };
    if forward_offset != HEADER_SIZE || hash_index_offset != forward_end || hits_offset != index_end
        || hits_end != bytes.len() as u64 || forward_count != postings || hit_count != postings
        || hash_count != hashes
    {
        return Err(Error::InvalidStore(join(literal(path), " has inconsistent shard regions")));
    }
    Ok(header)
}

/// Reads entry `i`'s hash from a shard whose regions fit its bytes.
fn index_hash(bytes: &[u8], h: &ShardHeader, i: u64) -> (v: u64)
    requires
        regions_fit(bytes@.len(), *h),
        i < h.hash_count,
    ensures
        v == index_at(bytes@, *h, i as int).hash,
{
    assert(i * HASH_INDEX_SIZE + HASH_INDEX_SIZE <= h.hash_count * HASH_INDEX_SIZE) by (nonlinear_arith)
        requires i < h.hash_count;
    let o64: u64 = h.hash_index_offset + i * HASH_INDEX_SIZE;
    let n = bytes.len();
    assert(o64 + HASH_INDEX_SIZE <= n);
    let o = o64 as usize;
    match read_u64(bytes, o) {
        Ok(v) => v,
        Err(_) => {
            assert(false);
            0
        },
    }
}

/// Reads entry `i` of the hash index.
fn index_entry(bytes: &[u8], h: &ShardHeader, i: u64) -> (e: IndexEntry)
    requires
        regions_fit(bytes@.len(), *h),
        i < h.hash_count,
    ensures
        e == index_at(bytes@, *h, i as int),
{
    assert(i * HASH_INDEX_SIZE + HASH_INDEX_SIZE <= h.hash_count * HASH_INDEX_SIZE) by (nonlinear_arith)
        requires i < h.hash_count;
    let o64: u64 = h.hash_index_offset + i * HASH_INDEX_SIZE;
    let n = bytes.len();
    assert(o64 + HASH_INDEX_SIZE <= n);
    let o = o64 as usize;
    let hash = match read_u64(bytes, o) { Ok(v) => v, Err(_) => { assert(false); 0 } };
    let hit_start = match read_u64(bytes, o + 8) { Ok(v) => v, Err(_) => { assert(false); 0 } };
    let hit_count = match read_u64(bytes, o + 16) { Ok(v) => v, Err(_) => { assert(false); 0 } };
    IndexEntry { hash, hit_start, hit_count }
}

/// Reads inverted hit `j`, tagging it with the index hash that led to it.
fn hit_record_at(bytes: &[u8], h: &ShardHeader, j: u64, hash: u64) -> (hit: StoredHit)
    requires
        regions_fit(bytes@.len(), *h),
        j < h.hit_count,
    ensures
        hit == hit_at(bytes@, *h, j as int, hash),
{
    assert(j * HIT_SIZE + HIT_SIZE <= h.hit_count * HIT_SIZE) by (nonlinear_arith)
        requires j < h.hit_count;
    let o64: u64 = h.hits_offset + j * HIT_SIZE;
    let n = bytes.len();
    assert(o64 + HIT_SIZE <= n);
    let o = o64 as usize;
    let resource_id = match read_u32(bytes, o) { Ok(v) => v, Err(_) => { assert(false); 0 } };
    let t = match read_u32(bytes, o + 4) { Ok(v) => v, Err(_) => { assert(false); 0 } };
    let f = match read_u16(bytes, o + 8) { Ok(v) => v, Err(_) => { assert(false); 0 } };
    StoredHit { resource_id, t, f, matched_hash: hash }
}

proof fn lemma_range_hits_below(b: Seq<u8>, h: ShardHeader, start: u64, stop: u64, n: int)
    requires
        forall|i: int| 0 <= i < n ==> #[trigger] index_at(b, h, i).hash < start,
    ensures
        range_hits(b, h, start, stop, n) == Seq::<StoredHit>::empty(),
    decreases n,
{
    if n > 0 {
        lemma_range_hits_below(b, h, start, stop, n - 1);
        assert(index_at(b, h, n - 1).hash < start);
    }
}

proof fn lemma_range_hits_above(b: Seq<u8>, h: ShardHeader, start: u64, stop: u64, m: int, n: int)
    requires
        0 <= m <= n,
        forall|i: int| m <= i < n ==> #[trigger] index_at(b, h, i).hash > stop,
    ensures
        range_hits(b, h, start, stop, n) == range_hits(b, h, start, stop, m),
    decreases n - m,
{
    if n > m {
        lemma_range_hits_above(b, h, start, stop, m, n - 1);
        assert(index_at(b, h, n - 1).hash > stop);
        assert(range_hits(b, h, start, stop, n) =~= range_hits(b, h, start, stop, n - 1));
    }
}

/// Where the binary search for the first index entry with hash at least `start` ends,
/// searching `[low, high)`.
pub open spec fn search_low(b: Seq<u8>, h: ShardHeader, start: u64, low: int, high: int) -> int
    decreases high - low,
{
    if low >= high {
        low
    } else {
        let middle = low + (high - low) / 2;
        if index_at(b, h, middle).hash < start {
            search_low(b, h, start, middle + 1, high)
        } else {
            search_low(b, h, start, low, middle)
        }
    }
}

/// `rest` with `done` in front; nothing when `rest` is nothing.
pub open spec fn prepend_hits(done: Seq<StoredHit>, rest: Option<Seq<StoredHit>>) -> Option<Seq<StoredHit>> {
    match rest {
        Some(r) => Some(done + r),
        None => None,
    }
}

/// The hits of the index entries from `i` on, up to the first entry whose hash exceeds
/// `stop`; nothing when an entry on the way points outside the hits region.
pub open spec fn scan_from(b: Seq<u8>, h: ShardHeader, stop: u64, i: int) -> Option<Seq<StoredHit>>
    decreases h.hash_count - i,
{
    if i < 0 || i >= h.hash_count {
        Some(Seq::empty())
    } else {
        let e = index_at(b, h, i);
        if e.hash > stop {
            Some(Seq::empty())
        } else if e.hit_start + e.hit_count > h.hit_count {
            None
        } else {
            prepend_hits(entry_hits(b, h, e), scan_from(b, h, stop, i + 1))
        }
    }
}

/// What a range read of one shard answers, whatever order its index is in: the hits from
/// where the binary search for `start` ends, or nothing when the read fails.
pub open spec fn shard_scan(b: Seq<u8>, h: ShardHeader, start: u64, stop: u64) -> Option<Seq<StoredHit>> {
    scan_from(b, h, stop, search_low(b, h, start, 0, h.hash_count as int))
}

/// Appends every inverted hit whose stored hash lies in `[start, stop]`.
/// On a strictly sorted index the appended hits are exactly `range_hits` and the lookup
/// fails exactly when such an entry points outside the hits region.
pub fn lookup_range_in(bytes: &[u8], h: &ShardHeader, start: u64, stop: u64, out: &mut Vec<StoredHit>) -> (r: Result<(), Error>)
    requires
        regions_fit(bytes@.len(), *h),
    ensures
        index_sorted(bytes@, *h) ==> (r is Ok <==> range_in_bounds(bytes@, *h, start, stop)),
        index_sorted(bytes@, *h) && r is Ok ==> final(out)@ == old(out)@ + range_hits(
            bytes@,
            *h,
            start,
            stop,
            h.hash_count as int,
        ),
        r is Ok ==> forall|k: int|
            old(out)@.len() <= k < final(out)@.len() ==> #[trigger] final(out)@[k].matched_hash <= stop,
        r is Ok ==> final(out)@.len() >= old(out)@.len() && final(out)@.subrange(0, old(out)@.len() as int) == old(out)@,
        r matches Err(e) ==> (e matches Error::InvalidStore(m) && (m@ == "hit range overflow"@
            || m@ == "hash index points outside hits"@)),
        r is Ok <==> shard_scan(bytes@, *h, start, stop) is Some,
        r is Ok ==> Some(final(out)@) == prepend_hits(old(out)@, shard_scan(bytes@, *h, start, stop)),
{
    let ghost b = bytes@;
    let ghost sorted = index_sorted(b, *h);
    let mut low: u64 = 0;
    let mut high: u64 = h.hash_count;
    while low < high
        invariant
            low <= high <= h.hash_count,
            regions_fit(b.len(), *h),
            b == bytes@,
            sorted == index_sorted(b, *h),
            sorted ==> forall|i: int| 0 <= i < low ==> #[trigger] index_at(b, *h, i).hash < start,
            sorted ==> forall|i: int| high <= i < h.hash_count ==> #[trigger] index_at(b, *h, i).hash >= start,
            search_low(b, *h, start, low as int, high as int) == search_low(b, *h, start, 0, h.hash_count as int),
        decreases high - low,
    {
        let middle = low + (high - low) / 2;
        let v = index_hash(bytes, h, middle);
        if v < start {
            low = middle + 1;
        } else {
            high = middle;
        }
    }
    proof {
        if sorted {
            lemma_range_hits_below(b, *h, start, stop, low as int);
        }
    }
    let ghost base = out@;
    let mut index = low;
    while index < h.hash_count
        invariant
            low <= index <= h.hash_count,
            regions_fit(b.len(), *h),
            b == bytes@,
            sorted == index_sorted(b, *h),
            sorted ==> forall|i: int| 0 <= i < low ==> #[trigger] index_at(b, *h, i).hash < start,
            sorted ==> forall|i: int| low <= i < h.hash_count ==> #[trigger] index_at(b, *h, i).hash >= start,
            sorted ==> out@ == base + range_hits(b, *h, start, stop, index as int),
            sorted ==> forall|i: int| 0 <= i < index && start <= #[trigger] index_at(b, *h, i).hash <= stop
                ==> index_at(b, *h, i).hit_start + index_at(b, *h, i).hit_count <= h.hit_count,
            forall|k: int| base.len() <= k < out@.len() ==> #[trigger] out@[k].matched_hash <= stop,
            base.len() <= out@.len(),
            out@.subrange(0, base.len() as int) == base,
            base == old(out)@,
            low as int == search_low(b, *h, start, 0, h.hash_count as int),
            scan_from(b, *h, stop, low as int) == prepend_hits(
                out@.subrange(base.len() as int, out@.len() as int),
                scan_from(b, *h, stop, index as int),
            ),
        decreases h.hash_count - index,
    {
        let entry = index_entry(bytes, h, index);
        if entry.hash > stop {
            proof {
                assert(out@ =~= base + out@.subrange(base.len() as int, out@.len() as int));
                if sorted {
                    assert forall|i: int| index <= i < h.hash_count implies #[trigger] index_at(b, *h, i).hash > stop by {
                        if i > index {
                            assert(index_at(b, *h, index as int).hash < index_at(b, *h, i).hash);
                        }
                    }
                    lemma_range_hits_above(b, *h, start, stop, index as int, h.hash_count as int);
                }
            }
            return Ok(());
        }
        let hit_end = match entry.hit_start.checked_add(entry.hit_count) {
            Some(v) => v,
            None => return Err(Error::InvalidStore(literal("hit range overflow"))),
        };
        if hit_end > h.hit_count {
            return Err(Error::InvalidStore(literal("hash index points outside hits")));
        }
        let ghost before = out@;
        let mut j = entry.hit_start;
        while j < hit_end
            invariant
                entry.hit_start <= j <= hit_end <= h.hit_count,
                hit_end == entry.hit_start + entry.hit_count,
                regions_fit(b.len(), *h),
                b == bytes@,
                entry.hash <= stop,
                out@ == before + entry_hits(b, *h, entry).subrange(0, j - entry.hit_start),
                forall|k: int| base.len() <= k < out@.len() ==> #[trigger] out@[k].matched_hash <= stop,
                base.len() <= before.len(),
                before.subrange(0, base.len() as int) == base,
                out@.len() >= before.len(),
                out@.subrange(0, before.len() as int) == before,
                forall|k: int| base.len() <= k < before.len() ==> #[trigger] before[k].matched_hash <= stop,
            decreases hit_end - j,
        {
            let hit = hit_record_at(bytes, h, j, entry.hash);
            let ghost pre_push = out@;
            out.push(hit);
            proof {
                assert(out@.subrange(0, before.len() as int) =~= pre_push.subrange(0, before.len() as int));
                assert(entry_hits(b, *h, entry).subrange(0, j + 1 - entry.hit_start) =~= entry_hits(b, *h, entry).subrange(0, j - entry.hit_start).push(hit));
            }
            j = j + 1;
        }
        proof {
            assert(out@.subrange(0, base.len() as int) =~= before.subrange(0, base.len() as int));
            assert(entry_hits(b, *h, entry).subrange(0, entry.hit_count as int) =~= entry_hits(b, *h, entry));
            assert(out@.subrange(base.len() as int, out@.len() as int) =~= before.subrange(base.len() as int, before.len() as int)
                + entry_hits(b, *h, entry));
            match scan_from(b, *h, stop, index as int + 1) {
                Some(rest) => {
                    assert(out@.subrange(base.len() as int, out@.len() as int) + rest =~= before.subrange(
                        base.len() as int,
                        before.len() as int,
                    ) + (entry_hits(b, *h, entry) + rest));
                },
                None => {},
            }
            if sorted {
                assert(entry.hash >= start);
                assert(range_hits(b, *h, start, stop, index as int + 1) == range_hits(b, *h, start, stop, index as int) + entry_hits(b, *h, entry));
            }
        }
        index = index + 1;
    }
    Ok(())
}


/// Prints of forward records `[start, end)` whose time lies in `[t0, t1)`, in file order.
pub open spec fn forward_window(b: Seq<u8>, h: ShardHeader, start: int, end: int, t0: u32, t1: u32) -> Seq<Fingerprint>
    decreases end - start,
{
    if end <= start {
        Seq::empty()
    } else {
        let p = forward_at(b, h, end - 1);
        forward_window(b, h, start, end - 1, t0, t1) + if t0 <= p.t < t1 {
            seq![Fingerprint { hash: p.hash, t: p.t, f: p.f }]
        } else {
            Seq::empty()
        }
    }
}

/// Every forward record in `[start, end)` belongs to resource `id`.
pub open spec fn owned_by(b: Seq<u8>, h: ShardHeader, start: int, end: int, id: u32) -> bool {
    forall|i: int| start <= i < end ==> #[trigger] forward_at(b, h, i).resource_id == id
}

/// The window a forward read uses: all times when absent.
pub open spec fn window_bounds(window: Option<(u32, u32)>) -> (u32, u32) {
    match window {
        Some(w) => w,
        None => (0, u32::MAX),
    }
}

/// A resource's forward range `[forward_start, forward_start + postings)` restricted to a
/// `[t0, t1)` time window.
pub fn forward_in(bytes: &[u8], h: &ShardHeader, resource_id: u32, forward_start: u64, postings: u64, key: &str, window: Option<(u32, u32)>) -> (r: Result<Vec<Fingerprint>, Error>)
    requires
        regions_fit(bytes@.len(), *h),
    ensures
        ({
            let end = forward_start + postings;
            let (t0, t1) = window_bounds(window);
            match r {
                Ok(v) => end <= h.forward_count && t0 < t1 && owned_by(bytes@, *h, forward_start as int, end, resource_id)
                    && v@ == forward_window(bytes@, *h, forward_start as int, end, t0, t1),
                Err(e) => if end > u64::MAX {
                    e matches Error::InvalidStore(m) && m@ == "forward range overflow"@
                } else if end > h.forward_count {
                    e matches Error::InvalidStore(m) && m@ == "resource "@ + debug_quoted(key@)
                        + " forward range is outside shard"@
                } else if t0 >= t1 {
                    e matches Error::BadRequest(m) && m@ == "window start must be before stop"@
                } else {
                    !owned_by(bytes@, *h, forward_start as int, end, resource_id) && (e matches Error::InvalidStore(m)
                        && exists|i: int| forward_start <= i < end && owned_by(bytes@, *h, forward_start as int, i, resource_id)
                        && m@ == "resource "@ + debug_quoted(key@) + " forward range contains id "@
                        + decimal_chars(#[trigger] forward_at(bytes@, *h, i).resource_id as nat))
                },
            }
        }),
{
    let ghost b = bytes@;
    let end = match forward_start.checked_add(postings) {
        Some(v) => v,
        None => return Err(Error::InvalidStore(literal("forward range overflow"))),
    };
    if end > h.forward_count {
        let s = join(literal("resource "), quoted(key).as_str());
        return Err(Error::InvalidStore(join(s, " forward range is outside shard")));
    }
    let (t0, t1) = match window {
        Some(w) => w,
        None => (0u32, u32::MAX),
    };
    if t0 >= t1 {
        return Err(Error::BadRequest(literal("window start must be before stop")));
    }
    let mut prints: Vec<Fingerprint> = Vec::new();
    let mut index = forward_start;
    while index < end
        invariant
            forward_start <= index <= end <= h.forward_count,
            end == forward_start + postings,
            window_bounds(window) == (t0, t1),
            t0 < t1,
            regions_fit(b.len(), *h),
            b == bytes@,
            owned_by(b, *h, forward_start as int, index as int, resource_id),
            prints@ == forward_window(b, *h, forward_start as int, index as int, t0, t1),
        decreases end - index,
    {
        assert(index * FORWARD_SIZE + FORWARD_SIZE <= h.forward_count * FORWARD_SIZE) by (nonlinear_arith)
            requires index < h.forward_count;
        let o64: u64 = h.forward_offset + index * FORWARD_SIZE;
        let n = bytes.len();
        assert(o64 + FORWARD_SIZE <= n);
        let o = o64 as usize;
        let id = match read_u32(bytes, o) { Ok(v) => v, Err(_) => { assert(false); 0 } };
        if id != resource_id {
            assert(forward_at(b, *h, index as int).resource_id == id);
            assert(!owned_by(bytes@, *h, forward_start as int, (forward_start + postings) as int, resource_id));
            assert(window_bounds(window) == (t0, t1));
            let s = join(literal("resource "), quoted(key).as_str());
            let s = join(s, " forward range contains id ");
            return Err(Error::InvalidStore(join(s, decimal(id as u64).as_str())));
        }
        let t = match read_u32(bytes, o + 4) { Ok(v) => v, Err(_) => { assert(false); 0 } };
        if t >= t0 && t < t1 {
            let f = match read_u16(bytes, o + 8) { Ok(v) => v, Err(_) => { assert(false); 0 } };
            let hash = match read_u64(bytes, o + 12) { Ok(v) => v, Err(_) => { assert(false); 0 } };
            prints.push(Fingerprint { hash, t, f });
        }
        proof {
            assert(forward_at(b, *h, index as int).resource_id == id);
        }
        index = index + 1;
    }
    Ok(prints)
}


// ---------------------------------------------------------------------------------------
// What a read gives back of a write
// ---------------------------------------------------------------------------------------
pub open spec fn stored_hit_of(p: FullPosting) -> StoredHit {
    StoredHit { resource_id: p.resource_id, t: p.t, f: p.f, matched_hash: p.hash }
}

/// The postings whose hash lies in `[start, stop]`, in sequence order, as lookup hits.
pub open spec fn postings_in_range(s: Seq<FullPosting>, start: u64, stop: u64) -> Seq<StoredHit>
    decreases s.len(),
{
    if s.len() == 0 {
        Seq::empty()
    } else {
        postings_in_range(s.drop_last(), start, stop) + if start <= s.last().hash <= stop {
            seq![stored_hit_of(s.last())]
        } else {
            Seq::empty()
        }
    }
}

/// The postings whose time lies in `[t0, t1)`, in sequence order, as fingerprints.
pub open spec fn prints_in_window(s: Seq<FullPosting>, t0: u32, t1: u32) -> Seq<Fingerprint>
    decreases s.len(),
{
    if s.len() == 0 {
        Seq::empty()
    } else {
        prints_in_window(s.drop_last(), t0, t1) + if t0 <= s.last().t < t1 {
            seq![Fingerprint { hash: s.last().hash, t: s.last().t, f: s.last().f }]
        } else {
            Seq::empty()
        }
    }
}

/// Size bound under which every offset of a shard image fits in 64 bits.
pub open spec fn image_fits(forward: nat, inverted: nat) -> bool {
    HEADER_SIZE + forward * FORWARD_SIZE + inverted * HASH_INDEX_SIZE + inverted * HIT_SIZE <= u64::MAX
}

proof fn lemma_run_index_shape(s: Seq<FullPosting>)
    requires
        s.len() <= u64::MAX,
    ensures
        forall|k: int| 0 <= k < run_index(s).len() ==> #[trigger] run_index(s)[k].hit_start + run_index(s)[k].hit_count <= s.len(),
        s.len() > 0 ==> run_index(s).len() > 0 && run_index(s).last().hash == s.last().hash
            && run_index(s).last().hit_start + run_index(s).last().hit_count == s.len(),
        run_index(s).len() <= s.len(),
    decreases s.len(),
{
    if s.len() > 0 {
        lemma_run_index_shape(s.drop_last());
    }
}

proof fn lemma_run_index_sorted(s: Seq<FullPosting>)
    requires
        s.len() <= u64::MAX,
        inverted_ordered(s),
    ensures
        forall|i: int, j: int| 0 <= i < j < run_index(s).len() ==> #[trigger] run_index(s)[i].hash < #[trigger] run_index(s)[j].hash,
    decreases s.len(),
{
    if s.len() > 0 {
        let p = s.drop_last();
        assert(inverted_ordered(p)) by {
            assert forall|i: int, j: int| 0 <= i < j < p.len() implies inverted_key_le(#[trigger] p[i], #[trigger] p[j]) by {
                assert(s[i] == p[i] && s[j] == p[j]);
            }
        }
        lemma_run_index_sorted(p);
        lemma_run_index_shape(p);
        if p.len() > 0 {
            assert(inverted_key_le(s[p.len() - 1], s[s.len() - 1]));
        }
    }
}

/// Hits of the first `n` entries of `index` over postings `s`, as a reader decodes them.
pub open spec fn entries_hits(s: Seq<FullPosting>, index: Seq<IndexEntry>, start: u64, stop: u64, n: int) -> Seq<StoredHit>
    decreases n,
{
    if n <= 0 {
        Seq::empty()
    } else {
        let e = index[n - 1];
        entries_hits(s, index, start, stop, n - 1) + if start <= e.hash <= stop {
            Seq::new(e.hit_count as nat, |j: int| StoredHit { matched_hash: e.hash, ..stored_hit_of(s[e.hit_start + j]) })
        } else {
            Seq::empty()
        }
    }
}

proof fn lemma_entries_hits_frame(s: Seq<FullPosting>, t: Seq<FullPosting>, a: Seq<IndexEntry>, c: Seq<IndexEntry>, start: u64, stop: u64, n: int)
    requires
        0 <= n <= a.len(),
        n <= c.len(),
        forall|k: int| 0 <= k < n ==> #[trigger] a[k] == c[k],
        forall|k: int| 0 <= k < n ==> #[trigger] a[k].hit_start + a[k].hit_count <= s.len(),
        s.len() <= t.len(),
        forall|j: int| 0 <= j < s.len() ==> #[trigger] s[j] == t[j],
    ensures
        entries_hits(s, a, start, stop, n) == entries_hits(t, c, start, stop, n),
    decreases n,
{
    if n > 0 {
        lemma_entries_hits_frame(s, t, a, c, start, stop, n - 1);
        let e = a[n - 1];
        assert(Seq::new(e.hit_count as nat, |j: int| StoredHit { matched_hash: e.hash, ..stored_hit_of(s[e.hit_start + j]) })
            =~= Seq::new(e.hit_count as nat, |j: int| StoredHit { matched_hash: e.hash, ..stored_hit_of(t[e.hit_start + j]) }));
    }
}

proof fn lemma_entries_hits_runs(s: Seq<FullPosting>, start: u64, stop: u64)
    requires
        s.len() <= u64::MAX,
    ensures
        entries_hits(s, run_index(s), start, stop, run_index(s).len() as int) == postings_in_range(s, start, stop),
    decreases s.len(),
{
    if s.len() > 0 {
        let p = s.drop_last();
        let x = s.last();
        let pi = run_index(p);
        let r = run_index(s);
        lemma_run_index_shape(p);
        lemma_run_index_shape(s);
        lemma_entries_hits_runs(p, start, stop);
        if pi.len() > 0 && pi.last().hash == x.hash {
            let n = pi.len() as int;
            lemma_entries_hits_frame(p, s, pi, r, start, stop, n - 1);
            let e = pi.last();
            let e2 = r[n - 1];
            assert(e2.hit_start + e2.hit_count == s.len());
            let old_hits = Seq::new(e.hit_count as nat, |j: int| StoredHit { matched_hash: e.hash, ..stored_hit_of(p[e.hit_start + j]) });
            let new_hits = Seq::new(e2.hit_count as nat, |j: int| StoredHit { matched_hash: e2.hash, ..stored_hit_of(s[e2.hit_start + j]) });
            assert(new_hits =~= old_hits.push(stored_hit_of(x)));
            assert(entries_hits(s, r, start, stop, n) == entries_hits(s, r, start, stop, n - 1) + if start <= e2.hash <= stop { new_hits } else { Seq::empty() });
            assert(entries_hits(p, pi, start, stop, n) == entries_hits(p, pi, start, stop, n - 1) + if start <= e.hash <= stop { old_hits } else { Seq::empty() });
            if start <= x.hash <= stop {
                assert(entries_hits(s, r, start, stop, n) =~= entries_hits(p, pi, start, stop, n).push(stored_hit_of(x)));
            } else {
                assert(entries_hits(s, r, start, stop, n) =~= entries_hits(p, pi, start, stop, n));
            }
        } else {
            let n = pi.len() as int;
            lemma_entries_hits_frame(p, s, pi, r, start, stop, n);
            let e2 = r[n];
            let new_hits = Seq::new(e2.hit_count as nat, |j: int| StoredHit { matched_hash: e2.hash, ..stored_hit_of(s[e2.hit_start + j]) });
            assert(new_hits =~= seq![stored_hit_of(x)]);
            assert(entries_hits(s, r, start, stop, n + 1) == entries_hits(s, r, start, stop, n) + if start <= e2.hash <= stop { new_hits } else { Seq::empty() });
        }
    }
}

proof fn lemma_forward_record_fields(b: Seq<u8>, o: int, p: FullPosting)
    requires
        0 <= o,
        o + FORWARD_SIZE <= b.len(),
        b.subrange(o, o + FORWARD_SIZE) == forward_record(p),
    ensures
        le_u32_at(b, o) == p.resource_id,
        le_u32_at(b, o + 4) == p.t,
        le_u16_at(b, o + 8) == p.f,
        le_u64_at(b, o + 12) == p.hash,
{
    lemma_le_roundtrips();
    let r = forward_record(p);
    lemma_window(b, o, r, 0, 4);
    lemma_window(b, o, r, 4, 4);
    lemma_window(b, o, r, 8, 2);
    lemma_window(b, o, r, 12, 8);
    assert(r.subrange(0, 4) =~= spec_u32_to_le_bytes(p.resource_id));
    assert(r.subrange(4, 8) =~= spec_u32_to_le_bytes(p.t));
    assert(r.subrange(8, 10) =~= spec_u16_to_le_bytes(p.f));
    assert(r.subrange(12, 20) =~= spec_u64_to_le_bytes(p.hash));
}

proof fn lemma_hit_record_fields(b: Seq<u8>, o: int, p: FullPosting)
    requires
        0 <= o,
        o + HIT_SIZE <= b.len(),
        b.subrange(o, o + HIT_SIZE) == hit_record(p),
    ensures
        le_u32_at(b, o) == p.resource_id,
        le_u32_at(b, o + 4) == p.t,
        le_u16_at(b, o + 8) == p.f,
{
    lemma_le_roundtrips();
    let r = hit_record(p);
    lemma_window(b, o, r, 0, 4);
    lemma_window(b, o, r, 4, 4);
    lemma_window(b, o, r, 8, 2);
    assert(r.subrange(0, 4) =~= spec_u32_to_le_bytes(p.resource_id));
    assert(r.subrange(4, 8) =~= spec_u32_to_le_bytes(p.t));
    assert(r.subrange(8, 10) =~= spec_u16_to_le_bytes(p.f));
}

proof fn lemma_index_record_fields(b: Seq<u8>, o: int, e: IndexEntry)
    requires
        0 <= o,
        o + HASH_INDEX_SIZE <= b.len(),
        b.subrange(o, o + HASH_INDEX_SIZE) == index_record(e),
    ensures
        le_u64_at(b, o) == e.hash,
        le_u64_at(b, o + 8) == e.hit_start,
        le_u64_at(b, o + 16) == e.hit_count,
{
    lemma_le_roundtrips();
    let r = index_record(e);
    lemma_window(b, o, r, 0, 8);
    lemma_window(b, o, r, 8, 8);
    lemma_window(b, o, r, 16, 8);
    assert(r.subrange(0, 8) =~= spec_u64_to_le_bytes(e.hash));
    assert(r.subrange(8, 16) =~= spec_u64_to_le_bytes(e.hit_start));
    assert(r.subrange(16, 24) =~= spec_u64_to_le_bytes(e.hit_count));
}

/// The image's header, record regions and entries decode to what was written.
pub proof fn lemma_image_decodes(number: u32, forward: Seq<FullPosting>, inverted: Seq<FullPosting>)
    requires
        image_fits(forward.len(), inverted.len()),
    ensures
        ({
            let b = shard_image(number, forward, inverted);
            let index = run_index(inverted);
            let h = header_at(b);
            &&& h == layout(forward.len(), index.len(), inverted.len())
            &&& b.len() >= HEADER_SIZE
            &&& b.subrange(0, 8) == magic()
            &&& le_u32_at(b, 8) == STORE_VERSION
            &&& le_u32_at(b, 12) == number
            &&& regions_fit(b.len(), h)
            &&& forall|i: int| 0 <= i < forward.len() ==> #[trigger] forward_at(b, h, i) == forward[i]
            &&& forall|i: int| 0 <= i < index.len() ==> #[trigger] index_at(b, h, i) == index[i]
            &&& forall|j: int, hash: u64| 0 <= j < inverted.len() ==> #[trigger] hit_at(b, h, j, hash)
                == (StoredHit { matched_hash: hash, ..stored_hit_of(inverted[j]) })
        }),
{
    lemma_le_roundtrips();
    lemma_run_index_shape(inverted);
    let index = run_index(inverted);
    let hd = layout(forward.len(), index.len(), inverted.len());
    let hb = header_bytes(number, hd);
    let fr = records(forward, |p: FullPosting| forward_record(p));
    let ir = records(index, |e: IndexEntry| index_record(e));
    let xr = records(inverted, |p: FullPosting| hit_record(p));
    let b = shard_image(number, forward, inverted);
    assert(b == hb + fr + ir + xr);
    lemma_header_len(number, hd);
    assert forall|p: FullPosting| #[trigger] forward_record(p).len() == FORWARD_SIZE by {}
    assert forall|p: FullPosting| #[trigger] hit_record(p).len() == HIT_SIZE by {}
    assert forall|e: IndexEntry| #[trigger] index_record(e).len() == HASH_INDEX_SIZE by {}
    lemma_records(forward, |p: FullPosting| forward_record(p), FORWARD_SIZE as int, 0);
    lemma_records(index, |e: IndexEntry| index_record(e), HASH_INDEX_SIZE as int, 0);
    lemma_records(inverted, |p: FullPosting| hit_record(p), HIT_SIZE as int, 0);
    // header fields
    assert(b.subrange(0, 8) =~= magic());
    assert(b.subrange(8, 12) =~= spec_u32_to_le_bytes(STORE_VERSION));
    assert(b.subrange(12, 16) =~= spec_u32_to_le_bytes(number));
    assert(b.subrange(16, 24) =~= spec_u64_to_le_bytes(hd.forward_offset));
    assert(b.subrange(24, 32) =~= spec_u64_to_le_bytes(hd.forward_count));
    assert(b.subrange(32, 40) =~= spec_u64_to_le_bytes(hd.hash_index_offset));
    assert(b.subrange(40, 48) =~= spec_u64_to_le_bytes(hd.hash_count));
    assert(b.subrange(48, 56) =~= spec_u64_to_le_bytes(hd.hits_offset));
    assert(b.subrange(56, 64) =~= spec_u64_to_le_bytes(hd.hit_count));
    assert(header_at(b) == hd);
    let fo = HEADER_SIZE as int;
    let io = fo + fr.len();
    let xo = io + ir.len();
    assert forall|i: int| 0 <= i < forward.len() implies #[trigger] forward_at(b, hd, i) == forward[i] by {
        lemma_records(forward, |p: FullPosting| forward_record(p), FORWARD_SIZE as int, i);
        assert(i * FORWARD_SIZE + FORWARD_SIZE <= forward.len() * FORWARD_SIZE) by (nonlinear_arith) requires i < forward.len();
        let o = fo + i * FORWARD_SIZE;
        assert(b.subrange(o, o + FORWARD_SIZE) =~= fr.subrange(i * FORWARD_SIZE, i * FORWARD_SIZE + FORWARD_SIZE));
        lemma_forward_record_fields(b, o, forward[i]);
    }
    assert forall|i: int| 0 <= i < index.len() implies #[trigger] index_at(b, hd, i) == index[i] by {
        lemma_records(index, |e: IndexEntry| index_record(e), HASH_INDEX_SIZE as int, i);
        assert(i * HASH_INDEX_SIZE + HASH_INDEX_SIZE <= index.len() * HASH_INDEX_SIZE) by (nonlinear_arith) requires i < index.len();
        let o = io + i * HASH_INDEX_SIZE;
        assert(b.subrange(o, o + HASH_INDEX_SIZE) =~= ir.subrange(i * HASH_INDEX_SIZE, i * HASH_INDEX_SIZE + HASH_INDEX_SIZE));
        lemma_index_record_fields(b, o, index[i]);
    }
    assert forall|j: int, hash: u64| 0 <= j < inverted.len() implies #[trigger] hit_at(b, hd, j, hash)
        == (StoredHit { matched_hash: hash, ..stored_hit_of(inverted[j]) }) by {
        lemma_records(inverted, |p: FullPosting| hit_record(p), HIT_SIZE as int, j);
        assert(j * HIT_SIZE + HIT_SIZE <= inverted.len() * HIT_SIZE) by (nonlinear_arith) requires j < inverted.len();
        let o = xo + j * HIT_SIZE;
        assert(b.subrange(o, o + HIT_SIZE) =~= xr.subrange(j * HIT_SIZE, j * HIT_SIZE + HIT_SIZE));
        lemma_hit_record_fields(b, o, inverted[j]);
    }
}


proof fn lemma_range_hits_decoded(b: Seq<u8>, h: ShardHeader, s: Seq<FullPosting>, index: Seq<IndexEntry>, start: u64, stop: u64, n: int)
    requires
        0 <= n <= index.len(),
        forall|i: int| 0 <= i < index.len() ==> #[trigger] index_at(b, h, i) == index[i],
        forall|k: int| 0 <= k < index.len() ==> #[trigger] index[k].hit_start + index[k].hit_count <= s.len(),
        forall|j: int, hash: u64| 0 <= j < s.len() ==> #[trigger] hit_at(b, h, j, hash)
            == (StoredHit { matched_hash: hash, ..stored_hit_of(s[j]) }),
    ensures
        range_hits(b, h, start, stop, n) == entries_hits(s, index, start, stop, n),
    decreases n,
{
    if n > 0 {
        lemma_range_hits_decoded(b, h, s, index, start, stop, n - 1);
        let e = index[n - 1];
        assert(index_at(b, h, n - 1) == e);
        assert(entry_hits(b, h, e) =~= Seq::new(e.hit_count as nat, |j: int| StoredHit { matched_hash: e.hash, ..stored_hit_of(s[e.hit_start + j]) }));
    }
}

/// A hash-range lookup in a written shard gives back exactly the written postings whose
/// hash lies in the range, in hash order, and the shard passes every check of opening it.
pub proof fn lemma_lookup_reads_back(number: u32, forward: Seq<FullPosting>, inverted: Seq<FullPosting>, start: u64, stop: u64)
    requires
        image_fits(forward.len(), inverted.len()),
        forward.len() == inverted.len(),
        inverted_ordered(inverted),
    ensures
        ({
            let b = shard_image(number, forward, inverted);
            let h = header_at(b);
            &&& shard_acceptable(b, number, inverted.len() as u64, run_index(inverted).len() as u64)
            &&& index_sorted(b, h)
            &&& range_in_bounds(b, h, start, stop)
            &&& range_hits(b, h, start, stop, h.hash_count as int) == postings_in_range(inverted, start, stop)
        }),
{
    lemma_image_decodes(number, forward, inverted);
    lemma_run_index_shape(inverted);
    lemma_run_index_sorted(inverted);
    let b = shard_image(number, forward, inverted);
    let h = header_at(b);
    let index = run_index(inverted);
    assert(index_sorted(b, h)) by {
        assert forall|i: int, j: int| 0 <= i < j < h.hash_count implies #[trigger] index_at(b, h, i).hash < #[trigger] index_at(b, h, j).hash by {
            assert(index[i].hash < index[j].hash);
        }
    }
    lemma_range_hits_decoded(b, h, inverted, index, start, stop, index.len() as int);
    lemma_entries_hits_runs(inverted, start, stop);
}

proof fn lemma_forward_window_decoded(b: Seq<u8>, h: ShardHeader, forward: Seq<FullPosting>, first: int, end: int, t0: u32, t1: u32)
    requires
        0 <= first <= end <= forward.len(),
        forall|i: int| 0 <= i < forward.len() ==> #[trigger] forward_at(b, h, i) == forward[i],
    ensures
        forward_window(b, h, first, end, t0, t1) == prints_in_window(forward.subrange(first, end), t0, t1),
    decreases end - first,
{
    if end > first {
        lemma_forward_window_decoded(b, h, forward, first, end - 1, t0, t1);
        assert(forward.subrange(first, end).drop_last() =~= forward.subrange(first, end - 1));
        assert(forward_at(b, h, end - 1) == forward[end - 1]);
    } else {
        assert(forward.subrange(first, end).len() == 0);
    }
}

/// A forward read of a resource's range in a written shard gives back exactly that range's
/// written postings whose time lies in the window, in forward order.
pub proof fn lemma_forward_reads_back(number: u32, forward: Seq<FullPosting>, inverted: Seq<FullPosting>, first: int, count: int, id: u32, t0: u32, t1: u32)
    requires
        image_fits(forward.len(), inverted.len()),
        0 <= first,
        0 <= count,
        first + count <= forward.len(),
        forall|i: int| first <= i < first + count ==> #[trigger] forward[i].resource_id == id,
    ensures
        ({
            let b = shard_image(number, forward, inverted);
            let h = header_at(b);
            &&& owned_by(b, h, first, first + count, id)
            &&& forward_window(b, h, first, first + count, t0, t1) == prints_in_window(forward.subrange(first, first + count), t0, t1)
        }),
{
    lemma_image_decodes(number, forward, inverted);
    let b = shard_image(number, forward, inverted);
    let h = header_at(b);
    assert forall|i: int| first <= i < first + count implies #[trigger] forward_at(b, h, i).resource_id == id by {
        assert(forward_at(b, h, i) == forward[i]);
    }
    lemma_forward_window_decoded(b, h, forward, first, first + count, t0, t1);
}

} // verus!

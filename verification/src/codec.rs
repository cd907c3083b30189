//! Little-endian fixed-width fields and fixed-size record regions.
use vstd::bytes::*;
use vstd::slice::slice_subrange;
use vstd::prelude::*;

use crate::error::Error;

verus! {

/// The `u16` stored little-endian at byte offset `o`.
pub open spec fn le_u16_at(b: Seq<u8>, o: int) -> u16 {
    spec_u16_from_le_bytes(b.subrange(o, o + 2))
}

/// The `u32` stored little-endian at byte offset `o`.
pub open spec fn le_u32_at(b: Seq<u8>, o: int) -> u32 {
    spec_u32_from_le_bytes(b.subrange(o, o + 4))
}

/// The `u64` stored little-endian at byte offset `o`.
pub open spec fn le_u64_at(b: Seq<u8>, o: int) -> u64 {
    spec_u64_from_le_bytes(b.subrange(o, o + 8))
}

/// Concatenation of one fixed-size encoding per element, in order.
pub open spec fn records<T>(s: Seq<T>, enc: spec_fn(T) -> Seq<u8>) -> Seq<u8>
    decreases s.len(),
{
    if s.len() == 0 {
        Seq::empty()
    } else {
        records(s.drop_last(), enc) + enc(s.last())
    }
}

pub proof fn lemma_le_roundtrips()
    ensures
        forall|x: u16|
            #![trigger spec_u16_to_le_bytes(x)]
            spec_u16_to_le_bytes(x).len() == 2 && spec_u16_from_le_bytes(spec_u16_to_le_bytes(x))
                == x,
        forall|x: u32|
            #![trigger spec_u32_to_le_bytes(x)]
            spec_u32_to_le_bytes(x).len() == 4 && spec_u32_from_le_bytes(spec_u32_to_le_bytes(x))
                == x,
        forall|x: u64|
            #![trigger spec_u64_to_le_bytes(x)]
            spec_u64_to_le_bytes(x).len() == 8 && spec_u64_from_le_bytes(spec_u64_to_le_bytes(x))
                == x,
{
    lemma_auto_spec_u16_to_from_le_bytes();
    lemma_auto_spec_u32_to_from_le_bytes();
    lemma_auto_spec_u64_to_from_le_bytes();
}

/// A read inside a window depends only on the window's bytes.
pub proof fn lemma_window(b: Seq<u8>, o: int, r: Seq<u8>, d: int, w: int)
    requires
        0 <= o,
        o + r.len() <= b.len(),
        b.subrange(o, o + r.len()) == r,
        0 <= d,
        d + w <= r.len(),
        0 <= w,
    ensures
        b.subrange(o + d, o + d + w) == r.subrange(d, d + w),
{
    assert forall|k: int| 0 <= k < w implies #[trigger] b[o + d + k] == r[d + k] by {
        assert(b.subrange(o, o + r.len())[d + k] == b[o + d + k]);
    }
    assert(b.subrange(o + d, o + d + w) =~= r.subrange(d, d + w));
}

/// Length and per-element windows of a fixed-size record region.
pub proof fn lemma_records<T>(s: Seq<T>, enc: spec_fn(T) -> Seq<u8>, n: int, k: int)
    requires
        forall|x: T| #[trigger] enc(x).len() == n,
        0 <= n,
    ensures
        records(s, enc).len() == s.len() * n,
        0 <= k < s.len() ==> records(s, enc).subrange(k * n, k * n + n) == enc(s[k]),
    decreases s.len(),
{
    if s.len() > 0 {
        let p = s.drop_last();
        lemma_records(p, enc, n, k);
        assert(records(s, enc) == records(p, enc) + enc(s.last()));
        assert(s.len() * n == p.len() * n + n) by (nonlinear_arith)
            requires
                s.len() == p.len() + 1,
        ;
        if 0 <= k < p.len() {
            assert(k * n + n <= p.len() * n) by (nonlinear_arith)
                requires
                    k + 1 <= p.len(),
                    0 <= n,
            ;
            assert(records(s, enc).subrange(k * n, k * n + n) =~= records(p, enc).subrange(
                k * n,
                k * n + n,
            ));
        } else if k == p.len() {
            assert(records(s, enc).subrange(k * n, k * n + n) =~= enc(s[k]));
        }
    }
}

/// Appending to a record region extends the sequence of records by one.
pub proof fn lemma_records_push<T>(s: Seq<T>, x: T, enc: spec_fn(T) -> Seq<u8>)
    ensures
        records(s.push(x), enc) == records(s, enc) + enc(x),
{
    assert(s.push(x).drop_last() =~= s);
}

pub fn push_u16(out: &mut Vec<u8>, x: u16)
    ensures
        final(out)@ == old(out)@ + spec_u16_to_le_bytes(x),
{
    let mut b = u16_to_le_bytes(x);
    out.append(&mut b);
}

pub fn push_u32(out: &mut Vec<u8>, x: u32)
    ensures
        final(out)@ == old(out)@ + spec_u32_to_le_bytes(x),
{
    let mut b = u32_to_le_bytes(x);
    out.append(&mut b);
}

pub fn push_u64(out: &mut Vec<u8>, x: u64)
    ensures
        final(out)@ == old(out)@ + spec_u64_to_le_bytes(x),
{
    let mut b = u64_to_le_bytes(x);
    out.append(&mut b);
}

/// `write_u64_to` of the shard writer: the eight little-endian bytes of `value`.
pub fn write_u64_to(out: &mut Vec<u8>, value: u64)
    ensures
        final(out)@ == old(out)@ + spec_u64_to_le_bytes(value),
        final(out)@.len() == old(out)@.len() + 8,
        le_u64_at(final(out)@, old(out)@.len() as int) == value,
{
    proof {
        lemma_le_roundtrips();
    }
    push_u64(out, value);
    assert(out@.subrange(old(out)@.len() as int, old(out)@.len() as int + 8) =~= spec_u64_to_le_bytes(
        value,
    ));
}

fn end_of_shard() -> (e: Error)
    ensures
        e matches Error::InvalidStore(m) && m@ == "unexpected end of shard"@,
{
    Error::InvalidStore(crate::text::literal("unexpected end of shard"))
}

/// The little-endian `u16` at `offset`, or `InvalidStore` when it would run past the end.
pub fn read_u16(bytes: &[u8], offset: usize) -> (r: Result<u16, Error>)
    ensures
        match r {
            Ok(v) => offset + 2 <= bytes@.len() && v == le_u16_at(bytes@, offset as int),
            Err(e) => offset + 2 > bytes@.len() && (e matches Error::InvalidStore(m) && m@ == "unexpected end of shard"@),
        },
{
    if offset > bytes.len() || bytes.len() - offset < 2 {
        return Err(end_of_shard());
    }
    let window = slice_subrange(bytes, offset, offset + 2);
    Ok(u16_from_le_bytes(window))
}

/// The little-endian `u32` at `offset`, or `InvalidStore` when it would run past the end.
pub fn read_u32(bytes: &[u8], offset: usize) -> (r: Result<u32, Error>)
    ensures
        match r {
            Ok(v) => offset + 4 <= bytes@.len() && v == le_u32_at(bytes@, offset as int),
            Err(e) => offset + 4 > bytes@.len() && (e matches Error::InvalidStore(m) && m@ == "unexpected end of shard"@),
        },
{
    if offset > bytes.len() || bytes.len() - offset < 4 {
        return Err(end_of_shard());
    }
    let window = slice_subrange(bytes, offset, offset + 4);
    Ok(u32_from_le_bytes(window))
}

/// The little-endian `u64` at `offset`, or `InvalidStore` when it would run past the end.
pub fn read_u64(bytes: &[u8], offset: usize) -> (r: Result<u64, Error>)
    ensures
        match r {
            Ok(v) => offset + 8 <= bytes@.len() && v == le_u64_at(bytes@, offset as int),
            Err(e) => offset + 8 > bytes@.len() && (e matches Error::InvalidStore(m) && m@ == "unexpected end of shard"@),
        },
{
    if offset > bytes.len() || bytes.len() - offset < 8 {
        return Err(end_of_shard());
    }
    let window = slice_subrange(bytes, offset, offset + 8);
    Ok(u64_from_le_bytes(window))
}

/// `offset + count * size`, or `InvalidStore` when that overflows 64 bits.
pub fn checked_region(offset: u64, count: u64, size: u64) -> (r: Result<u64, Error>)
    ensures
        match r {
            Ok(end) => count * size <= u64::MAX && offset + count * size <= u64::MAX && end
                == offset + count * size,
            Err(e) => (count * size > u64::MAX || offset + count * size > u64::MAX)
                && (e matches Error::InvalidStore(m) && m@ == "store region overflow"@),
        },
{
    match count.checked_mul(size) {
        Some(length) => match offset.checked_add(length) {
            Some(end) => Ok(end),
            None => Err(Error::InvalidStore(crate::text::literal("store region overflow"))),
        },
        None => Err(Error::InvalidStore(crate::text::literal("store region overflow"))),
    }
}

} // verus!

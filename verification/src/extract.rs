//! The integer half of fingerprint extraction: frame counts, and packing event points into
//! landmark prints. The spectral analysis and peak picking are floating point and are the
//! caller's.
use vstd::prelude::*;

use crate::config::MAX_HASH;
use crate::fingerprint::Fingerprint;

verus! {

pub const HOP: usize = 128;
pub const AUDIO_BLOCK: usize = 8192;
pub const TIME_FILTER: usize = 25;
pub const MIN_TIME_DISTANCE: u32 = 2;
pub const MAX_TIME_DISTANCE: u32 = 33;
pub const MIN_FREQUENCY_DISTANCE: u16 = 1;
pub const MAX_FREQUENCY_DISTANCE: u16 = 128;
pub const ANALYSIS_SUPPORT: usize = 12469;

/// A spectral peak: its time frame, its frequency band, and a key that orders peaks as their
/// magnitudes do (for the non-negative magnitudes extraction produces, the bit pattern of
/// the `f32` magnitude).
#[derive(Clone, Copy, Debug, PartialEq, Eq, Structural)]
pub struct EventPoint {
    pub t: u32,
    pub f: u16,
    pub magnitude_key: u32,
}

/// The number of analysis frames extraction reads from `n` samples, or 0 when the audio is
/// too short to hold a single print.
pub open spec fn spec_frame_count(n: nat) -> nat {
    if n < HOP * TIME_FILTER {
        0
    } else {
        let padded: int = ((n + AUDIO_BLOCK - 1) / (AUDIO_BLOCK as int)) * AUDIO_BLOCK;
        let ring: int = (ANALYSIS_SUPPORT + 2 * AUDIO_BLOCK) / (HOP as int);
        let available: int = if padded > ANALYSIS_SUPPORT + 1 { (padded - (ANALYSIS_SUPPORT + 1)) / (HOP as int) } else { 0 };
        let frames: int = if available > ring { available - ring } else { 0 };
        if frames < TIME_FILTER { 0 } else { frames as nat }
    }
}

/// Frames of analysis for `n` samples (the frame arithmetic of `extract_samples`).
pub fn frame_count(n: usize) -> (frames: usize)
    requires
        n <= usize::MAX - AUDIO_BLOCK,
    ensures
        frames == spec_frame_count(n as nat),
{
    if n < HOP * TIME_FILTER {
        return 0;
    }
    let blocks = (n + AUDIO_BLOCK - 1) / AUDIO_BLOCK;
    assert(blocks * AUDIO_BLOCK <= n + AUDIO_BLOCK) by (nonlinear_arith)
        requires
            blocks == (n + AUDIO_BLOCK - 1) / AUDIO_BLOCK as int,
    ;
    let padded = blocks * AUDIO_BLOCK;
    let ring = (ANALYSIS_SUPPORT + 2 * AUDIO_BLOCK) / HOP;
    let available = padded.saturating_sub(ANALYSIS_SUPPORT + 1) / HOP;
    let frames = available.saturating_sub(ring);
    if frames < TIME_FILTER {
        0
    } else {
        frames
    }
}

/// Two peaks' bands are close enough to pair: 1 to 128 bands apart.
pub open spec fn spec_frequency_distance(a: u16, b: u16) -> bool {
    let d = if a >= b { a - b } else { b - a };
    MIN_FREQUENCY_DISTANCE <= d <= MAX_FREQUENCY_DISTANCE
}

pub fn frequency_distance(a: u16, b: u16) -> (r: bool)
    ensures
        r == spec_frequency_distance(a, b),
{
    let d = if a >= b { a - b } else { b - a };
    MIN_FREQUENCY_DISTANCE <= d && d <= MAX_FREQUENCY_DISTANCE
}

pub open spec fn bit(b: bool) -> u64 {
    if b { 1 } else { 0 }
}

pub open spec fn abs_diff(a: u16, b: u16) -> u16 {
    if a >= b { (a - b) as u16 } else { (b - a) as u16 }
}

/// Panako's 34-bit landmark hash of three peaks in time order: the time ratio in 64ths,
/// the directions of the frequency, magnitude and spacing steps, the first band's range,
/// and the two band distances in quarters.
pub open spec fn spec_landmark_hash(a: EventPoint, b: EventPoint, c: EventPoint) -> u64 {
    let ratio = ((64 * (b.t - a.t)) / (c.t - a.t)) as u64;
    let f1_range = (a.f >> 5u16) as u64;
    let df2f1 = (abs_diff(b.f, a.f) >> 2u16) as u64;
    let df3f2 = (abs_diff(c.f, b.f) >> 2u16) as u64;
    (ratio & 0x3f) | (bit(a.f > b.f) << 6u64) | (bit(b.f > c.f) << 7u64) | (bit(c.f > a.f) << 8u64)
        | (bit(a.magnitude_key > b.magnitude_key) << 9u64) | (bit(b.magnitude_key > c.magnitude_key) << 10u64)
        | (bit(c.magnitude_key > a.magnitude_key) << 11u64) | (bit(b.t - a.t > c.t - b.t) << 12u64)
        | (bit(abs_diff(b.f, a.f) > abs_diff(c.f, b.f)) << 13u64) | ((f1_range & 0xff) << 14u64)
        | ((df2f1 & 0x3f) << 22u64) | ((df3f2 & 0x3f) << 28u64)
}

proof fn lemma_hash_fits(r: u64, b6: u64, b7: u64, b8: u64, b9: u64, b10: u64, b11: u64, b12: u64, b13: u64, f1: u64, d1: u64, d2: u64)
    requires
        b6 <= 1 && b7 <= 1 && b8 <= 1 && b9 <= 1 && b10 <= 1 && b11 <= 1 && b12 <= 1 && b13 <= 1,
    ensures
        (r & 0x3f) | (b6 << 6u64) | (b7 << 7u64) | (b8 << 8u64) | (b9 << 9u64) | (b10 << 10u64) | (b11 << 11u64)
            | (b12 << 12u64) | (b13 << 13u64) | ((f1 & 0xff) << 14u64) | ((d1 & 0x3f) << 22u64) | ((d2 & 0x3f) << 28u64)
            <= 0x3_ffff_ffff,
{
    assert((r & 0x3f) | (b6 << 6u64) | (b7 << 7u64) | (b8 << 8u64) | (b9 << 9u64) | (b10 << 10u64) | (b11 << 11u64)
        | (b12 << 12u64) | (b13 << 13u64) | ((f1 & 0xff) << 14u64) | ((d1 & 0x3f) << 22u64) | ((d2 & 0x3f) << 28u64)
        <= 0x3_ffff_ffff) by (bit_vector)
        requires
            b6 <= 1 && b7 <= 1 && b8 <= 1 && b9 <= 1 && b10 <= 1 && b11 <= 1 && b12 <= 1 && b13 <= 1,
    ;
}

/// Every landmark hash fits the 34 bits the store accepts.
pub proof fn lemma_landmark_hash_fits(a: EventPoint, b: EventPoint, c: EventPoint)
    requires
        a.t < b.t < c.t,
    ensures
        spec_landmark_hash(a, b, c) <= MAX_HASH,
{
    let ratio = ((64 * (b.t - a.t)) / (c.t - a.t)) as u64;
    let f1_range = (a.f >> 5u16) as u64;
    let df2f1 = (abs_diff(b.f, a.f) >> 2u16) as u64;
    let df3f2 = (abs_diff(c.f, b.f) >> 2u16) as u64;
    lemma_hash_fits(
        ratio,
        bit(a.f > b.f),
        bit(b.f > c.f),
        bit(c.f > a.f),
        bit(a.magnitude_key > b.magnitude_key),
        bit(b.magnitude_key > c.magnitude_key),
        bit(c.magnitude_key > a.magnitude_key),
        bit(b.t - a.t > c.t - b.t),
        bit(abs_diff(b.f, a.f) > abs_diff(c.f, b.f)),
        f1_range,
        df2f1,
        df3f2,
    );
}

proof fn lemma_hash_fields(r: u64, b6: u64, b7: u64, b8: u64, b9: u64, b10: u64, b11: u64, b12: u64, b13: u64, f1: u64, d1: u64, d2: u64)
    requires
        b6 <= 1 && b7 <= 1 && b8 <= 1 && b9 <= 1 && b10 <= 1 && b11 <= 1 && b12 <= 1 && b13 <= 1,
    ensures
        ({
            let h = (r & 0x3f) | (b6 << 6u64) | (b7 << 7u64) | (b8 << 8u64) | (b9 << 9u64) | (b10 << 10u64) | (b11 << 11u64)
                | (b12 << 12u64) | (b13 << 13u64) | ((f1 & 0xff) << 14u64) | ((d1 & 0x3f) << 22u64) | ((d2 & 0x3f) << 28u64);
            &&& h & 0x3f == r % 64
            &&& (h >> 6u64) & 1 == b6
            &&& (h >> 7u64) & 1 == b7
            &&& (h >> 8u64) & 1 == b8
            &&& (h >> 9u64) & 1 == b9
            &&& (h >> 10u64) & 1 == b10
            &&& (h >> 11u64) & 1 == b11
            &&& (h >> 12u64) & 1 == b12
            &&& (h >> 13u64) & 1 == b13
            &&& (h >> 14u64) & 0xff == f1 % 256
            &&& (h >> 22u64) & 0x3f == d1 % 64
            &&& (h >> 28u64) & 0x3f == d2 % 64
            &&& h >> 34u64 == 0
        }),
{
    assert({
        let h = (r & 0x3f) | (b6 << 6u64) | (b7 << 7u64) | (b8 << 8u64) | (b9 << 9u64) | (b10 << 10u64) | (b11 << 11u64)
            | (b12 << 12u64) | (b13 << 13u64) | ((f1 & 0xff) << 14u64) | ((d1 & 0x3f) << 22u64) | ((d2 & 0x3f) << 28u64);
        &&& h & 0x3f == r % 64
        &&& (h >> 6u64) & 1 == b6
        &&& (h >> 7u64) & 1 == b7
        &&& (h >> 8u64) & 1 == b8
        &&& (h >> 9u64) & 1 == b9
        &&& (h >> 10u64) & 1 == b10
        &&& (h >> 11u64) & 1 == b11
        &&& (h >> 12u64) & 1 == b12
        &&& (h >> 13u64) & 1 == b13
        &&& (h >> 14u64) & 0xff == f1 % 256
        &&& (h >> 22u64) & 0x3f == d1 % 64
        &&& (h >> 28u64) & 0x3f == d2 % 64
        &&& h >> 34u64 == 0
    }) by (bit_vector)
        requires
            b6 <= 1 && b7 <= 1 && b8 <= 1 && b9 <= 1 && b10 <= 1 && b11 <= 1 && b12 <= 1 && b13 <= 1,
    ;
}

/// What each field of a landmark hash says of its three peaks (in time order): the low six
/// bits are `64 (t2 - t1) / (t3 - t1)` rounded down, modulo 64; bits 6 to 8 say whether the
/// band falls from the first to the second peak, from the second to the third, and rises
/// from the first to the third; bits 9 to 11 do the same for magnitudes; bit 12 is set
/// exactly when the first spacing is strictly longer than the second; bit 13 exactly when
/// the first band step is strictly larger than the second; bits 14 to 21 hold the first
/// band over 32, bits 22 to 27 and 28 to 33 the two band steps over 4 (each modulo its
/// width); nothing lies above bit 33.
pub proof fn lemma_landmark_hash_fields(a: EventPoint, b: EventPoint, c: EventPoint)
    requires
        a.t < b.t < c.t,
    ensures
        ({
            let h = spec_landmark_hash(a, b, c);
            let step1: int = if b.f >= a.f { b.f - a.f } else { a.f - b.f };
            let step2: int = if c.f >= b.f { c.f - b.f } else { b.f - c.f };
            &&& h & 0x3f == ((64 * (b.t - a.t)) / (c.t - a.t)) % 64
            &&& ((h >> 6u64) & 1 == 1 <==> a.f > b.f)
            &&& ((h >> 7u64) & 1 == 1 <==> b.f > c.f)
            &&& ((h >> 8u64) & 1 == 1 <==> c.f > a.f)
            &&& ((h >> 9u64) & 1 == 1 <==> a.magnitude_key > b.magnitude_key)
            &&& ((h >> 10u64) & 1 == 1 <==> b.magnitude_key > c.magnitude_key)
            &&& ((h >> 11u64) & 1 == 1 <==> c.magnitude_key > a.magnitude_key)
            &&& ((h >> 12u64) & 1 == 1 <==> b.t - a.t > c.t - b.t)
            &&& ((h >> 13u64) & 1 == 1 <==> step1 > step2)
            &&& (h >> 14u64) & 0xff == (a.f / 32) % 256
            &&& (h >> 22u64) & 0x3f == (step1 / 4) % 64
            &&& (h >> 28u64) & 0x3f == (step2 / 4) % 64
            &&& h >> 34u64 == 0
        }),
{
    let ratio = ((64 * (b.t - a.t)) / (c.t - a.t)) as u64;
    let f1_range = (a.f >> 5u16) as u64;
    let df2f1 = (abs_diff(b.f, a.f) >> 2u16) as u64;
    let df3f2 = (abs_diff(c.f, b.f) >> 2u16) as u64;
    lemma_hash_fields(
        ratio,
        bit(a.f > b.f),
        bit(b.f > c.f),
        bit(c.f > a.f),
        bit(a.magnitude_key > b.magnitude_key),
        bit(b.magnitude_key > c.magnitude_key),
        bit(c.magnitude_key > a.magnitude_key),
        bit(b.t - a.t > c.t - b.t),
        bit(abs_diff(b.f, a.f) > abs_diff(c.f, b.f)),
        f1_range,
        df2f1,
        df3f2,
    );
    let af = a.f;
    let d1 = abs_diff(b.f, a.f);
    let d2 = abs_diff(c.f, b.f);
    assert(af >> 5u16 == af / 32) by (bit_vector);
    assert(d1 >> 2u16 == d1 / 4) by (bit_vector);
    assert(d2 >> 2u16 == d2 / 4) by (bit_vector);
    let n: int = 64 * (b.t - a.t);
    let q: int = c.t - a.t;
    assert(0 <= n / q <= n) by (nonlinear_arith)
        requires
            0 <= n,
            q >= 1,
    ;
}

fn flag(b: bool) -> (r: u64)
    ensures
        r == bit(b),
{
    if b { 1 } else { 0 }
}

/// The landmark hash of three peaks in time order. The time ratio is
/// `64 (t2 - t1) / (t3 - t1)` rounded down, which is what single-precision division,
/// scaling and truncation give for the spacings of paired peaks (at most 66 frames).
pub fn landmark_hash(a: EventPoint, b: EventPoint, c: EventPoint) -> (h: u64)
    requires
        a.t < b.t < c.t,
    ensures
        h == spec_landmark_hash(a, b, c),
        h <= MAX_HASH,
{
    proof {
        lemma_landmark_hash_fits(a, b, c);
    }
    let d21 = (b.t - a.t) as u64;
    let d31 = (c.t - a.t) as u64;
    let ratio = (64 * d21) / d31;
    let f1_range = (a.f >> 5) as u64;
    let fd21 = if b.f >= a.f { b.f - a.f } else { a.f - b.f };
    let fd32 = if c.f >= b.f { c.f - b.f } else { b.f - c.f };
    let df2f1 = (fd21 >> 2) as u64;
    let df3f2 = (fd32 >> 2) as u64;
    (ratio & 0x3f) | (flag(a.f > b.f) << 6) | (flag(b.f > c.f) << 7) | (flag(c.f > a.f) << 8)
        | (flag(a.magnitude_key > b.magnitude_key) << 9) | (flag(b.magnitude_key > c.magnitude_key) << 10)
        | (flag(c.magnitude_key > a.magnitude_key) << 11) | (flag(b.t - a.t > c.t - b.t) << 12)
        | (flag(fd21 > fd32) << 13) | ((f1_range & 0xff) << 14) | ((df2f1 & 0x3f) << 22) | ((df3f2 & 0x3f) << 28)
}

/// The prints of first peak `i`, second peak `j` and third peaks from `k` on, until the third
/// peak lies more than `MAX_TIME_DISTANCE` frames after the second.
pub open spec fn thirds(e: Seq<EventPoint>, i: int, j: int, k: int) -> Seq<Fingerprint>
    decreases e.len() - k,
{
    if k < 0 || k >= e.len() || e[k].t - e[j].t > MAX_TIME_DISTANCE {
        Seq::empty()
    } else {
        let dt = e[k].t - e[j].t;
        (if dt >= MIN_TIME_DISTANCE && spec_frequency_distance(e[j].f, e[k].f) {
            seq![Fingerprint { hash: spec_landmark_hash(e[i], e[j], e[k]), t: e[i].t, f: e[i].f }]
        } else {
            Seq::empty()
        }) + thirds(e, i, j, k + 1)
    }
}

/// The prints of first peak `i` with second peaks from `j` on, until the second peak lies
/// more than `MAX_TIME_DISTANCE` frames after the first.
pub open spec fn seconds(e: Seq<EventPoint>, i: int, j: int) -> Seq<Fingerprint>
    decreases e.len() - j,
{
    if j < 0 || j >= e.len() || e[j].t - e[i].t > MAX_TIME_DISTANCE {
        Seq::empty()
    } else {
        let dt = e[j].t - e[i].t;
        (if dt >= MIN_TIME_DISTANCE && spec_frequency_distance(e[i].f, e[j].f) {
            thirds(e, i, j, j + 1)
        } else {
            Seq::empty()
        }) + seconds(e, i, j + 1)
    }
}

/// The prints of first peaks from `i` on.
pub open spec fn firsts(e: Seq<EventPoint>, i: int) -> Seq<Fingerprint>
    decreases e.len() - i,
{
    if i < 0 || i >= e.len() {
        Seq::empty()
    } else {
        seconds(e, i, i + 1) + firsts(e, i + 1)
    }
}

/// Peaks in time order.
pub open spec fn time_sorted(e: Seq<EventPoint>) -> bool {
    forall|a: int, b: int| 0 <= a < b < e.len() ==> #[trigger] e[a].t <= #[trigger] e[b].t
}

/// Pairs peaks into triples and hashes them: for each first peak, each
/// later second peak 2 to 33 frames on and 1 to 128 bands away, and each later third peak
/// as far from the second, one print at the first peak's time and band.
pub fn pack_event_points(events: &Vec<EventPoint>) -> (prints: Vec<Fingerprint>)
    requires
        time_sorted(events@),
    ensures
        prints@ == firsts(events@, 0),
{
    let ghost e = events@;
    let n = events.len();
    let mut prints: Vec<Fingerprint> = Vec::new();
    let mut i: usize = 0;
    while i < n
        invariant
            e == events@,
            n == e.len(),
            i <= n,
            time_sorted(e),
            prints@ + firsts(e, i as int) == firsts(e, 0),
        decreases n - i,
    {
        let first = events[i];
        let ghost base_i = prints@;
        let mut j: usize = i + 1;
        while j < n
            invariant
                e == events@,
                n == e.len(),
                i < n,
                i + 1 <= j <= n,
                time_sorted(e),
                first == e[i as int],
                prints@ + seconds(e, i as int, j as int) == base_i + seconds(e, i as int, i + 1),
            ensures
                i + 1 <= j <= n,
                prints@ + seconds(e, i as int, j as int) == base_i + seconds(e, i as int, i + 1),
                j >= n || e[j as int].t - e[i as int].t > MAX_TIME_DISTANCE,
            decreases n - j,
        {
            let second = events[j];
            let dt = second.t - first.t;
            if dt > MAX_TIME_DISTANCE {
                break;
            }
            if dt >= MIN_TIME_DISTANCE && frequency_distance(first.f, second.f) {
                let ghost base_j = prints@;
                let mut k: usize = j + 1;
                while k < n
                    invariant
                        e == events@,
                        n == e.len(),
                        i < j < n,
                        j + 1 <= k <= n,
                        time_sorted(e),
                        first == e[i as int],
                        second == e[j as int],
                        first.t < second.t,
                        prints@ + thirds(e, i as int, j as int, k as int) == base_j + thirds(e, i as int, j as int, j + 1),
                    ensures
                        j + 1 <= k <= n,
                        prints@ + thirds(e, i as int, j as int, k as int) == base_j + thirds(e, i as int, j as int, j + 1),
                        k >= n || e[k as int].t - e[j as int].t > MAX_TIME_DISTANCE,
                    decreases n - k,
                {
                    let third = events[k];
                    let dt3 = third.t - second.t;
                    if dt3 > MAX_TIME_DISTANCE {
                        break;
                    }
                    if dt3 >= MIN_TIME_DISTANCE && frequency_distance(second.f, third.f) {
                        let ghost before = prints@;
                        let h = landmark_hash(first, second, third);
                        prints.push(Fingerprint::new(h, first.t, first.f));
                        assert(prints@ + thirds(e, i as int, j as int, k + 1) =~= before + thirds(e, i as int, j as int, k as int));
                    } else {
                        assert(prints@ + thirds(e, i as int, j as int, k + 1) =~= prints@ + thirds(e, i as int, j as int, k as int));
                    }
                    k = k + 1;
                }
                assert(thirds(e, i as int, j as int, k as int) =~= Seq::<Fingerprint>::empty());
                assert(prints@ + seconds(e, i as int, j + 1) =~= base_j + seconds(e, i as int, j as int));
            } else {
                assert(prints@ + seconds(e, i as int, j + 1) =~= prints@ + seconds(e, i as int, j as int));
            }
            j = j + 1;
        }
        assert(seconds(e, i as int, j as int) =~= Seq::<Fingerprint>::empty());
        assert(prints@ + firsts(e, i + 1) =~= base_i + firsts(e, i as int));
        i = i + 1;
    }
    assert(prints@ + firsts(e, n as int) =~= prints@);
    prints
}

/// Peaks `i`, `j`, `k` (in sequence order) pair into a landmark: the second lies 2 to 33
/// frames after the first and 1 to 128 bands away from it, and the third lies 2 to 33 frames
/// after the second and 1 to 128 bands away from the second.
pub open spec fn landmark_triple(e: Seq<EventPoint>, i: int, j: int, k: int) -> bool {
    let d21: int = if e[j].f >= e[i].f { e[j].f - e[i].f } else { e[i].f - e[j].f };
    let d32: int = if e[k].f >= e[j].f { e[k].f - e[j].f } else { e[j].f - e[k].f };
    &&& 0 <= i < j < k < e.len()
    &&& 2 <= e[j].t - e[i].t <= 33
    &&& 1 <= d21 <= 128
    &&& 2 <= e[k].t - e[j].t <= 33
    &&& 1 <= d32 <= 128
}

/// The print a landmark triple makes: its hash, at the first peak's time and band.
pub open spec fn triple_print(e: Seq<EventPoint>, i: int, j: int, k: int) -> Fingerprint {
    Fingerprint { hash: spec_landmark_hash(e[i], e[j], e[k]), t: e[i].t, f: e[i].f }
}

/// `p` is the print of some landmark triple of `e`.
pub open spec fn triple_made(e: Seq<EventPoint>, p: Fingerprint) -> bool {
    exists|i: int, j: int, k: int| #[trigger] landmark_triple(e, i, j, k) && p == triple_print(e, i, j, k)
}

proof fn lemma_thirds_has(e: Seq<EventPoint>, i: int, j: int, k0: int, k: int)
    requires
        time_sorted(e),
        landmark_triple(e, i, j, k),
        j < k0 <= k,
    ensures
        thirds(e, i, j, k0).contains(triple_print(e, i, j, k)),
    decreases k - k0,
{
    assert(e[k0].t <= e[k].t);
    let head = if e[k0].t - e[j].t >= MIN_TIME_DISTANCE && spec_frequency_distance(e[j].f, e[k0].f) {
        seq![Fingerprint { hash: spec_landmark_hash(e[i], e[j], e[k0]), t: e[i].t, f: e[i].f }]
    } else {
        Seq::<Fingerprint>::empty()
    };
    assert(thirds(e, i, j, k0) == head + thirds(e, i, j, k0 + 1));
    if k0 == k {
        assert(thirds(e, i, j, k0)[0] == triple_print(e, i, j, k));
    } else {
        lemma_thirds_has(e, i, j, k0 + 1, k);
        let x = choose|x: int| 0 <= x < thirds(e, i, j, k0 + 1).len() && #[trigger] thirds(e, i, j, k0 + 1)[x] == triple_print(e, i, j, k);
        assert(thirds(e, i, j, k0)[head.len() + x] == triple_print(e, i, j, k));
    }
}

proof fn lemma_seconds_has(e: Seq<EventPoint>, i: int, j0: int, j: int, k: int)
    requires
        time_sorted(e),
        landmark_triple(e, i, j, k),
        i < j0 <= j,
    ensures
        seconds(e, i, j0).contains(triple_print(e, i, j, k)),
    decreases j - j0,
{
    assert(e[j0].t <= e[j].t);
    let head = if e[j0].t - e[i].t >= MIN_TIME_DISTANCE && spec_frequency_distance(e[i].f, e[j0].f) {
        thirds(e, i, j0, j0 + 1)
    } else {
        Seq::<Fingerprint>::empty()
    };
    assert(seconds(e, i, j0) == head + seconds(e, i, j0 + 1));
    if j0 == j {
        lemma_thirds_has(e, i, j, j + 1, k);
        let x = choose|x: int| 0 <= x < head.len() && #[trigger] head[x] == triple_print(e, i, j, k);
        assert(seconds(e, i, j0)[x] == triple_print(e, i, j, k));
    } else {
        lemma_seconds_has(e, i, j0 + 1, j, k);
        let x = choose|x: int| 0 <= x < seconds(e, i, j0 + 1).len() && #[trigger] seconds(e, i, j0 + 1)[x] == triple_print(e, i, j, k);
        assert(seconds(e, i, j0)[head.len() + x] == triple_print(e, i, j, k));
    }
}

proof fn lemma_firsts_has(e: Seq<EventPoint>, i0: int, i: int, j: int, k: int)
    requires
        time_sorted(e),
        landmark_triple(e, i, j, k),
        0 <= i0 <= i,
    ensures
        firsts(e, i0).contains(triple_print(e, i, j, k)),
    decreases i - i0,
{
    let head = seconds(e, i0, i0 + 1);
    assert(firsts(e, i0) == head + firsts(e, i0 + 1));
    if i0 == i {
        lemma_seconds_has(e, i, i + 1, j, k);
        let x = choose|x: int| 0 <= x < head.len() && #[trigger] head[x] == triple_print(e, i, j, k);
        assert(firsts(e, i0)[x] == triple_print(e, i, j, k));
    } else {
        lemma_firsts_has(e, i0 + 1, i, j, k);
        let x = choose|x: int| 0 <= x < firsts(e, i0 + 1).len() && #[trigger] firsts(e, i0 + 1)[x] == triple_print(e, i, j, k);
        assert(firsts(e, i0)[head.len() + x] == triple_print(e, i, j, k));
    }
}

proof fn lemma_thirds_from(e: Seq<EventPoint>, i: int, j: int, k0: int, m: int)
    requires
        time_sorted(e),
        0 <= i < j < k0,
        2 <= e[j].t - e[i].t <= 33,
        1 <= (if e[j].f >= e[i].f { e[j].f - e[i].f } else { e[i].f - e[j].f }) <= 128,
        0 <= m < thirds(e, i, j, k0).len(),
    ensures
        triple_made(e, thirds(e, i, j, k0)[m]),
    decreases e.len() - k0,
{
    let head = if e[k0].t - e[j].t >= MIN_TIME_DISTANCE && spec_frequency_distance(e[j].f, e[k0].f) {
        seq![Fingerprint { hash: spec_landmark_hash(e[i], e[j], e[k0]), t: e[i].t, f: e[i].f }]
    } else {
        Seq::<Fingerprint>::empty()
    };
    assert(thirds(e, i, j, k0) == head + thirds(e, i, j, k0 + 1));
    if m < head.len() {
        assert(landmark_triple(e, i, j, k0));
        assert(thirds(e, i, j, k0)[m] == triple_print(e, i, j, k0));
        assert(triple_made(e, thirds(e, i, j, k0)[m]));
    } else {
        lemma_thirds_from(e, i, j, k0 + 1, m - head.len());
        assert(thirds(e, i, j, k0)[m] == thirds(e, i, j, k0 + 1)[m - head.len()]);
    }
}

proof fn lemma_seconds_from(e: Seq<EventPoint>, i: int, j0: int, m: int)
    requires
        time_sorted(e),
        0 <= i < j0,
        0 <= m < seconds(e, i, j0).len(),
    ensures
        triple_made(e, seconds(e, i, j0)[m]),
    decreases e.len() - j0,
{
    let head = if e[j0].t - e[i].t >= MIN_TIME_DISTANCE && spec_frequency_distance(e[i].f, e[j0].f) {
        thirds(e, i, j0, j0 + 1)
    } else {
        Seq::<Fingerprint>::empty()
    };
    assert(seconds(e, i, j0) == head + seconds(e, i, j0 + 1));
    if m < head.len() {
        lemma_thirds_from(e, i, j0, j0 + 1, m);
        assert(seconds(e, i, j0)[m] == thirds(e, i, j0, j0 + 1)[m]);
    } else {
        lemma_seconds_from(e, i, j0 + 1, m - head.len());
        assert(seconds(e, i, j0)[m] == seconds(e, i, j0 + 1)[m - head.len()]);
    }
}

proof fn lemma_firsts_from(e: Seq<EventPoint>, i0: int, m: int)
    requires
        time_sorted(e),
        0 <= i0,
        0 <= m < firsts(e, i0).len(),
    ensures
        triple_made(e, firsts(e, i0)[m]),
    decreases e.len() - i0,
{
    let head = seconds(e, i0, i0 + 1);
    assert(firsts(e, i0) == head + firsts(e, i0 + 1));
    if m < head.len() {
        lemma_seconds_from(e, i0, i0 + 1, m);
        assert(firsts(e, i0)[m] == head[m]);
    } else {
        lemma_firsts_from(e, i0 + 1, m - head.len());
        assert(firsts(e, i0)[m] == firsts(e, i0 + 1)[m - head.len()]);
    }
}

/// The prints packed from time-ordered peaks are exactly those of their landmark triples:
/// every triple whose second peak lies 2 to 33 frames and 1 to 128 bands from the first,
/// and whose third lies 2 to 33 frames and 1 to 128 bands from the second, gives its print
/// (its landmark hash, at the first peak's time and band), and every packed print is the
/// print of such a triple.
pub proof fn lemma_packed_prints_are_landmark_triples(e: Seq<EventPoint>)
    requires
        time_sorted(e),
    ensures
        forall|i: int, j: int, k: int| #[trigger] landmark_triple(e, i, j, k) ==> firsts(e, 0).contains(triple_print(e, i, j, k)),
        forall|m: int| 0 <= m < firsts(e, 0).len() ==> triple_made(e, #[trigger] firsts(e, 0)[m]),
{
    assert forall|i: int, j: int, k: int| #[trigger] landmark_triple(e, i, j, k) implies firsts(e, 0).contains(triple_print(e, i, j, k)) by {
        lemma_firsts_has(e, 0, i, j, k);
    }
    assert forall|m: int| 0 <= m < firsts(e, 0).len() implies triple_made(e, #[trigger] firsts(e, 0)[m]) by {
        lemma_firsts_from(e, 0, m);
    }
}

proof fn lemma_thirds_fit(e: Seq<EventPoint>, i: int, j: int, k: int)
    requires
        0 <= i < j < e.len(),
        e[i].t < e[j].t,
        time_sorted(e),
    ensures
        forall|m: int| 0 <= m < thirds(e, i, j, k).len() ==> (#[trigger] thirds(e, i, j, k)[m]).hash <= MAX_HASH,
    decreases e.len() - k,
{
    if !(k < 0 || k >= e.len() || e[k].t - e[j].t > MAX_TIME_DISTANCE) {
        lemma_thirds_fit(e, i, j, k + 1);
        let dt = e[k].t - e[j].t;
        if dt >= MIN_TIME_DISTANCE && spec_frequency_distance(e[j].f, e[k].f) {
            lemma_landmark_hash_fits(e[i], e[j], e[k]);
        }
        let head = if dt >= MIN_TIME_DISTANCE && spec_frequency_distance(e[j].f, e[k].f) {
            seq![Fingerprint { hash: spec_landmark_hash(e[i], e[j], e[k]), t: e[i].t, f: e[i].f }]
        } else {
            Seq::<Fingerprint>::empty()
        };
        assert forall|m: int| 0 <= m < thirds(e, i, j, k).len() implies (#[trigger] thirds(e, i, j, k)[m]).hash <= MAX_HASH by {
            if m >= head.len() {
                assert(thirds(e, i, j, k)[m] == thirds(e, i, j, k + 1)[m - head.len()]);
            }
        }
    }
}

proof fn lemma_seconds_fit(e: Seq<EventPoint>, i: int, j: int)
    requires
        0 <= i < e.len(),
        time_sorted(e),
    ensures
        forall|m: int| 0 <= m < seconds(e, i, j).len() ==> (#[trigger] seconds(e, i, j)[m]).hash <= MAX_HASH,
    decreases e.len() - j,
{
    if !(j < 0 || j >= e.len() || e[j].t - e[i].t > MAX_TIME_DISTANCE) {
        lemma_seconds_fit(e, i, j + 1);
        let dt = e[j].t - e[i].t;
        let head = if dt >= MIN_TIME_DISTANCE && spec_frequency_distance(e[i].f, e[j].f) {
            thirds(e, i, j, j + 1)
        } else {
            Seq::<Fingerprint>::empty()
        };
        if dt >= MIN_TIME_DISTANCE && spec_frequency_distance(e[i].f, e[j].f) {
            if j <= i {
                assert(e[j].t <= e[i].t);
            }
            lemma_thirds_fit(e, i, j, j + 1);
        }
        assert forall|m: int| 0 <= m < seconds(e, i, j).len() implies (#[trigger] seconds(e, i, j)[m]).hash <= MAX_HASH by {
            if m >= head.len() {
                assert(seconds(e, i, j)[m] == seconds(e, i, j + 1)[m - head.len()]);
            } else {
                assert(seconds(e, i, j)[m] == head[m]);
            }
        }
    }
}

/// Every print extraction packs carries a hash within the store's 34 bits.
pub proof fn lemma_packed_hashes_fit(e: Seq<EventPoint>, i: int)
    requires
        time_sorted(e),
    ensures
        forall|m: int| 0 <= m < firsts(e, i).len() ==> (#[trigger] firsts(e, i)[m]).hash <= MAX_HASH,
    decreases e.len() - i,
{
    if !(i < 0 || i >= e.len()) {
        lemma_packed_hashes_fit(e, i + 1);
        lemma_seconds_fit(e, i, i + 1);
        let head = seconds(e, i, i + 1);
        assert forall|m: int| 0 <= m < firsts(e, i).len() implies (#[trigger] firsts(e, i)[m]).hash <= MAX_HASH by {
            if m >= head.len() {
                assert(firsts(e, i)[m] == firsts(e, i + 1)[m - head.len()]);
            } else {
                assert(firsts(e, i)[m] == head[m]);
            }
        }
    }
}

} // verus!

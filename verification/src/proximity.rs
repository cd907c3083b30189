//! How closely one extraction's prints reproduce another's: how many prints of a source
//! have a counterpart nearby in time among the candidates.
use vstd::prelude::*;

use crate::fingerprint::Fingerprint;

verus! {

pub open spec fn sat_sub(a: u32, b: u32) -> u32 {
    if a >= b { (a - b) as u32 } else { 0 }
}

pub open spec fn sat_add(a: u32, b: u32) -> u32 {
    if a + b > u32::MAX { u32::MAX } else { (a + b) as u32 }
}

/// `t` lies within `tolerance` bins of `center`, the bounds saturating at the `u32` range.
pub open spec fn within(t: u32, center: u32, tolerance: u32) -> bool {
    sat_sub(center, tolerance) <= t <= sat_add(center, tolerance)
}

/// A candidate print with the same hash lies within `tolerance` bins of `p`.
pub open spec fn has_near_print(p: Fingerprint, candidates: Seq<Fingerprint>, tolerance: u32) -> bool {
    exists|j: int| 0 <= j < candidates.len() && (#[trigger] candidates[j]).hash == p.hash && within(candidates[j].t, p.t, tolerance)
}

/// How many prints of `source` have a near candidate print.
pub open spec fn near_print_count(source: Seq<Fingerprint>, candidates: Seq<Fingerprint>, tolerance: u32) -> nat
    decreases source.len(),
{
    if source.len() == 0 {
        0
    } else {
        near_print_count(source.drop_last(), candidates, tolerance) + if has_near_print(source.last(), candidates, tolerance) {
            1nat
        } else {
            0nat
        }
    }
}

/// A candidate anchor on the same band lies within `tolerance` bins of anchor `a`.
pub open spec fn has_near_anchor(a: (u32, u16), candidates: Seq<(u32, u16)>, tolerance: u32) -> bool {
    exists|j: int| 0 <= j < candidates.len() && (#[trigger] candidates[j]).1 == a.1 && within(candidates[j].0, a.0, tolerance)
}

/// How many anchors of `source` have a near candidate anchor.
pub open spec fn near_anchor_count(source: Seq<(u32, u16)>, candidates: Seq<(u32, u16)>, tolerance: u32) -> nat
    decreases source.len(),
{
    if source.len() == 0 {
        0
    } else {
        near_anchor_count(source.drop_last(), candidates, tolerance) + if has_near_anchor(source.last(), candidates, tolerance) {
            1nat
        } else {
            0nat
        }
    }
}

fn near_print(p: Fingerprint, candidates: &Vec<Fingerprint>, tolerance: u32) -> (r: bool)
    ensures
        r == has_near_print(p, candidates@, tolerance),
{
    let low = p.t.saturating_sub(tolerance);
    let high = p.t.saturating_add(tolerance);
    let mut j: usize = 0;
    while j < candidates.len()
        invariant
            j <= candidates@.len(),
            low == sat_sub(p.t, tolerance),
            high == sat_add(p.t, tolerance),
            forall|x: int| 0 <= x < j ==> !((#[trigger] candidates@[x]).hash == p.hash && within(candidates@[x].t, p.t, tolerance)),
        decreases candidates@.len() - j,
    {
        let c = candidates[j];
        if c.hash == p.hash && low <= c.t && c.t <= high {
            assert(candidates@[j as int] == c);
            return true;
        }
        j = j + 1;
    }
    false
}

/// How many prints of `source` have a candidate print with the same hash within `tolerance`
/// time bins (the count behind `proximity_fraction`).
pub fn near_prints(source: &Vec<Fingerprint>, candidates: &Vec<Fingerprint>, tolerance: u32) -> (n: usize)
    ensures
        n == near_print_count(source@, candidates@, tolerance),
{
    let mut n: usize = 0;
    let mut i: usize = 0;
    while i < source.len()
        invariant
            i <= source@.len(),
            n == near_print_count(source@.subrange(0, i as int), candidates@, tolerance),
            n <= i,
        decreases source@.len() - i,
    {
        proof {
            assert(source@.subrange(0, i as int + 1).drop_last() =~= source@.subrange(0, i as int));
        }
        if near_print(source[i], candidates, tolerance) {
            n = n + 1;
        }
        i = i + 1;
    }
    assert(source@.subrange(0, source@.len() as int) =~= source@);
    n
}

fn near_anchor(a: (u32, u16), candidates: &Vec<(u32, u16)>, tolerance: u32) -> (r: bool)
    ensures
        r == has_near_anchor(a, candidates@, tolerance),
{
    let low = a.0.saturating_sub(tolerance);
    let high = a.0.saturating_add(tolerance);
    let mut j: usize = 0;
    while j < candidates.len()
        invariant
            j <= candidates@.len(),
            low == sat_sub(a.0, tolerance),
            high == sat_add(a.0, tolerance),
            forall|x: int| 0 <= x < j ==> !((#[trigger] candidates@[x]).1 == a.1 && within(candidates@[x].0, a.0, tolerance)),
        decreases candidates@.len() - j,
    {
        let c = candidates[j];
        if c.1 == a.1 && low <= c.0 && c.0 <= high {
            assert(candidates@[j as int] == c);
            return true;
        }
        j = j + 1;
    }
    false
}

/// How many `(time, band)` anchors of `source` have a candidate anchor on the same band
/// within `tolerance` time bins (the count behind `anchor_proximity_fraction`).
pub fn near_anchors(source: &Vec<(u32, u16)>, candidates: &Vec<(u32, u16)>, tolerance: u32) -> (n: usize)
    ensures
        n == near_anchor_count(source@, candidates@, tolerance),
{
    let mut n: usize = 0;
    let mut i: usize = 0;
    while i < source.len()
        invariant
            i <= source@.len(),
            n == near_anchor_count(source@.subrange(0, i as int), candidates@, tolerance),
            n <= i,
        decreases source@.len() - i,
    {
        proof {
            assert(source@.subrange(0, i as int + 1).drop_last() =~= source@.subrange(0, i as int));
        }
        if near_anchor(source[i], candidates, tolerance) {
            n = n + 1;
        }
        i = i + 1;
    }
    assert(source@.subrange(0, source@.len() as int) =~= source@);
    n
}

} // verus!

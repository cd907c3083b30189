//! Query regions over a stored resource and the grouping of region matches by reference:
//! the integer half of `span` and `crosscheck`.
use vstd::prelude::*;

use crate::error::Error;
use crate::fingerprint::Fingerprint;
use crate::store::{forward_refusal, key_index, ResourceInfo, Store};
use crate::text::{debug_quoted, join, literal, quoted};

verus! {

/// Query-region geometry in time bins: region length, hop between region starts, and
/// whether an unwindowed scan starts at bin 0 rather than at the resource's first print.
#[derive(Clone, Copy, Debug, PartialEq, Eq, Structural)]
pub struct RegionBins {
    pub window: u32,
    pub hop: u32,
    pub anchor_at_zero: bool,
}

/// The compatibility geometry of span and crosscheck: 30-second regions, back to back.
pub fn compatibility_regions() -> (g: RegionBins)
    ensures
        g == (RegionBins { window: 3750, hop: 3750, anchor_at_zero: false }),
{
    RegionBins { window: 3750, hop: 3750, anchor_at_zero: false }
}

/// The passage geometry: 12-second regions every 8 seconds, anchored at time zero.
pub fn passage_regions() -> (g: RegionBins)
    ensures
        g == (RegionBins { window: 1500, hop: 1000, anchor_at_zero: true }),
{
    RegionBins { window: 1500, hop: 1000, anchor_at_zero: true }
}

/// A caller's A-window as time bins: none, a converted `[start, stop)` window, or seconds
/// that were not finite, non-negative and increasing.
#[derive(Clone, Copy, Debug, PartialEq, Eq, Structural)]
pub enum WindowBins {
    All,
    Bins(u32, u32),
    Invalid,
}

pub open spec fn sat_add(a: u32, b: u32) -> u32 {
    if a + b > u32::MAX { u32::MAX } else { (a + b) as u32 }
}

/// The `[start, stop)` bins a scan of entry `info` covers.
pub open spec fn scan_bounds(info: ResourceInfo, window: WindowBins, g: RegionBins) -> (u32, u32) {
    let natural = sat_add(info.t_max, 1);
    let (start, stop) = match window {
        WindowBins::Bins(s, t) => (s, t),
        _ => (if g.anchor_at_zero { 0 } else { info.t_min }, natural),
    };
    (start, if stop < natural { stop } else { natural })
}

/// The non-empty regions of the scan from `cursor` to `stop`, in order.
pub open spec fn region_list(store: Store, info: ResourceInfo, cursor: u32, stop: u32, window: u32, hop: u32) -> Seq<Seq<Fingerprint>>
    decreases (if cursor < stop { stop - cursor } else { 0 }),
    when hop > 0
{
    if cursor >= stop {
        Seq::empty()
    } else {
        let region_stop = if sat_add(cursor, window) < stop { sat_add(cursor, window) } else { stop };
        let w = store.stored_window(info, cursor, region_stop);
        (if w.len() > 0 { seq![w] } else { Seq::empty() }) + region_list(store, info, sat_add(cursor, hop), stop, window, hop)
    }
}

pub open spec fn print_views(v: Seq<Vec<Fingerprint>>) -> Seq<Seq<Fingerprint>> {
    v.map_values(|r: Vec<Fingerprint>| r@)
}

fn saturating(a: u32, b: u32) -> (r: u32)
    ensures
        r == sat_add(a, b),
{
    a.saturating_add(b)
}

/// The scan bounds of an entry for a valid window.
fn bounds(info: &ResourceInfo, window: WindowBins, g: RegionBins) -> (b: (u32, u32))
    requires
        !(window is Invalid),
    ensures
        b == scan_bounds(*info, window, g),
{
    let natural = saturating(info.t_max, 1);
    let (start, stop0) = match window {
        WindowBins::Bins(s, t) => (s, t),
        _ => (if g.anchor_at_zero { 0 } else { info.t_min }, natural),
    };
    (start, if stop0 < natural { stop0 } else { natural })
}

/// Whether cutting `key`'s regions only reads a shard the generation has (a region cut that
/// reads prints needs it).
pub fn regions_read_shards(store: &Store, key: &str, window: WindowBins, g: RegionBins) -> (b: bool)
    ensures
        b == (reads_regions(*store, key@, window, g) ==> store.key_in_shards(key@)),
{
    if store.key_names_shard(key) {
        return true;
    }
    let info = match store.resource(key) {
        Ok(i) => i,
        Err(_) => return true,
    };
    if g.window == 0 || g.hop == 0 {
        return true;
    }
    if let WindowBins::Invalid = window {
        return true;
    }
    let (start, stop) = bounds(info, window, g);
    start >= stop
}

/// Whether cutting `key`'s regions reads its stored prints: the key is known, the geometry
/// is at least one bin, the window is valid and the scan bounds are not empty.
pub open spec fn reads_regions(store: Store, key: Seq<char>, window: WindowBins, g: RegionBins) -> bool {
    let (start, stop) = scan_bounds(store.entry(key), window, g);
    &&& key_index(store.spec_manifest().resources@).contains_key(key)
    &&& g.window > 0 && g.hop > 0
    &&& !(window is Invalid)
    &&& start < stop
}

/// The stored prints of resource `key` cut into query regions: regions of
/// `g.window` bins every `g.hop` bins over the scan bounds, empty regions left out.
pub fn region_prints(store: &Store, key: &str, window: WindowBins, g: RegionBins) -> (r: Result<Vec<Vec<Fingerprint>>, Error>)
    requires
        reads_regions(*store, key@, window, g) ==> store.key_in_shards(key@),
    ensures
        ({
            let res = store.spec_manifest().resources@;
            let info = store.entry(key@);
            let (start, stop) = scan_bounds(info, window, g);
            match r {
                Ok(regions) => key_index(res).contains_key(key@) && g.window > 0 && g.hop > 0 && !(window is Invalid)
                    && start < stop && store.readable(info) && print_views(regions@) == region_list(*store, info, start, stop, g.window, g.hop)
                    && regions@.len() > 0,
                Err(e) => if !key_index(res).contains_key(key@) {
                    e matches Error::BadRequest(m) && m@ == "unknown resource key "@ + debug_quoted(key@)
                } else if g.window == 0 || g.hop == 0 {
                    e matches Error::Internal(m) && m@ == "query region geometry is below one time bin"@
                } else if window is Invalid {
                    e matches Error::BadRequest(m) && m@ == "a_window must contain finite, non-negative increasing seconds"@
                } else if start >= stop {
                    e matches Error::BadRequest(m) && m@ == "window contains no stored time range for "@ + debug_quoted(key@)
                } else if !store.readable(info) {
                    forward_refusal(key@, e)
                } else {
                    region_list(*store, info, start, stop, g.window, g.hop).len() == 0 && (e matches Error::BadRequest(m)
                        && m@ == "window contains no fingerprints for "@ + debug_quoted(key@))
                },
            }
        }),
{
    let info = match store.resource(key) {
        Ok(i) => i,
        Err(e) => return Err(e),
    };
    let ghost entry = store.entry(key@);
    assert(*info == entry);
    if g.window == 0 || g.hop == 0 {
        return Err(Error::Internal(literal("query region geometry is below one time bin")));
    }
    if let WindowBins::Invalid = window {
        return Err(Error::BadRequest(literal("a_window must contain finite, non-negative increasing seconds")));
    }
    let (start, stop) = bounds(info, window, g);
    if start >= stop {
        return Err(Error::BadRequest(join(literal("window contains no stored time range for "), quoted(key).as_str())));
    }
    assert(reads_regions(*store, key@, window, g));
    let mut regions: Vec<Vec<Fingerprint>> = Vec::new();
    let mut cursor = start;
    while cursor < stop
        invariant
            g.window > 0 && g.hop > 0,
            !(window is Invalid),
            (start, stop) == scan_bounds(entry, window, g),
            start < stop,
            start <= cursor,
            key_index(store.spec_manifest().resources@).contains_key(key@),
            entry == store.entry(key@),
            print_views(regions@) + region_list(*store, entry, cursor, stop, g.window, g.hop) == region_list(
                *store,
                entry,
                start,
                stop,
                g.window,
                g.hop,
            ),
            cursor > start ==> store.readable(entry),
            store.key_in_shards(key@),
        decreases (if cursor < stop { stop - cursor } else { 0 }),
    {
        let end = saturating(cursor, g.window);
        let region_stop = if end < stop { end } else { stop };
        assert(cursor < region_stop);
        let prints = match store.forward(key, Some((cursor, region_stop))) {
            Ok(p) => p,
            Err(e) => return Err(e),
        };
        let ghost before = regions@;
        if prints.len() > 0 {
            regions.push(prints);
        }
        proof {
            let w = store.stored_window(entry, cursor, region_stop);
            assert(print_views(regions@) =~= print_views(before) + if w.len() > 0 { seq![w] } else { Seq::empty() });
        }
        cursor = saturating(cursor, g.hop);
    }
    if regions.len() == 0 {
        assert(print_views(regions@) =~= Seq::<Seq<Fingerprint>>::empty());
        return Err(Error::BadRequest(join(literal("window contains no fingerprints for "), quoted(key).as_str())));
    }
    Ok(regions)
}

/// Both stores carry the same fingerprint configuration.
pub fn ensure_compatible(a_store: &Store, b_store: &Store) -> (r: Result<(), Error>)
    ensures
        r is Ok <==> a_store.spec_manifest().config_id@ == b_store.spec_manifest().config_id@,
        r matches Err(e) ==> e matches Error::ConfigMismatch { expected, found } && expected@ == a_store.spec_manifest().config_id@
            && found@ == b_store.spec_manifest().config_id@,
{
    let a = literal(a_store.config_id());
    let b = literal(b_store.config_id());
    if !(a == b) {
        return Err(Error::ConfigMismatch { expected: a, found: b });
    }
    Ok(())
}

} // verus!

//! What a built generation reads back once its shard images are mapped.
use vstd::prelude::*;

use crate::dump::DumpResource;
use crate::fingerprint::Fingerprint;
use crate::generation::{
    built, lemma_members_of_shard_keys, member_matches, members_of_shard, postings_of, ranges_tile, shard_prepared, with_ids,
    PreparedShard,
};
use crate::identity::spec_shard_for_key;
use crate::rebuild::{
    all_infos, changes_have_key, group_parts, incoming, kept, kept_members, prepared_for, read_back, rebuilt_group,
    same_member,
};
use crate::shard::{
    header_at, index_sorted, lemma_forward_reads_back, lemma_image_decodes, lemma_lookup_reads_back, postings_in_range,
    prints_in_window, shard_image, stored_hit_of, FullPosting, StoredHit,
};
use crate::sorting::canonical_prints;
use crate::store::{
    hits_of_resource, id_index, lemma_id_index, lemma_pair_lookup_is_filtered_lookup, owner_shard, resource_shards_in_range,
    scan_range, shard_range_hits, shards_match, Manifest, ResourceInfo, Store, SHARD_COUNT,
};

verus! {
/// The prints of `c` whose time lies in `[t0, t1)`, in order.
pub open spec fn in_window(c: Seq<Fingerprint>, t0: u32, t1: u32) -> Seq<Fingerprint> {
    c.filter(|p: Fingerprint| t0 <= p.t && p.t < t1)
}

proof fn lemma_window_of_postings(id: u32, c: Seq<Fingerprint>, t0: u32, t1: u32)
    ensures
        prints_in_window(postings_of(id, c), t0, t1) == in_window(c, t0, t1),
    decreases c.len(),
{
    reveal(Seq::filter);
    if c.len() > 0 {
        lemma_window_of_postings(id, c.drop_last(), t0, t1);
        assert(postings_of(id, c).drop_last() =~= postings_of(id, c.drop_last()));
        let last = postings_of(id, c).last();
        assert(Fingerprint { hash: last.hash, t: last.t, f: last.f } == c.last());
    }
}

proof fn lemma_all_infos_member(p: Seq<PreparedShard>, x: ResourceInfo)
    requires
        all_infos(p).contains(x),
    ensures
        exists|n: int, t: int| 0 <= n < p.len() && 0 <= t < p[n].resources@.len() && #[trigger] p[n].resources@[t] == x,
    decreases p.len(),
{
    let pre = p.drop_last();
    let j = choose|j: int| 0 <= j < all_infos(p).len() && all_infos(p)[j] == x;
    if j < all_infos(pre).len() {
        assert(all_infos(pre)[j] == x);
        lemma_all_infos_member(pre, x);
        let (n, t) = choose|n: int, t: int| 0 <= n < pre.len() && 0 <= t < pre[n].resources@.len() && #[trigger] pre[n].resources@[t] == x;
        assert(p[n] == pre[n]);
    } else {
        let t = j - all_infos(pre).len();
        assert(p[p.len() - 1].resources@[t] == x);
    }
}

proof fn lemma_members_are_pairs(pairs: Seq<(u32, DumpResource)>, n: u32)
    ensures
        forall|i: int| 0 <= i < members_of_shard(pairs, n).len() ==> pairs.contains(#[trigger] members_of_shard(pairs, n)[i]),
    decreases pairs.len(),
{
    if pairs.len() > 0 {
        let pre = pairs.drop_last();
        lemma_members_are_pairs(pre, n);
        let a = members_of_shard(pre, n);
        assert forall|i: int| 0 <= i < members_of_shard(pairs, n).len() implies pairs.contains(#[trigger] members_of_shard(pairs, n)[i]) by {
            if i < a.len() {
                assert(members_of_shard(pairs, n)[i] == a[i]);
                let k = choose|k: int| 0 <= k < pre.len() && pre[k] == a[i];
                assert(pairs[k] == pre[k]);
            } else {
                assert(members_of_shard(pairs, n)[i] == pairs.last());
                assert(pairs[pairs.len() - 1] == pairs.last());
            }
        }
    }
}

/// A built generation reads back what it was built from: once a store maps the images of a
/// built generation's shards under its manifest, every entry's forward range belongs to it,
/// and its stored prints within any window are the canonical prints of the dumped resource
/// it was built from (the resource at position `id - 1` of the key-sorted input) within that
/// window.
pub proof fn lemma_built_generation_reads_back(sorted: Seq<DumpResource>, m: Manifest, p: Seq<PreparedShard>, store: Store, i: int, t0: u32, t1: u32)
    requires
        built(sorted, m, p),
        sorted.len() <= u32::MAX,
        store.spec_manifest() == m,
        store.spec_shards().len() == SHARD_COUNT,
        forall|n: int|
            0 <= n < SHARD_COUNT ==> (#[trigger] store.spec_shards()[n]).bytes() == shard_image(n as u32, p[n].forward@, p[n].inverted@)
                && store.spec_shards()[n].header() == header_at(store.spec_shards()[n].bytes()),
        0 <= i < m.resources@.len(),
    ensures
        ({
            let r = m.resources@[i];
            &&& 1 <= r.id <= sorted.len()
            &&& sorted[r.id - 1].meta.key@ == r.key@
            &&& store.readable(r)
            &&& store.stored_window(r, t0, t1) == in_window(canonical_prints(sorted[r.id - 1].prints@), t0, t1)
        }),
{
    let r = m.resources@[i];
    vstd::seq_lib::to_multiset_contains(m.resources@, r);
    vstd::seq_lib::to_multiset_contains(all_infos(p), r);
    assert(m.resources@.contains(r));
    lemma_all_infos_member(p, r);
    let (n, t) = choose|n: int, t: int| 0 <= n < p.len() && 0 <= t < p[n].resources@.len() && #[trigger] p[n].resources@[t] == r;
    let pairs = with_ids(sorted);
    let g = members_of_shard(pairs, n as u32);
    assert(shard_prepared(n as u32, g, p[n]));
    assert(member_matches(n as u32, g[t].0, g[t].1, p[n].resources@[t], p[n].forward@));
    lemma_members_are_pairs(pairs, n as u32);
    assert(pairs.contains(g[t]));
    let j = choose|j: int| 0 <= j < pairs.len() && pairs[j] == g[t];
    assert(pairs[j] == ((j + 1) as u32, sorted[j]));
    let c = canonical_prints(g[t].1.prints@);
    let forward = p[n].forward@;
    let first = r.forward_start as int;
    let count = c.len() as int;
    assert(forward.subrange(first, first + count) == postings_of(r.id, c));
    assert forall|x: int| first <= x < first + count implies #[trigger] forward[x].resource_id == r.id by {
        assert(forward.subrange(first, first + count)[x - first] == forward[x]);
    }
    lemma_image_decodes(n as u32, forward, p[n].inverted@);
    lemma_forward_reads_back(n as u32, forward, p[n].inverted@, first, count, r.id, t0, t1);
    lemma_window_of_postings(r.id, c, t0, t1);
    assert(r.shard == n);
}

proof fn lemma_tile_cover(infos: Seq<ResourceInfo>, total: nat, f: int)
    requires
        ranges_tile(infos, total),
        0 <= f < total,
    ensures
        exists|k: int| 0 <= k < infos.len() && (#[trigger] infos[k]).forward_start <= f < infos[k].forward_start + infos[k].postings,
    decreases infos.len(),
{
    let last = infos.len() - 1;
    if f >= infos[last].forward_start {
        assert(infos[last].forward_start <= f < infos[last].forward_start + infos[last].postings);
    } else {
        let pre = infos.drop_last();
        assert(last >= 1) by {
            if last == 0 {
                assert(infos[0].forward_start == 0);
            }
        }
        assert(infos[last - 1].forward_start + infos[last - 1].postings == infos[last].forward_start);
        assert(ranges_tile(pre, infos[last].forward_start as nat)) by {
            assert forall|k: int| 0 <= k < pre.len() - 1 implies #[trigger] pre[k].forward_start + pre[k].postings == pre[k + 1].forward_start by {
                assert(pre[k] == infos[k] && pre[k + 1] == infos[k + 1]);
            }
        }
        lemma_tile_cover(pre, infos[last].forward_start as nat, f);
        let k = choose|k: int| 0 <= k < pre.len() && (#[trigger] pre[k]).forward_start <= f < pre[k].forward_start + pre[k].postings;
        assert(infos[k] == pre[k]);
    }
}

/// In a built generation, every posting of shard `n` belongs to a resource whose key selects
/// shard `n`.
proof fn lemma_shard_postings_owned(sorted: Seq<DumpResource>, p: Seq<PreparedShard>, n: int, x: FullPosting)
    requires
        0 <= n < SHARD_COUNT,
        sorted.len() <= u32::MAX,
        p.len() == SHARD_COUNT,
        shard_prepared(n as u32, members_of_shard(with_ids(sorted), n as u32), p[n]),
        p[n].inverted@.contains(x),
    ensures
        1 <= x.resource_id <= sorted.len(),
        spec_shard_for_key(sorted[x.resource_id - 1].meta.key@) == n,
{
    let pairs = with_ids(sorted);
    let g = members_of_shard(pairs, n as u32);
    let forward = p[n].forward@;
    let infos = p[n].resources@;
    vstd::seq_lib::to_multiset_contains(p[n].inverted@, x);
    vstd::seq_lib::to_multiset_contains(forward, x);
    assert(forward.contains(x));
    let f = choose|f: int| 0 <= f < forward.len() && forward[f] == x;
    lemma_tile_cover(infos, forward.len(), f);
    let k = choose|k: int| 0 <= k < infos.len() && (#[trigger] infos[k]).forward_start <= f < infos[k].forward_start + infos[k].postings;
    assert(member_matches(n as u32, g[k].0, g[k].1, infos[k], forward));
    let c = canonical_prints(g[k].1.prints@);
    let first = infos[k].forward_start as int;
    assert(forward.subrange(first, first + c.len()) == postings_of(g[k].0, c));
    assert(forward.subrange(first, first + c.len())[f - first] == forward[f]);
    assert(x.resource_id == g[k].0);
    lemma_members_are_pairs(pairs, n as u32);
    lemma_members_of_shard_keys(pairs, n as u32);
    assert(pairs.contains(g[k]));
    let j = choose|j: int| 0 <= j < pairs.len() && pairs[j] == g[k];
    assert(pairs[j] == ((j + 1) as u32, sorted[j]));
    assert(spec_shard_for_key(g[k].1.meta.key@) == n);
}

proof fn lemma_no_hits_of(s: Seq<FullPosting>, start: u64, stop: u64, id: u32)
    requires
        forall|k: int| 0 <= k < s.len() ==> (#[trigger] s[k]).resource_id != id,
    ensures
        hits_of_resource(postings_in_range(s, start, stop), id) == Seq::<StoredHit>::empty(),
    decreases s.len(),
{
    if s.len() > 0 {
        let pre = s.drop_last();
        assert forall|k: int| 0 <= k < pre.len() implies (#[trigger] pre[k]).resource_id != id by {
            assert(pre[k] == s[k]);
        }
        lemma_no_hits_of(pre, start, stop, id);
        let a = postings_in_range(pre, start, stop);
        if start <= s.last().hash <= stop {
            let b = a.push(stored_hit_of(s.last()));
            assert(postings_in_range(s, start, stop) =~= b);
            assert(b.drop_last() =~= a);
        } else {
            assert(postings_in_range(s, start, stop) =~= a);
        }
    }
}

/// In a built generation, a lookup restricted to the shard that owns a resource answers
/// exactly the all-shard lookup's hits of that resource.
pub proof fn lemma_built_pair_lookup(
    sorted: Seq<DumpResource>,
    m: Manifest,
    p: Seq<PreparedShard>,
    store: Store,
    hash: u64,
    id: u32,
    all: Seq<StoredHit>,
    mine: Seq<StoredHit>,
)
    requires
        built(sorted, m, p),
        sorted.len() <= u32::MAX,
        store.spec_manifest() == m,
        m.resources@.len() <= usize::MAX,
        shards_match(store.spec_shards(), m.shards@),
        resource_shards_in_range(m.resources@),
        forall|n: int|
            0 <= n < SHARD_COUNT ==> (#[trigger] store.spec_shards()[n]).bytes() == shard_image(n as u32, p[n].forward@, p[n].inverted@)
                && store.spec_shards()[n].header() == header_at(store.spec_shards()[n].bytes()),
        store.lookup_answer(hash, all),
        store.resource_lookup_answer(hash, id, mine),
    ensures
        mine == hits_of_resource(all, id),
{
    let (start, stop) = scan_range(hash);
    let shards = store.spec_shards();
    let res = m.resources@;
    lemma_id_index(res);
    let i = id_index(res)[id] as int;
    let r = res[i];
    lemma_built_generation_reads_back(sorted, m, p, store, i, 0, 0);
    let owner = owner_shard(store, id);
    assert(owner == r.shard);
    vstd::seq_lib::to_multiset_contains(res, r);
    vstd::seq_lib::to_multiset_contains(all_infos(p), r);
    assert(res.contains(r));
    lemma_all_infos_member(p, r);
    let (n0, t0) = choose|n: int, t: int| 0 <= n < p.len() && 0 <= t < p[n].resources@.len() && #[trigger] p[n].resources@[t] == r;
    let g0 = members_of_shard(with_ids(sorted), n0 as u32);
    assert(shard_prepared(n0 as u32, g0, p[n0]));
    assert(member_matches(n0 as u32, g0[t0].0, g0[t0].1, p[n0].resources@[t0], p[n0].forward@));
    assert(r.shard == n0);
    lemma_members_of_shard_keys(with_ids(sorted), n0 as u32);
    assert(spec_shard_for_key(g0[t0].1.meta.key@) == n0);
    assert(spec_shard_for_key(sorted[r.id - 1].meta.key@) == owner);
    assert forall|n: int| 0 <= n < SHARD_COUNT implies index_sorted((#[trigger] shards[n]).bytes(), shards[n].header())
        && shard_range_hits(shards[n], start, stop) == postings_in_range(p[n].inverted@, start, stop) by {
        let g = members_of_shard(with_ids(sorted), n as u32);
        assert(shard_prepared(n as u32, g, p[n]));
        vstd::seq_lib::to_multiset_len(p[n].inverted@);
        vstd::seq_lib::to_multiset_len(p[n].forward@);
        lemma_lookup_reads_back(n as u32, p[n].forward@, p[n].inverted@, start, stop);
    }
    assert forall|n: int| 0 <= n < SHARD_COUNT && n != owner implies hits_of_resource(
        shard_range_hits(#[trigger] shards[n], start, stop),
        id,
    ) == Seq::<StoredHit>::empty() by {
        let inv = p[n].inverted@;
        assert forall|k: int| 0 <= k < inv.len() implies (#[trigger] inv[k]).resource_id != id by {
            assert(inv.contains(inv[k]));
            assert(shard_prepared(n as u32, members_of_shard(with_ids(sorted), n as u32), p[n]));
            lemma_shard_postings_owned(sorted, p, n, inv[k]);
        }
        lemma_no_hits_of(inv, start, stop, id);
    }
    lemma_pair_lookup_is_filtered_lookup(store, hash, id, all, mine);
}

/// A rebuilt shard reads back what it was rebuilt from: once a store maps the image of a
/// prepared shard, each entry it records belongs to its forward range, and its stored prints
/// within any window are, canonically ordered, either the prints of the change that carries
/// its key or, for a kept resource, the prints the previous generation stored for it.
pub proof fn lemma_rebuilt_shard_reads_back(
    store: Store,
    number: u32,
    changes: Seq<(u32, DumpResource)>,
    retired: Option<Seq<char>>,
    prepared: PreparedShard,
    after: Store,
    t: int,
    t0: u32,
    t1: u32,
)
    requires
        prepared_for(store, number, changes, retired, prepared),
        number < after.spec_shards().len(),
        after.spec_shards()[number as int].bytes() == shard_image(number, prepared.forward@, prepared.inverted@),
        after.spec_shards()[number as int].header() == header_at(after.spec_shards()[number as int].bytes()),
        0 <= t < prepared.resources@.len(),
    ensures
        ({
            let r = prepared.resources@[t];
            &&& r.shard == number
            &&& after.readable(r)
            &&& if changes_have_key(changes, r.key@) {
                exists|j: int|
                    0 <= j < changes.len() && (#[trigger] changes[j]).1.meta.key@ == r.key@ && changes[j].0 == r.id
                        && after.stored_window(r, t0, t1) == in_window(canonical_prints(changes[j].1.prints@), t0, t1)
            } else {
                after.stored_window(r, t0, t1) == in_window(
                    canonical_prints(store.stored_window(store.entry(r.key@), 0, u32::MAX)),
                    t0,
                    t1,
                )
            }
        }),
{
    reveal(Seq::filter);
    let r = prepared.resources@[t];
    let g = choose|g: Seq<(u32, DumpResource)>| #![trigger rebuilt_group(store, number, changes, retired, g)]
        rebuilt_group(store, number, changes, retired, g) && shard_prepared(number, g, prepared);
    let pre = choose|pre: Seq<(u32, DumpResource)>| #![trigger group_parts(store, number, changes, retired, pre)]
        pre.to_multiset() == g.to_multiset() && group_parts(store, number, changes, retired, pre);
    let k = kept_members(store.spec_manifest().resources@, number, changes, retired);
    let c = incoming(changes, number);
    assert(member_matches(number, g[t].0, g[t].1, r, prepared.forward@));
    vstd::seq_lib::to_multiset_contains(g, g[t]);
    vstd::seq_lib::to_multiset_contains(pre, g[t]);
    assert(g.contains(g[t]));
    let s = choose|s: int| 0 <= s < pre.len() && pre[s] == g[t];
    let prints = canonical_prints(g[t].1.prints@);
    let forward = prepared.forward@;
    let first = r.forward_start as int;
    let count = prints.len() as int;
    assert(forward.subrange(first, first + count) == postings_of(r.id, prints));
    assert forall|x: int| first <= x < first + count implies #[trigger] forward[x].resource_id == r.id by {
        assert(forward.subrange(first, first + count)[x - first] == forward[x]);
    }
    lemma_image_decodes(number, forward, prepared.inverted@);
    lemma_forward_reads_back(number, forward, prepared.inverted@, first, count, r.id, t0, t1);
    lemma_window_of_postings(r.id, prints, t0, t1);
    if s < k.len() {
        assert(read_back(store, k[s], pre[s]));
        store.spec_manifest().resources@.lemma_filter_pred(|x: ResourceInfo| x.shard == number && kept(x, changes, retired), s);
        assert(!changes_have_key(changes, r.key@));
    } else {
        let j = s - k.len();
        assert(same_member(pre[s], c[j]));
        assert(c.contains(c[j]));
        changes.lemma_filter_contains_rev(|x: (u32, DumpResource)| spec_shard_for_key(x.1.meta.key@) == number, c[j]);
        assert(changes.contains(c[j]));
        let q = choose|q: int| 0 <= q < changes.len() && changes[q] == c[j];
        assert(changes[q].1.meta.key@ == r.key@);
        assert(changes_have_key(changes, r.key@));
    }
}

} // verus!

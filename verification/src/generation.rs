//! Building generations: shard contents, build and ingest plans, retirement, identity
//! rehash and manifest assembly. File writes and publication belong to the caller.
use vstd::hash_map::StringHashMap;
use vstd::prelude::*;

use crate::dump::{DumpResource, ResourceMeta};
use crate::error::Error;
use crate::fingerprint::Fingerprint;
use crate::identity::{
    generation_id_from_infos, spec_generation_id,
    fingerprint_content_hash, shard_file_name, shard_for_key, spec_content_hash, spec_shard_file_name, spec_shard_for_key,
};
use crate::shard::{
    build_hash_index, image_fits, inverted_ordered, run_index, FullPosting, FORWARD_SIZE, HASH_INDEX_SIZE, STORE_VERSION,
    HEADER_SIZE, HIT_SIZE,
};
use crate::sorting::{canonical_prints, lemma_canonical_unique, sort_by_key_text, sort_canonical, sort_inverted, text_le};
use crate::config::{config_id, spec_config_id};
use crate::rebuild::{all_infos, profile_is_current};
use crate::sorting::sort_infos_by_id;
use crate::store::{identity_profile, key_index, spec_identity_profile, Manifest, ResourceInfo, ShardInfo, Store, SHARD_COUNT};
use crate::text::{debug_quoted, join, literal, quoted};

verus! {

/// The contents of one shard file before it is written.
#[derive(Debug)]
pub struct PreparedShard {
    pub info: ShardInfo,
    pub resources: Vec<ResourceInfo>,
    pub forward: Vec<FullPosting>,
    pub inverted: Vec<FullPosting>,
}

pub open spec fn posting_of(id: u32, p: Fingerprint) -> FullPosting {
    FullPosting { hash: p.hash, resource_id: id, t: p.t, f: p.f }
}

pub open spec fn postings_of(id: u32, s: Seq<Fingerprint>) -> Seq<FullPosting> {
    Seq::new(s.len(), |j: int| posting_of(id, s[j]))
}

/// Member `(id, resource)` of shard `number` is recorded as `info`, with its prints in
/// canonical order laid out in `forward` at `info.forward_start`.
pub open spec fn member_matches(number: u32, id: u32, resource: DumpResource, info: ResourceInfo, forward: Seq<FullPosting>) -> bool {
    let c = canonical_prints(resource.prints@);
    &&& info.id == id
    &&& info.key@ == resource.meta.key@
    &&& info.duration_bits == resource.meta.duration_bits
    &&& info.postings == c.len()
    &&& c.len() == resource.prints@.len()
    &&& info.shard == number
    &&& info.content_hash@ == spec_content_hash(c)
    &&& info.t_min == (if c.len() == 0 { 0 } else { c[0].t })
    &&& info.t_max == (if c.len() == 0 { 0 } else { c[c.len() - 1].t })
    &&& info.forward_start + c.len() <= forward.len()
    &&& forward.subrange(info.forward_start as int, info.forward_start + c.len()) == postings_of(id, c)
}

/// Members' forward ranges tile the forward region back to back, in member order.
pub open spec fn ranges_tile(infos: Seq<ResourceInfo>, total: nat) -> bool {
    &&& forall|m: int| 0 <= m < infos.len() - 1 ==> #[trigger] infos[m].forward_start + infos[m].postings == infos[m + 1].forward_start
    &&& infos.len() > 0 ==> infos[0].forward_start == 0
    &&& total == if infos.len() == 0 { 0 } else { infos[infos.len() - 1].forward_start + infos[infos.len() - 1].postings }
}

/// Shards whose total size fits the 64-bit layout.
pub open spec fn group_postings(group: Seq<(u32, DumpResource)>) -> nat
    decreases group.len(),
{
    if group.len() == 0 {
        0
    } else {
        group_postings(group.drop_last()) + group.last().1.prints@.len()
    }
}

/// `p` lays out shard `number` for `group`: each member recorded with its canonical prints,
/// the forward region in member order, the inverted region in hash order, and the
/// content-addressed file name.
pub open spec fn shard_prepared(number: u32, group: Seq<(u32, DumpResource)>, p: PreparedShard) -> bool {
    &&& image_fits(p.forward@.len(), p.inverted@.len())
    &&& p.resources@.len() == group.len()
    &&& forall|m: int| 0 <= m < group.len() ==> #[trigger] member_matches(number, group[m].0, group[m].1, p.resources@[m], p.forward@)
    &&& ranges_tile(p.resources@, p.forward@.len())
    &&& p.forward@.len() == group_postings(group)
    &&& p.inverted@.to_multiset() == p.forward@.to_multiset()
    &&& inverted_ordered(p.inverted@)
    &&& p.info.number == number
    &&& p.info.file@ == spec_shard_file_name(number, p.resources@)
    &&& p.info.postings == p.forward@.len()
    &&& p.info.hashes == run_index(p.inverted@).len()
}

pub fn copy_prints(v: &Vec<Fingerprint>) -> (r: Vec<Fingerprint>)
    ensures
        r@ == v@,
{
    let mut r: Vec<Fingerprint> = Vec::new();
    let mut i: usize = 0;
    while i < v.len()
        invariant
            i <= v@.len(),
            r@ == v@.subrange(0, i as int),
        decreases v@.len() - i,
    {
        r.push(v[i]);
        i = i + 1;
        assert(r@ =~= v@.subrange(0, i as int));
    }
    r
}

/// A copy of a dumped resource.
pub fn clone_dump(r: &DumpResource) -> (c: DumpResource)
    ensures
        c.meta == r.meta,
        c.prints@ == r.prints@,
        c.prints_path == r.prints_path,
{
    DumpResource {
        meta: ResourceMeta {
            source_id: r.meta.source_id.clone(),
            key: r.meta.key.clone(),
            duration_bits: r.meta.duration_bits,
            declared_prints: r.meta.declared_prints,
        },
        prints: copy_prints(&r.prints),
        prints_path: r.prints_path.clone(),
    }
}

fn copy_postings(v: &Vec<FullPosting>) -> (r: Vec<FullPosting>)
    ensures
        r@ == v@,
{
    let mut r: Vec<FullPosting> = Vec::new();
    let mut i: usize = 0;
    while i < v.len()
        invariant
            i <= v@.len(),
            r@ == v@.subrange(0, i as int),
        decreases v@.len() - i,
    {
        r.push(v[i]);
        i = i + 1;
        assert(r@ =~= v@.subrange(0, i as int));
    }
    r
}

/// Lays out one shard (the contents its file is written from): each member's prints in
/// canonical order with its content hash and time extent, the forward region in member
/// order, the inverted region in hash order, and the content-addressed file name.
pub fn prepare_shard(number: u32, group: Vec<(u32, DumpResource)>) -> (r: Result<PreparedShard, Error>)
    ensures
        match r {
            Ok(p) => shard_prepared(number, group@, p),
            Err(e) => (e matches Error::Internal(m) && m@ == "shard exceeds the 64-bit file layout"@) && !image_fits(
                group_postings(group@),
                group_postings(group@),
            ),
        },
{
    let ghost g = group@;
    let mut infos: Vec<ResourceInfo> = Vec::new();
    let mut forward: Vec<FullPosting> = Vec::new();
    let mut k: usize = 0;
    while k < group.len()
        invariant
            k <= group@.len(),
            g == group@,
            infos@.len() == k,
            forall|m: int| 0 <= m < k ==> #[trigger] member_matches(number, g[m].0, g[m].1, infos@[m], forward@),
            ranges_tile(infos@, forward@.len()),
            forward@.len() == group_postings(g.subrange(0, k as int)),
        decreases group@.len() - k,
    {
        let id = group[k].0;
        let resource = &group[k].1;
        let mut canonical = copy_prints(&resource.prints);
        sort_canonical(&mut canonical);
        proof {
            vstd::seq_lib::to_multiset_len(canonical@);
            vstd::seq_lib::to_multiset_len(resource.prints@);
            lemma_canonical_unique(resource.prints@, canonical@);
        }
        let content_hash = fingerprint_content_hash(&canonical);
        let n = canonical.len();
        let t_min = if n == 0 { 0 } else { canonical[0].t };
        let t_max = if n == 0 { 0 } else { canonical[n - 1].t };
        let forward_start = forward.len() as u64;
        let ghost before = forward@;
        let mut j: usize = 0;
        while j < n
            invariant
                j <= n == canonical@.len(),
                forward@ == before + postings_of(id, canonical@.subrange(0, j as int)),
            decreases n - j,
        {
            let p = canonical[j];
            forward.push(FullPosting { hash: p.hash, resource_id: id, t: p.t, f: p.f });
            j = j + 1;
            assert(forward@ =~= before + postings_of(id, canonical@.subrange(0, j as int)));
        }
        assert(canonical@.subrange(0, n as int) =~= canonical@);
        let info = ResourceInfo {
            id,
            key: resource.meta.key.clone(),
            duration_bits: resource.meta.duration_bits,
            postings: n as u64,
            t_min,
            t_max,
            content_hash,
            shard: number,
            forward_start,
        };
        let ghost prev_infos = infos@;
        infos.push(info);
        proof {
            assert(forward@.subrange(forward_start as int, forward_start + n) =~= postings_of(id, canonical@));
            assert forall|m: int| 0 <= m < k implies #[trigger] member_matches(number, g[m].0, g[m].1, infos@[m], forward@) by {
                assert(infos@[m] == prev_infos[m]);
                assert(member_matches(number, g[m].0, g[m].1, prev_infos[m], before));
                let a = prev_infos[m].forward_start as int;
                let b = a + canonical_prints(g[m].1.prints@).len();
                assert(forward@.subrange(a, b) =~= before.subrange(a, b));
            }
            assert(member_matches(number, g[k as int].0, g[k as int].1, infos@[k as int], forward@));
            let pre = g.subrange(0, k as int + 1);
            assert(pre.drop_last() =~= g.subrange(0, k as int));
        }
        k = k + 1;
    }
    assert(g.subrange(0, g.len() as int) =~= g);
    let total = forward.len() as u64;
    if total > (0xffff_ffff_ffff_ffff - 128) / 56 {
        assert(!image_fits(forward@.len(), forward@.len()));
        return Err(Error::Internal(literal("shard exceeds the 64-bit file layout")));
    }
    let mut inverted = copy_postings(&forward);
    sort_inverted(&mut inverted);
    proof {
        vstd::seq_lib::to_multiset_len(inverted@);
        vstd::seq_lib::to_multiset_len(forward@);
    }
    let index = build_hash_index(&inverted);
    proof {
        crate::shard::lemma_run_index_len(inverted@);
    }
    let file = shard_file_name(number, &infos);
    let info = ShardInfo { number, file, postings: total, hashes: index.len() as u64 };
    Ok(PreparedShard { info, resources: infos, forward, inverted })
}


/// No two resources share a key.
pub open spec fn keys_distinct(s: Seq<DumpResource>) -> bool {
    forall|i: int, j: int| 0 <= i < j < s.len() ==> #[trigger] s[i].meta.key@ != #[trigger] s[j].meta.key@
}

/// Resources in key order.
pub open spec fn key_sorted(s: Seq<DumpResource>) -> bool {
    forall|i: int, j: int| 0 <= i < j < s.len() ==> text_le(#[trigger] s[i].meta.key@, #[trigger] s[j].meta.key@)
}

/// Internal ids `1..=n` in sequence order.
pub open spec fn with_ids(s: Seq<DumpResource>) -> Seq<(u32, DumpResource)> {
    Seq::new(s.len(), |i: int| ((i + 1) as u32, s[i]))
}

/// The members, in order, whose key belongs to shard `n`.
pub open spec fn members_of_shard(pairs: Seq<(u32, DumpResource)>, n: u32) -> Seq<(u32, DumpResource)>
    decreases pairs.len(),
{
    if pairs.len() == 0 {
        Seq::empty()
    } else {
        members_of_shard(pairs.drop_last(), n) + if spec_shard_for_key(pairs.last().1.meta.key@) == n {
            seq![pairs.last()]
        } else {
            Seq::empty()
        }
    }
}

/// The 64 shard groups of a fresh store over resources in the given order.
pub open spec fn build_groups(sorted: Seq<DumpResource>, groups: Seq<Vec<(u32, DumpResource)>>) -> bool {
    &&& groups.len() == SHARD_COUNT
    &&& forall|n: int| 0 <= n < SHARD_COUNT ==> #[trigger] groups[n]@ == members_of_shard(with_ids(sorted), n as u32)
}

pub proof fn lemma_members_of_shard_keys(pairs: Seq<(u32, DumpResource)>, n: u32)
    ensures
        forall|i: int| 0 <= i < members_of_shard(pairs, n).len() ==> spec_shard_for_key(
            (#[trigger] members_of_shard(pairs, n)[i]).1.meta.key@,
        ) == n,
    decreases pairs.len(),
{
    if pairs.len() > 0 {
        lemma_members_of_shard_keys(pairs.drop_last(), n);
        let a = members_of_shard(pairs.drop_last(), n);
        assert forall|i: int| 0 <= i < members_of_shard(pairs, n).len() implies spec_shard_for_key(
            (#[trigger] members_of_shard(pairs, n)[i]).1.meta.key@,
        ) == n by {
            if i < a.len() {
                assert(members_of_shard(pairs, n)[i] == a[i]);
            }
        }
    }
}

/// In a fresh generation every resource lives in the shard its key selects, and its entry
/// records that shard.
pub proof fn lemma_built_resources_in_key_shard(sorted: Seq<DumpResource>, m: Manifest, p: Seq<PreparedShard>)
    requires
        built(sorted, m, p),
    ensures
        forall|n: int, t: int| 0 <= n < SHARD_COUNT && 0 <= t < p[n].resources@.len() ==> {
            &&& (#[trigger] p[n].resources@[t]).shard == n
            &&& spec_shard_for_key(p[n].resources@[t].key@) == n
        },
{
    assert forall|n: int, t: int| 0 <= n < SHARD_COUNT && 0 <= t < p[n].resources@.len() implies {
        &&& (#[trigger] p[n].resources@[t]).shard == n
        &&& spec_shard_for_key(p[n].resources@[t].key@) == n
    } by {
        let g = members_of_shard(with_ids(sorted), n as u32);
        assert(shard_prepared(n as u32, g, p[n]));
        assert(member_matches(n as u32, g[t].0, g[t].1, p[n].resources@[t], p[n].forward@));
        lemma_members_of_shard_keys(with_ids(sorted), n as u32);
        assert(spec_shard_for_key(g[t].1.meta.key@) == n);
    }
}

/// Finds some key that occurs twice, if any.
fn duplicate_key(resources: &Vec<DumpResource>) -> (r: Option<usize>)
    ensures
        r is None <==> keys_distinct(resources@),
        r matches Some(i) ==> i < resources@.len(),
{
    let mut seen: StringHashMap<usize> = StringHashMap::new();
    let mut i: usize = 0;
    while i < resources.len()
        invariant
            i <= resources@.len(),
            keys_distinct(resources@.subrange(0, i as int)),
            forall|k: Seq<char>| #[trigger] seen@.contains_key(k) ==> seen@[k] < i && resources@[seen@[k] as int].meta.key@ == k,
            forall|m: int| 0 <= m < i ==> seen@.contains_key(#[trigger] resources@[m].meta.key@),
        decreases resources@.len() - i,
    {
        let key = &resources[i].meta.key;
        if seen.contains_key(key.as_str()) {
            proof {
                let j = seen@[key@] as int;
                assert(resources@[j].meta.key@ == resources@[i as int].meta.key@);
                assert(!keys_distinct(resources@));
            }
            return Some(i);
        }
        seen.insert(key.clone(), i);
        proof {
            assert forall|a: int, b: int| 0 <= a < b < i + 1 implies #[trigger] resources@.subrange(0, i + 1)[a].meta.key@
                != #[trigger] resources@.subrange(0, i + 1)[b].meta.key@ by {
                if b == i {
                    assert(seen@.contains_key(resources@[a].meta.key@) || a == i);
                } else {
                    assert(resources@.subrange(0, i as int)[a] == resources@[a]);
                    assert(resources@.subrange(0, i as int)[b] == resources@[b]);
                }
            }
        }
        i = i + 1;
    }
    assert(resources@.subrange(0, resources@.len() as int) =~= resources@);
    None
}

/// A message naming a key of the sorted resources names a key of the resources it was
/// sorted from.
proof fn lemma_duplicate_message_names_input(sorted: Seq<DumpResource>, input: Seq<DumpResource>, message: Seq<char>)
    requires
        sorted.to_multiset() == input.to_multiset(),
        exists|x: int| 0 <= x < sorted.len() && message == "duplicate resource key "@ + debug_quoted(
            #[trigger] sorted[x].meta.key@,
        ),
    ensures
        exists|y: int| 0 <= y < input.len() && message == "duplicate resource key "@ + debug_quoted(
            #[trigger] input[y].meta.key@,
        ),
{
    let x = choose|x: int| 0 <= x < sorted.len() && message == "duplicate resource key "@ + debug_quoted(
        #[trigger] sorted[x].meta.key@,
    );
    sorted.to_multiset_ensures();
    input.to_multiset_ensures();
    assert(sorted.contains(sorted[x]));
    assert(sorted.to_multiset().count(sorted[x]) > 0);
    assert(input.to_multiset().count(sorted[x]) > 0);
    let y = choose|y: int| 0 <= y < input.len() && input[y] == sorted[x];
    assert(message == "duplicate resource key "@ + debug_quoted(input[y].meta.key@));
}

fn duplicate_message(sorted: &Vec<DumpResource>, fallback: usize) -> (r: String)
    requires
        fallback < sorted@.len(),
    ensures
        exists|x: int| 0 <= x < sorted@.len() && r@ == "duplicate resource key "@ + debug_quoted(
            #[trigger] sorted@[x].meta.key@,
        ),
{
    let mut i: usize = 1;
    while i < sorted.len()
        invariant
            1 <= i,
        decreases sorted@.len() - i,
    {
        if sorted[i - 1].meta.key == sorted[i].meta.key {
            return join(literal("duplicate resource key "), quoted(sorted[i].meta.key.as_str()).as_str());
        }
        i = i + 1;
    }
    join(literal("duplicate resource key "), quoted(sorted[fallback].meta.key.as_str()).as_str())
}

/// Plans a fresh store (before the caller writes and publishes it): resources in key order receive ids
/// `1..=n` and are grouped by shard, each group in id order.
pub fn plan_build(resources: Vec<DumpResource>) -> (r: Result<Vec<Vec<(u32, DumpResource)>>, Error>)
    ensures
        r is Ok ==> resources@.len() > 0 && keys_distinct(resources@) && resources@.len() <= u32::MAX,
        r matches Ok(groups) ==> exists|sorted: Seq<DumpResource>| #![trigger build_groups(sorted, groups@)]
            sorted.to_multiset() == resources@.to_multiset() && key_sorted(sorted) && build_groups(sorted, groups@),
        r matches Err(e) ==> e is BadRequest && (resources@.len() == 0 || !keys_distinct(resources@) || resources@.len() > u32::MAX),
        resources@.len() == 0 ==> (r matches Err(Error::BadRequest(m)) && m@ == "cannot build an empty store"@),
        resources@.len() > 0 && !keys_distinct(resources@) ==> (r matches Err(Error::BadRequest(m)) && exists|x: int|
            0 <= x < resources@.len() && m@ == "duplicate resource key "@ + debug_quoted(#[trigger] resources@[x].meta.key@)),
        resources@.len() > u32::MAX && keys_distinct(resources@) ==> (r matches Err(Error::BadRequest(m))
            && m@ == "too many resources"@),
{
    if resources.len() == 0 {
        return Err(Error::BadRequest(literal("cannot build an empty store")));
    }
    let dup = duplicate_key(&resources);
    let ghost input = resources@;
    let mut sorted = resources;
    sort_by_key_text(&mut sorted);
    proof {
        vstd::seq_lib::to_multiset_len(sorted@);
        vstd::seq_lib::to_multiset_len(input);
    }
    match dup {
        Some(i) => {
            assert(i < sorted@.len());
            let message = duplicate_message(&sorted, i);
            proof {
                lemma_duplicate_message_names_input(sorted@, input, message@);
            }
            return Err(Error::BadRequest(message));
        },
        None => {},
    }
    if sorted.len() > 0xffff_ffff {
        return Err(Error::BadRequest(literal("too many resources")));
    }
    let ghost sorted_view = sorted@;
    assert(key_sorted(sorted_view));
    let mut groups: Vec<Vec<(u32, DumpResource)>> = Vec::new();
    let mut n: usize = 0;
    while n < 64
        invariant
            n <= 64,
            groups@.len() == n,
            forall|m: int| 0 <= m < n ==> #[trigger] groups@[m]@ == Seq::<(u32, DumpResource)>::empty(),
        decreases 64 - n,
    {
        groups.push(Vec::new());
        n = n + 1;
    }
    let mut index: usize = 0;
    for resource in it: sorted.into_iter()
        invariant
            index == it.index(),
            it.seq() == sorted_view,
            sorted_view.len() <= u32::MAX,
            sorted_view.to_multiset() == input.to_multiset(),
            key_sorted(sorted_view),
            keys_distinct(input),
            input == resources@,
            input.len() == sorted_view.len(),
            groups@.len() == SHARD_COUNT,
            forall|m: int| 0 <= m < SHARD_COUNT ==> #[trigger] groups@[m]@ == members_of_shard(with_ids(sorted_view).subrange(0, index as int), m as u32),
    {
        let shard = shard_for_key(resource.meta.key.as_str());
        let id = (index + 1) as u32;
        let ghost pair = (id, resource);
        proof {
            let pre = with_ids(sorted_view).subrange(0, index as int + 1);
            assert(pre.drop_last() =~= with_ids(sorted_view).subrange(0, index as int));
            assert(pre.last() == pair);
        }
        let ghost before = groups@;
        groups[shard as usize].push((id, resource));
        proof {
            assert forall|m: int| 0 <= m < SHARD_COUNT implies #[trigger] groups@[m]@ == members_of_shard(with_ids(sorted_view).subrange(0, index as int + 1), m as u32) by {
                if m != shard as int {
                    assert(groups@[m] == before[m]);
                }
            }
        }
        index = index + 1;
    }
    proof {
        assert(with_ids(sorted_view).subrange(0, sorted_view.len() as int) =~= with_ids(sorted_view));
        assert(build_groups(sorted_view, groups@));
        assert(sorted_view.to_multiset() == resources@.to_multiset() && key_sorted(sorted_view) && build_groups(sorted_view, groups@));
    }
    let result: Result<Vec<Vec<(u32, DumpResource)>>, Error> = Ok(groups);
    assert(result matches Ok(g) ==> exists|sorted: Seq<DumpResource>| #![trigger build_groups(sorted, g@)]
        sorted.to_multiset() == resources@.to_multiset() && key_sorted(sorted) && build_groups(sorted, g@)) by {
        assert(build_groups(sorted_view, result->Ok_0@));
    }
    result
}


/// `m` and `prepared` are a fresh generation over resources in key order `sorted`: shard
/// `n` laid out for its planned group, resources in id order, under the prints-only profile.
pub open spec fn built(sorted: Seq<DumpResource>, m: Manifest, prepared: Seq<PreparedShard>) -> bool {
    &&& prepared.len() == SHARD_COUNT
    &&& forall|n: int| 0 <= n < SHARD_COUNT ==> shard_prepared(n as u32, members_of_shard(with_ids(sorted), n as u32), #[trigger] prepared[n])
    &&& m.version == STORE_VERSION
    &&& m.config_id@ == spec_config_id()
    &&& profile_is_current(m)
    &&& m.shard_count == SHARD_COUNT
    &&& m.shards@.len() == SHARD_COUNT
    &&& forall|n: int| 0 <= n < SHARD_COUNT ==> #[trigger] m.shards@[n] == prepared[n].info
    &&& m.resources@.to_multiset() == all_infos(prepared).to_multiset()
    &&& forall|i: int, j: int| 0 <= i < j < m.resources@.len() ==> #[trigger] m.resources@[i].id <= #[trigger] m.resources@[j].id
    &&& m.generation@ == spec_generation_id(m.resources@, Some(spec_identity_profile()))
}

/// The shards and manifest of a fresh store (before the caller writes and publishes it).
pub fn build_generation(resources: Vec<DumpResource>) -> (r: Result<(Manifest, Vec<PreparedShard>), Error>)
    ensures
        r is Ok ==> resources@.len() > 0 && keys_distinct(resources@) && resources@.len() <= u32::MAX,
        r matches Ok((m, p)) ==> exists|sorted: Seq<DumpResource>| #![trigger built(sorted, m, p@)]
            sorted.to_multiset() == resources@.to_multiset() && key_sorted(sorted) && built(sorted, m, p@),
        r matches Err(e) ==> (e is BadRequest && (resources@.len() == 0 || !keys_distinct(resources@) || resources@.len() > u32::MAX))
            || (e is Internal && exists|sorted: Seq<DumpResource>, n: u32| #![trigger members_of_shard(with_ids(sorted), n)]
                sorted.to_multiset() == resources@.to_multiset() && key_sorted(sorted) && n < SHARD_COUNT
                && !image_fits(group_postings(members_of_shard(with_ids(sorted), n)), group_postings(members_of_shard(with_ids(sorted), n)))),
        resources@.len() == 0 ==> (r matches Err(Error::BadRequest(m)) && m@ == "cannot build an empty store"@),
        resources@.len() > 0 && !keys_distinct(resources@) ==> (r matches Err(Error::BadRequest(m)) && exists|x: int|
            0 <= x < resources@.len() && m@ == "duplicate resource key "@ + debug_quoted(#[trigger] resources@[x].meta.key@)),
        resources@.len() > u32::MAX && keys_distinct(resources@) ==> (r matches Err(Error::BadRequest(m))
            && m@ == "too many resources"@),
        r matches Err(Error::Internal(m)) ==> m@ == "shard exceeds the 64-bit file layout"@,
{
    let ghost input = resources@;
    let groups = match plan_build(resources) {
        Ok(g) => g,
        Err(e) => return Err(e),
    };
    let ghost sorted = choose|sorted: Seq<DumpResource>| #![trigger build_groups(sorted, groups@)]
        sorted.to_multiset() == input.to_multiset() && key_sorted(sorted) && build_groups(sorted, groups@);
    let ghost gs = groups@;
    let mut prepared: Vec<PreparedShard> = Vec::new();
    let mut n: u32 = 0;
    for group in it: groups.into_iter()
        invariant
            n == it.index(),
            it.seq() == gs,
            input == resources@,
            gs.len() == SHARD_COUNT,
            build_groups(sorted, gs),
            input.len() > 0 && keys_distinct(input) && input.len() <= u32::MAX,
            sorted.to_multiset() == input.to_multiset(),
            key_sorted(sorted),
            prepared@.len() == n,
            forall|k: int| 0 <= k < n ==> shard_prepared(k as u32, members_of_shard(with_ids(sorted), k as u32), #[trigger] prepared@[k]),
    {
        assert(gs[n as int]@ == members_of_shard(with_ids(sorted), n));
        let p = match prepare_shard(n, group) {
            Ok(p) => p,
            Err(e) => {
                assert(members_of_shard(with_ids(sorted), n) == members_of_shard(with_ids(sorted), n));
                return Err(e);
            },
        };
        prepared.push(p);
        n = n + 1;
    }
    let mut entries: Vec<ResourceInfo> = Vec::new();
    let mut shards: Vec<ShardInfo> = Vec::new();
    let mut i: usize = 0;
    while i < prepared.len()
        invariant
            i <= prepared@.len(),
            entries@ == all_infos(prepared@.subrange(0, i as int)),
            shards@.len() == i,
            forall|k: int| 0 <= k < i ==> #[trigger] shards@[k] == prepared@[k].info,
        decreases prepared@.len() - i,
    {
        let infos = &prepared[i].resources;
        let ghost base = entries@;
        let mut j: usize = 0;
        while j < infos.len()
            invariant
                j <= infos@.len(),
                entries@ == base + infos@.subrange(0, j as int),
            decreases infos@.len() - j,
        {
            entries.push(infos[j].clone());
            j = j + 1;
            assert(entries@ =~= base + infos@.subrange(0, j as int));
        }
        proof {
            let pre = prepared@.subrange(0, i as int + 1);
            assert(pre.drop_last() =~= prepared@.subrange(0, i as int));
            assert(infos@.subrange(0, infos@.len() as int) =~= infos@);
            assert(entries@ =~= all_infos(pre));
        }
        shards.push(prepared[i].info.clone());
        i = i + 1;
    }
    assert(prepared@.subrange(0, prepared@.len() as int) =~= prepared@);
    sort_infos_by_id(&mut entries);
    let generation = generation_id_from_infos(&entries, Some(identity_profile()));
    let manifest = Manifest {
        version: STORE_VERSION,
        generation,
        config_id: config_id(),
        fingerprint_identity_profile: Some(literal(identity_profile())),
        shard_count: SHARD_COUNT,
        resources: entries,
        shards,
    };
    assert(built(sorted, manifest, prepared@));
    let result: Result<(Manifest, Vec<PreparedShard>), Error> = Ok((manifest, prepared));
    assert(result matches Ok((m, p)) ==> exists|sorted: Seq<DumpResource>| #![trigger built(sorted, m, p@)]
        sorted.to_multiset() == input.to_multiset() && key_sorted(sorted) && built(sorted, m, p@)) by {
        assert(built(sorted, result->Ok_0.0, result->Ok_0.1@));
    }
    result
}


/// The prints-only content identity of a dumped resource.
pub open spec fn resource_hash(r: DumpResource) -> Seq<char> {
    spec_content_hash(canonical_prints(r.prints@))
}

/// How an ingest treats one incoming resource against the current generation:
/// 0 unchanged, 1 replacement of different content, 2 a new key.
pub open spec fn classify(current: Seq<ResourceInfo>, r: DumpResource) -> int {
    if key_index(current).contains_key(r.meta.key@) {
        if current[key_index(current)[r.meta.key@] as int].content_hash@ == resource_hash(r) {
            0
        } else {
            1
        }
    } else {
        2
    }
}

pub open spec fn count_class(current: Seq<ResourceInfo>, s: Seq<DumpResource>, c: int) -> nat
    decreases s.len(),
{
    if s.len() == 0 {
        0
    } else {
        count_class(current, s.drop_last(), c) + if classify(current, s.last()) == c { 1nat } else { 0nat }
    }
}

/// The changes an ingest publishes, in the given order: replacements keep their id, new keys
/// take consecutive ids from `first_new`.
pub open spec fn planned_changes(current: Seq<ResourceInfo>, s: Seq<DumpResource>, first_new: nat) -> Seq<(u32, DumpResource)>
    decreases s.len(),
{
    if s.len() == 0 {
        Seq::empty()
    } else {
        let r = s.last();
        let c = classify(current, r);
        planned_changes(current, s.drop_last(), first_new) + if c == 1 {
            seq![(current[key_index(current)[r.meta.key@] as int].id, r)]
        } else if c == 2 {
            seq![((first_new + count_class(current, s.drop_last(), 2)) as u32, r)]
        } else {
            Seq::empty()
        }
    }
}

/// Largest id of the current generation (0 when empty).
pub open spec fn max_id(current: Seq<ResourceInfo>) -> nat
    decreases current.len(),
{
    if current.len() == 0 {
        0
    } else {
        let m = max_id(current.drop_last());
        if current.last().id > m { current.last().id as nat } else { m }
    }
}

pub open spec fn change_postings(changes: Seq<(u32, DumpResource)>) -> nat
    decreases changes.len(),
{
    if changes.len() == 0 {
        0
    } else {
        change_postings(changes.drop_last()) + changes.last().1.prints@.len()
    }
}

/// Shards whose membership a change touches: the shard its key belongs to and, for a
/// replacement, the shard that held the previous content.
pub open spec fn touched_shard(current: Seq<ResourceInfo>, changes: Seq<(u32, DumpResource)>, n: u32) -> bool {
    exists|i: int| 0 <= i < changes.len() && (spec_shard_for_key(#[trigger] changes[i].1.meta.key@) == n
        || (key_index(current).contains_key(changes[i].1.meta.key@) && current[key_index(current)[changes[i].1.meta.key@] as int].shard == n))
}

proof fn lemma_count_class_prefix(current: Seq<ResourceInfo>, s: Seq<DumpResource>, k: int, c: int)
    requires
        0 <= k <= s.len(),
    ensures
        count_class(current, s.subrange(0, k), c) <= count_class(current, s, c),
    decreases s.len() - k,
{
    if k < s.len() {
        lemma_count_class_prefix(current, s.drop_last(), k, c);
        assert(s.drop_last().subrange(0, k) =~= s.subrange(0, k));
    } else {
        assert(s.subrange(0, k) =~= s);
    }
}

proof fn lemma_count_classes(current: Seq<ResourceInfo>, s: Seq<DumpResource>)
    ensures
        count_class(current, s, 0) + count_class(current, s, 1) + count_class(current, s, 2) == s.len(),
    decreases s.len(),
{
    if s.len() > 0 {
        lemma_count_classes(current, s.drop_last());
    }
}

proof fn lemma_touched_push(current: Seq<ResourceInfo>, before: Seq<(u32, DumpResource)>, after: Seq<(u32, DumpResource)>)
    requires
        after.len() == before.len() + 1,
        forall|i: int| 0 <= i < before.len() ==> after[i] == before[i],
    ensures
        forall|n: u32| #[trigger] touched_shard(current, after, n) <==> (touched_shard(current, before, n) || {
            let key = after[before.len() as int].1.meta.key@;
            spec_shard_for_key(key) == n || (key_index(current).contains_key(key) && current[key_index(current)[key] as int].shard == n)
        }),
{
    assert forall|n: u32| #[trigger] touched_shard(current, after, n) <==> (touched_shard(current, before, n) || {
            let key = after[before.len() as int].1.meta.key@;
            spec_shard_for_key(key) == n || (key_index(current).contains_key(key) && current[key_index(current)[key] as int].shard == n)
        }) by {
        if touched_shard(current, before, n) {
            let i = choose|i: int| 0 <= i < before.len() && (spec_shard_for_key(#[trigger] before[i].1.meta.key@) == n
                || (key_index(current).contains_key(before[i].1.meta.key@) && current[key_index(current)[before[i].1.meta.key@] as int].shard == n));
            assert(after[i] == before[i]);
        }
        if touched_shard(current, after, n) {
            let i = choose|i: int| 0 <= i < after.len() && (spec_shard_for_key(#[trigger] after[i].1.meta.key@) == n
                || (key_index(current).contains_key(after[i].1.meta.key@) && current[key_index(current)[after[i].1.meta.key@] as int].shard == n));
            if i < before.len() {
                assert(after[i] == before[i]);
            }
        }
        let j = before.len() as int;
        assert(spec_shard_for_key(after[j].1.meta.key@) == spec_shard_for_key(after[j].1.meta.key@));
    }
}

proof fn lemma_all_unchanged(current: Seq<ResourceInfo>, s: Seq<DumpResource>, first_new: nat)
    requires
        forall|i: int| 0 <= i < s.len() ==> classify(current, #[trigger] s[i]) == 0,
    ensures
        count_class(current, s, 0) == s.len(),
        count_class(current, s, 1) == 0,
        count_class(current, s, 2) == 0,
        planned_changes(current, s, first_new).len() == 0,
    decreases s.len(),
{
    if s.len() > 0 {
        assert forall|i: int| 0 <= i < s.drop_last().len() implies classify(current, #[trigger] s.drop_last()[i]) == 0 by {
            assert(s.drop_last()[i] == s[i]);
        }
        lemma_all_unchanged(current, s.drop_last(), first_new);
        assert(classify(current, s[s.len() - 1]) == 0);
    }
}

/// Re-ingesting resources whose content the generation already holds changes nothing:
/// every one counts as unchanged, nothing is added, replaced or rebuilt.
pub proof fn lemma_reingest_is_idempotent(current: Seq<ResourceInfo>, sorted: Seq<DumpResource>, replace: bool, p: IngestPlan)
    requires
        ingest_plan_matches(current, sorted, replace, p),
        forall|i: int| 0 <= i < sorted.len() ==> key_index(current).contains_key(#[trigger] sorted[i].meta.key@)
            && current[key_index(current)[sorted[i].meta.key@] as int].content_hash@ == resource_hash(sorted[i]),
    ensures
        p.changes@.len() == 0,
        p.affected@.len() == 0,
        p.resources_unchanged == sorted.len(),
        p.resources_added == 0,
        p.resources_replaced == 0,
        p.postings_added == 0,
{
    assert forall|i: int| 0 <= i < sorted.len() implies classify(current, #[trigger] sorted[i]) == 0 by {
        assert(key_index(current).contains_key(sorted[i].meta.key@));
    }
    lemma_all_unchanged(current, sorted, max_id(current) + 1);
    if p.affected@.len() > 0 {
        let x = p.affected@[0];
        assert(p.affected@.contains(x));
        assert(touched_shard(current, p.changes@, x));
    }
}

/// An ingest plan: the changes to publish, the shards to rebuild (ascending) and counts.
#[derive(Debug)]
pub struct IngestPlan {
    pub changes: Vec<(u32, DumpResource)>,
    pub affected: Vec<u32>,
    pub resources_added: usize,
    pub resources_replaced: usize,
    pub resources_unchanged: usize,
    pub postings_added: u64,
}

/// What a successful ingest plan states about resources in key order `sorted`.
pub open spec fn ingest_plan_matches(current: Seq<ResourceInfo>, sorted: Seq<DumpResource>, replace: bool, p: IngestPlan) -> bool {
    &&& p.resources_unchanged == count_class(current, sorted, 0)
    &&& p.resources_replaced == count_class(current, sorted, 1)
    &&& p.resources_added == count_class(current, sorted, 2)
    &&& (!replace ==> count_class(current, sorted, 1) == 0)
    &&& max_id(current) + count_class(current, sorted, 2) < u32::MAX
    &&& p.changes@ == planned_changes(current, sorted, max_id(current) + 1)
    &&& p.postings_added == if change_postings(p.changes@) > u64::MAX { u64::MAX as nat } else { change_postings(p.changes@) }
    &&& forall|i: int, j: int| 0 <= i < j < p.affected@.len() ==> #[trigger] p.affected@[i] < #[trigger] p.affected@[j]
    &&& forall|i: int| 0 <= i < p.affected@.len() ==> #[trigger] p.affected@[i] < SHARD_COUNT
    &&& forall|n: u32| n < SHARD_COUNT ==> (#[trigger] p.affected@.contains(n) <==> touched_shard(current, p.changes@, n))
}

/// How many prints the resources carry in all.
pub open spec fn dump_postings(resources: Seq<DumpResource>) -> nat
    decreases resources.len(),
{
    if resources.len() == 0 {
        0
    } else {
        dump_postings(resources.drop_last()) + resources.last().prints@.len()
    }
}

/// The counts of an ingest that creates the store: every resource is added, with all its
/// prints (the posting count saturating at `u64::MAX`).
pub fn fresh_ingest_counts(resources: &Vec<DumpResource>) -> (r: (usize, u64))
    ensures
        r.0 == resources@.len(),
        r.1 == if dump_postings(resources@) > u64::MAX { u64::MAX as nat } else { dump_postings(resources@) },
{
    let mut postings: u64 = 0;
    let mut i: usize = 0;
    while i < resources.len()
        invariant
            i <= resources@.len(),
            postings == if dump_postings(resources@.subrange(0, i as int)) > u64::MAX {
                u64::MAX as nat
            } else {
                dump_postings(resources@.subrange(0, i as int))
            },
        decreases resources@.len() - i,
    {
        proof {
            assert(resources@.subrange(0, i as int + 1).drop_last() =~= resources@.subrange(0, i as int));
        }
        let len = resources[i].prints.len() as u64;
        postings = postings.saturating_add(len);
        i = i + 1;
    }
    assert(resources@.subrange(0, resources@.len() as int) =~= resources@);
    (resources.len(), postings)
}

/// An ingest needs resources.
pub fn check_ingest_nonempty(resources: &Vec<DumpResource>) -> (r: Result<(), Error>)
    ensures
        r is Ok <==> resources@.len() > 0,
        r matches Err(e) ==> (e matches Error::BadRequest(m) && m@ == "ingest has no resources"@),
{
    if resources.len() == 0 {
        return Err(Error::BadRequest(literal("ingest has no resources")));
    }
    Ok(())
}

/// Whether an ingest only reads shards the generation has: with `replace`, every incoming
/// resource that replaces different content names a key whose entry has a shard (the
/// rebuild of its old shard needs it).
pub fn ingest_reads_shards(store: &Store, incoming: &Vec<DumpResource>, replace: bool) -> (b: bool)
    ensures
        b == (replace ==> forall|i: int| 0 <= i < incoming@.len() && classify(store.spec_manifest().resources@, incoming@[i]) == 1
            ==> store.key_in_shards((#[trigger] incoming@[i]).meta.key@)),
{
    if !replace {
        return true;
    }
    let ghost current = store.spec_manifest().resources@;
    let mut i: usize = 0;
    while i < incoming.len()
        invariant
            i <= incoming@.len(),
            replace,
            current == store.spec_manifest().resources@,
            forall|k: int| 0 <= k < i && classify(current, incoming@[k]) == 1 ==> store.key_in_shards(
                (#[trigger] incoming@[k]).meta.key@,
            ),
        decreases incoming@.len() - i,
    {
        let resource = &incoming[i];
        if !store.key_names_shard(resource.meta.key.as_str()) {
            let mut canonical = copy_prints(&resource.prints);
            sort_canonical(&mut canonical);
            proof {
                lemma_canonical_unique(resource.prints@, canonical@);
            }
            let content_hash = fingerprint_content_hash(&canonical);
            match store.resource(resource.meta.key.as_str()) {
                Ok(existing) => {
                    if !(existing.content_hash == content_hash) {
                        assert(content_hash@ == resource_hash(incoming@[i as int]));
                        assert(classify(current, incoming@[i as int]) == 1);
                        return false;
                    }
                },
                Err(_) => {},
            }
        }
        i = i + 1;
    }
    true
}

/// Plans an ingest into an existing generation (before the changed shards are rebuilt): incoming
/// resources in key order are unchanged, replacements (only with `replace`) or new keys with
/// fresh ids, and the shards they touch are listed for rebuilding.
#[verifier::spinoff_prover]
pub fn plan_ingest(store: &Store, incoming: Vec<DumpResource>, replace: bool) -> (r: Result<IngestPlan, Error>)
    requires
        replace ==> forall|i: int| 0 <= i < incoming@.len() && classify(store.spec_manifest().resources@, incoming@[i]) == 1
            ==> store.key_in_shards((#[trigger] incoming@[i]).meta.key@),
    ensures
        ({
            let current = store.spec_manifest().resources@;
            match r {
                Ok(p) => keys_distinct(incoming@) && max_id(current) < u32::MAX && exists|sorted: Seq<DumpResource>| #![trigger ingest_plan_matches(current, sorted, replace, p)]
                    sorted.to_multiset() == incoming@.to_multiset() && key_sorted(sorted) && ingest_plan_matches(current, sorted, replace, p),
                Err(e) => e is BadRequest && (!keys_distinct(incoming@) || max_id(current) >= u32::MAX || exists|sorted: Seq<DumpResource>|
                    #![trigger key_sorted(sorted)] sorted.to_multiset() == incoming@.to_multiset() && key_sorted(sorted)
                    && ((!replace && count_class(current, sorted, 1) > 0) || max_id(current) + count_class(current, sorted, 2) >= u32::MAX)),
            }
        }),
        !keys_distinct(incoming@) ==> (r matches Err(Error::BadRequest(m)) && exists|x: int| 0 <= x < incoming@.len()
            && m@ == "duplicate resource key "@ + debug_quoted(#[trigger] incoming@[x].meta.key@)),
        keys_distinct(incoming@) && r is Err ==> (r matches Err(Error::BadRequest(m)) && (m@ == "resource id space exhausted"@
            || exists|k: Seq<char>| m@ == "resource "@ + #[trigger] debug_quoted(k)
                + " exists with different content; set replace=true"@)),
{
    let ghost current = store.spec_manifest().resources@;
    let dup = duplicate_key(&incoming);
    let ghost input = incoming@;
    let mut sorted = incoming;
    sort_by_key_text(&mut sorted);
    proof {
        vstd::seq_lib::to_multiset_len(sorted@);
        vstd::seq_lib::to_multiset_len(input);
    }
    match dup {
        Some(i) => {
            let message = duplicate_message(&sorted, i);
            proof {
                lemma_duplicate_message_names_input(sorted@, input, message@);
            }
            return Err(Error::BadRequest(message));
        },
        None => {},
    }
    let resources = store.resources();
    let mut max: u32 = 0;
    let mut k: usize = 0;
    while k < resources.len()
        invariant
            k <= resources@.len(),
            resources@ == current,
            max == max_id(current.subrange(0, k as int)),
        decreases resources@.len() - k,
    {
        proof {
            assert(current.subrange(0, k as int + 1).drop_last() =~= current.subrange(0, k as int));
        }
        if resources[k].id > max {
            max = resources[k].id;
        }
        k = k + 1;
    }
    assert(current.subrange(0, current.len() as int) =~= current);
    if max == 0xffff_ffff {
        return Err(Error::BadRequest(literal("resource id space exhausted")));
    }
    let ghost sorted_view = sorted@;
    let total = sorted.len();
    let ghost first_new: nat = max as nat + 1;
    let mut next_id: u32 = max + 1;
    let mut changes: Vec<(u32, DumpResource)> = Vec::new();
    let mut added: usize = 0;
    let mut replaced: usize = 0;
    let mut unchanged: usize = 0;
    let mut postings: u64 = 0;
    let mut touched: Vec<bool> = Vec::new();
    let mut n: usize = 0;
    while n < 64
        invariant
            n <= 64,
            touched@.len() == n,
            forall|m: int| 0 <= m < n ==> !#[trigger] touched@[m],
        decreases 64 - n,
    {
        touched.push(false);
        n = n + 1;
    }
    proof {
        if replace {
            assert forall|x: int| 0 <= x < sorted_view.len() && classify(current, sorted_view[x]) == 1 implies store.key_in_shards(
                (#[trigger] sorted_view[x]).meta.key@,
            ) by {
                sorted_view.to_multiset_ensures();
                input.to_multiset_ensures();
                assert(sorted_view.contains(sorted_view[x]));
                assert(sorted_view.to_multiset().count(sorted_view[x]) > 0);
                assert(input.to_multiset().count(sorted_view[x]) > 0);
                let y = choose|y: int| 0 <= y < input.len() && input[y] == sorted_view[x];
                assert(classify(current, input[y]) == 1);
            }
        }
    }
    let mut index: usize = 0;
    for resource in it: sorted.into_iter()
        invariant
            index == it.index(),
            it.seq() == sorted_view,
            replace ==> forall|x: int| 0 <= x < sorted_view.len() && classify(current, sorted_view[x]) == 1
                ==> store.key_in_shards((#[trigger] sorted_view[x]).meta.key@),
            sorted_view.to_multiset() == input.to_multiset(),
            key_sorted(sorted_view),
            keys_distinct(input),
            input == incoming@,
            current == store.spec_manifest().resources@,
            resources@ == current,
            first_new == max_id(current) + 1,
            max_id(current) < u32::MAX,
            next_id == first_new + count_class(current, sorted_view.subrange(0, index as int), 2),
            unchanged == count_class(current, sorted_view.subrange(0, index as int), 0),
            replaced == count_class(current, sorted_view.subrange(0, index as int), 1),
            added == count_class(current, sorted_view.subrange(0, index as int), 2),
            !replace ==> replaced == 0,
            index <= sorted_view.len(),
            sorted_view.len() == total,
            changes@ == planned_changes(current, sorted_view.subrange(0, index as int), first_new),
            postings == if change_postings(changes@) > u64::MAX { u64::MAX as nat } else { change_postings(changes@) },
            touched@.len() == SHARD_COUNT,
            forall|m: u32| m < SHARD_COUNT ==> (#[trigger] touched@[m as int] <==> touched_shard(current, changes@, m)),
    {
        let ghost pre = sorted_view.subrange(0, index as int + 1);
        proof {
            assert(pre.drop_last() =~= sorted_view.subrange(0, index as int));
            assert(pre.last() == resource);
            lemma_count_classes(current, sorted_view.subrange(0, index as int));
        }
        let mut canonical = copy_prints(&resource.prints);
        sort_canonical(&mut canonical);
        proof {
            lemma_canonical_unique(resource.prints@, canonical@);
        }
        let content_hash = fingerprint_content_hash(&canonical);
        let shard = shard_for_key(resource.meta.key.as_str());
        let ghost before = changes@;
        match store.resource(resource.meta.key.as_str()) {
            Ok(existing) => {
                if existing.content_hash == content_hash {
                    unchanged = unchanged + 1;
                    proof {
                        assert(planned_changes(current, pre, first_new) == planned_changes(current, sorted_view.subrange(0, index as int), first_new));
                    }
                } else {
                    if !replace {
                        proof {
                            lemma_count_class_prefix(current, sorted_view, index as int + 1, 1);
                        }
                        let s = join(literal("resource "), quoted(resource.meta.key.as_str()).as_str());
                        assert(sorted_view.to_multiset() == incoming@.to_multiset() && key_sorted(sorted_view)
                            && !replace && count_class(current, sorted_view, 1) > 0);
                        return Err(Error::BadRequest(join(s, " exists with different content; set replace=true")));
                    }
                    replaced = replaced + 1;
                    let old_shard = existing.shard;
                    assert(classify(current, sorted_view[index as int]) == 1);
                    assert(old_shard < SHARD_COUNT);
                    let len = resource.prints.len() as u64;
                    postings = postings.saturating_add(len);
                    changes.push((existing.id, resource));
                    touched.set(shard as usize, true);
                    touched.set(old_shard as usize, true);
                    proof {
                        lemma_touched_push(current, before, changes@);
                        assert(changes@.drop_last() =~= before);
                    }
                }
            },
            Err(_) => {
                let id = next_id;
                if next_id == 0xffff_ffff {
                    proof {
                        lemma_count_class_prefix(current, sorted_view, index as int + 1, 2);
                    }
                    assert(sorted_view.to_multiset() == incoming@.to_multiset() && key_sorted(sorted_view)
                        && max_id(current) + count_class(current, sorted_view, 2) >= u32::MAX);
                    return Err(Error::BadRequest(literal("resource id space exhausted")));
                }
                next_id = next_id + 1;
                added = added + 1;
                let len = resource.prints.len() as u64;
                postings = postings.saturating_add(len);
                changes.push((id, resource));
                touched.set(shard as usize, true);
                proof {
                    lemma_touched_push(current, before, changes@);
                    assert(changes@.drop_last() =~= before);
                }
            },
        }
        index = index + 1;
    }
    proof {
        assert(sorted_view.subrange(0, sorted_view.len() as int) =~= sorted_view);
    }
    let mut affected: Vec<u32> = Vec::new();
    let mut m: u32 = 0;
    while m < 64
        invariant
            m <= 64,
            touched@.len() == SHARD_COUNT,
            forall|i: int, j: int| 0 <= i < j < affected@.len() ==> #[trigger] affected@[i] < #[trigger] affected@[j],
            forall|i: int| 0 <= i < affected@.len() ==> #[trigger] affected@[i] < m,
            forall|x: u32| x < m ==> (#[trigger] affected@.contains(x) <==> touched@[x as int]),
            forall|x: u32| x >= m ==> !#[trigger] affected@.contains(x),
        decreases 64 - m,
    {
        let ghost old_affected = affected@;
        if touched[m as usize] {
            affected.push(m);
        }
        proof {
            assert forall|x: u32| x < m + 1 implies (#[trigger] affected@.contains(x) <==> touched@[x as int]) by {
                if x == m && touched@[x as int] {
                    assert(affected@[affected@.len() - 1] == m);
                }
                if affected@.contains(x) {
                    let i = choose|i: int| 0 <= i < affected@.len() && affected@[i] == x;
                    if i < old_affected.len() {
                        assert(old_affected[i] == x);
                        assert(old_affected.contains(x));
                    }
                }
                if x < m && old_affected.contains(x) {
                    let i = choose|i: int| 0 <= i < old_affected.len() && old_affected[i] == x;
                    assert(affected@[i] == x);
                }
            }
            assert forall|x: u32| x >= m + 1 implies !#[trigger] affected@.contains(x) by {
                if affected@.contains(x) {
                    let i = choose|i: int| 0 <= i < affected@.len() && affected@[i] == x;
                    if i < old_affected.len() {
                        assert(old_affected[i] == x);
                        assert(old_affected.contains(x));
                    }
                }
            }
        }
        m = m + 1;
    }
    let plan = IngestPlan {
        changes,
        affected,
        resources_added: added,
        resources_replaced: replaced,
        resources_unchanged: unchanged,
        postings_added: postings,
    };
    assert(ingest_plan_matches(current, sorted_view, replace, plan));
    let result: Result<IngestPlan, Error> = Ok(plan);
    assert(result matches Ok(p) ==> exists|sorted: Seq<DumpResource>| #![trigger ingest_plan_matches(current, sorted, replace, p)]
        sorted.to_multiset() == incoming@.to_multiset() && key_sorted(sorted) && ingest_plan_matches(current, sorted, replace, p)) by {
        assert(ingest_plan_matches(current, sorted_view, replace, result->Ok_0));
    }
    result
}

} // verus!

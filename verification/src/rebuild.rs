//! Rebuilding the shards an ingest or a retirement touches, and the manifest that
//! publishes the result. File writes and publication belong to the caller.
use vstd::prelude::*;

use crate::dump::{DumpResource, ResourceMeta};
use crate::error::Error;
use crate::generation::{clone_dump, group_postings, member_matches, prepare_shard, shard_prepared, PreparedShard};
use crate::identity::{
    fingerprint_content_hash, generation_id_from_infos, shard_for_key, spec_content_hash, spec_generation_id,
    spec_shard_for_key,
};
use crate::shard::image_fits;
use crate::sorting::{sort_infos_by_id, sort_members_by_id};
use crate::store::{
    forward_refusal, identity_profile, key_index, lemma_key_index, spec_identity_profile, Manifest, ResourceInfo, ShardInfo, Store,
    SHARD_COUNT,
};
use crate::text::{debug_quoted, decimal, decimal_chars, literal};

verus! {

/// The text of an optional key.
pub open spec fn text_opt(o: Option<&str>) -> Option<Seq<char>> {
    match o {
        Some(k) => Some(k@),
        None => None,
    }
}

/// The text of an optional owned string.
pub open spec fn string_opt(o: Option<String>) -> Option<Seq<char>> {
    match o {
        Some(k) => Some(k@),
        None => None,
    }
}

/// Some change carries key `key`.
pub open spec fn changes_have_key(changes: Seq<(u32, DumpResource)>, key: Seq<char>) -> bool {
    exists|i: int| 0 <= i < changes.len() && #[trigger] changes[i].1.meta.key@ == key
}

/// A rebuild keeps resource `r`: it is neither retired nor replaced by a change.
pub open spec fn kept(r: ResourceInfo, changes: Seq<(u32, DumpResource)>, retired: Option<Seq<char>>) -> bool {
    retired != Some(r.key@) && !changes_have_key(changes, r.key@)
}

/// Every kept resource of shard `number` is read back by a key whose entry names one of the
/// generation's shards.
pub open spec fn kept_in_shards(
    store: Store,
    number: u32,
    changes: Seq<(u32, DumpResource)>,
    retired: Option<Seq<char>>,
) -> bool {
    let res = store.spec_manifest().resources@;
    forall|i: int| 0 <= i < res.len() && #[trigger] res[i].shard == number && kept(res[i], changes, retired)
        ==> store.key_in_shards(res[i].key@)
}

/// The kept resources of shard `number`, in manifest order.
pub open spec fn kept_members(
    res: Seq<ResourceInfo>,
    number: u32,
    changes: Seq<(u32, DumpResource)>,
    retired: Option<Seq<char>>,
) -> Seq<ResourceInfo> {
    res.filter(|r: ResourceInfo| r.shard == number && kept(r, changes, retired))
}

/// The changes whose key belongs to shard `number`, in order.
pub open spec fn incoming(changes: Seq<(u32, DumpResource)>, number: u32) -> Seq<(u32, DumpResource)> {
    changes.filter(|c: (u32, DumpResource)| spec_shard_for_key(c.1.meta.key@) == number)
}

/// `m` is the dump a rebuild reads back for kept resource `r`: its id and metadata, and
/// the prints stored for its key.
pub open spec fn read_back(store: Store, r: ResourceInfo, m: (u32, DumpResource)) -> bool {
    &&& m.0 == r.id
    &&& m.1.meta.source_id@ == decimal_chars(r.id as nat)
    &&& m.1.meta.key@ == r.key@
    &&& m.1.meta.duration_bits == r.duration_bits
    &&& m.1.meta.declared_prints == r.postings
    &&& m.1.prints@ == store.stored_window(store.entry(r.key@), 0, u32::MAX)
    &&& m.1.prints_path@ == Seq::<char>::empty()
}

/// `m` carries change `c` as it is.
pub open spec fn same_member(m: (u32, DumpResource), c: (u32, DumpResource)) -> bool {
    &&& m.0 == c.0
    &&& m.1.meta == c.1.meta
    &&& m.1.prints@ == c.1.prints@
    &&& m.1.prints_path == c.1.prints_path
}

/// Before ordering by id, the members of rebuilt shard `number`: its kept resources read
/// back, then the changes bound for it.
pub open spec fn group_parts(
    store: Store,
    number: u32,
    changes: Seq<(u32, DumpResource)>,
    retired: Option<Seq<char>>,
    pre: Seq<(u32, DumpResource)>,
) -> bool {
    let k = kept_members(store.spec_manifest().resources@, number, changes, retired);
    let c = incoming(changes, number);
    &&& pre.len() == k.len() + c.len()
    &&& forall|i: int| 0 <= i < k.len() ==> read_back(store, k[i], #[trigger] pre[i])
    &&& forall|j: int| 0 <= j < c.len() ==> same_member(pre[k.len() + j], #[trigger] c[j])
}

/// Members in ascending id order.
pub open spec fn ids_ascending(g: Seq<(u32, DumpResource)>) -> bool {
    forall|i: int, j: int| 0 <= i < j < g.len() ==> #[trigger] g[i].0 <= #[trigger] g[j].0
}

/// `g` is the group a rebuild lays out for shard `number`: its parts in id order.
pub open spec fn rebuilt_group(
    store: Store,
    number: u32,
    changes: Seq<(u32, DumpResource)>,
    retired: Option<Seq<char>>,
    g: Seq<(u32, DumpResource)>,
) -> bool {
    &&& ids_ascending(g)
    &&& exists|pre: Seq<(u32, DumpResource)>| #![trigger group_parts(store, number, changes, retired, pre)]
        pre.to_multiset() == g.to_multiset() && group_parts(store, number, changes, retired, pre)
}

/// Some kept resource of shard `number` cannot be read back from its shard, and `e` is the
/// error its read gives.
pub open spec fn kept_unreadable(
    store: Store,
    number: u32,
    changes: Seq<(u32, DumpResource)>,
    retired: Option<Seq<char>>,
    e: Error,
) -> bool {
    let res = store.spec_manifest().resources@;
    exists|i: int| 0 <= i < res.len() && #[trigger] res[i].shard == number && kept(res[i], changes, retired)
        && !store.readable(store.entry(res[i].key@)) && forward_refusal(res[i].key@, e)
}

/// The resource entries of prepared shards, shard by shard.
pub open spec fn all_infos(p: Seq<PreparedShard>) -> Seq<ResourceInfo>
    decreases p.len(),
{
    if p.len() == 0 {
        Seq::empty()
    } else {
        all_infos(p.drop_last()) + p.last().resources@
    }
}

/// The kept resources outside the rebuilt shards, in manifest order.
pub open spec fn kept_outside(
    res: Seq<ResourceInfo>,
    affected: Seq<u32>,
    changes: Seq<(u32, DumpResource)>,
    retired: Option<Seq<char>>,
) -> Seq<ResourceInfo> {
    res.filter(|r: ResourceInfo| !affected.contains(r.shard) && kept(r, changes, retired))
}

/// `p` lays out shard `number` for its rebuilt group.
pub open spec fn prepared_for(
    store: Store,
    number: u32,
    changes: Seq<(u32, DumpResource)>,
    retired: Option<Seq<char>>,
    p: PreparedShard,
) -> bool {
    exists|g: Seq<(u32, DumpResource)>| #![trigger rebuilt_group(store, number, changes, retired, g)]
        rebuilt_group(store, number, changes, retired, g) && shard_prepared(number, g, p)
}

/// `m` and `prepared` are what a rebuild of the `affected` shards publishes: each affected
/// shard laid out for its rebuilt group, the manifest's other shards unchanged, its
/// resources the kept ones outside the affected shards together with the rebuilt shards'
/// entries, in id order, and a generation identity over them.
pub open spec fn rebuilt(
    store: Store,
    affected: Seq<u32>,
    changes: Seq<(u32, DumpResource)>,
    retired: Option<Seq<char>>,
    m: Manifest,
    prepared: Seq<PreparedShard>,
) -> bool {
    let current = store.spec_manifest();
    &&& prepared.len() == affected.len()
    &&& forall|i: int| 0 <= i < affected.len() ==> prepared_for(store, affected[i], changes, retired, #[trigger] prepared[i])
    &&& m.version == current.version
    &&& m.config_id == current.config_id
    &&& m.fingerprint_identity_profile == current.fingerprint_identity_profile
    &&& m.shard_count == current.shard_count
    &&& m.shards@.len() == current.shards@.len()
    &&& forall|n: int| 0 <= n < current.shards@.len() && !affected.contains(n as u32) ==> #[trigger] m.shards@[n] == current.shards@[n]
    &&& forall|i: int| 0 <= i < affected.len() ==> m.shards@[#[trigger] affected[i] as int] == prepared[i].info
    &&& m.resources@.to_multiset() == (kept_outside(current.resources@, affected, changes, retired) + all_infos(prepared)).to_multiset()
    &&& forall|i: int, j: int| 0 <= i < j < m.resources@.len() ==> #[trigger] m.resources@[i].id <= #[trigger] m.resources@[j].id
    &&& m.generation@ == spec_generation_id(m.resources@, string_opt(m.fingerprint_identity_profile))
}

/// The prints-only content hash recomputed from what the store holds for `key`.
pub open spec fn corrected_hash(store: Store, key: Seq<char>) -> Seq<char> {
    spec_content_hash(store.stored_window(store.entry(key), 0, u32::MAX))
}

/// How many of `res` carry a content hash other than the recomputed one.
pub open spec fn stale_count(store: Store, res: Seq<ResourceInfo>) -> nat
    decreases res.len(),
{
    if res.len() == 0 {
        0
    } else {
        stale_count(store, res.drop_last()) + if res.last().content_hash@ != corrected_hash(store, res.last().key@) {
            1nat
        } else {
            0nat
        }
    }
}

/// The manifest is marked with the prints-only identity profile.
pub open spec fn profile_is_current(m: Manifest) -> bool {
    m.fingerprint_identity_profile matches Some(p) && p@ == spec_identity_profile()
}

/// `m` republishes the current generation with recomputed prints-only content hashes under
/// the prints-only profile; shards are reused as they are.
pub open spec fn rehashed(store: Store, m: Manifest) -> bool {
    let current = store.spec_manifest();
    &&& m.version == current.version
    &&& m.config_id == current.config_id
    &&& m.shard_count == current.shard_count
    &&& m.shards@ == current.shards@
    &&& profile_is_current(m)
    &&& m.resources@.len() == current.resources@.len()
    &&& forall|i: int| 0 <= i < current.resources@.len() ==> {
        let a = #[trigger] m.resources@[i];
        let b = current.resources@[i];
        &&& a.id == b.id
        &&& a.key == b.key
        &&& a.duration_bits == b.duration_bits
        &&& a.postings == b.postings
        &&& a.t_min == b.t_min
        &&& a.t_max == b.t_max
        &&& a.shard == b.shard
        &&& a.forward_start == b.forward_start
        &&& a.content_hash@ == corrected_hash(store, b.key@)
    }
    &&& m.generation@ == spec_generation_id(m.resources@, Some(spec_identity_profile()))
}

/// Every entry a prepared shard records comes from a member of its rebuilt group, and none
/// of those carries the retired key when nothing else changes.
proof fn lemma_prepared_infos_not_retired(
    store: Store,
    affected: Seq<u32>,
    key: Seq<char>,
    p: Seq<PreparedShard>,
)
    requires
        p.len() <= affected.len(),
        forall|i: int| 0 <= i < p.len() ==> prepared_for(store, affected[i], Seq::empty(), Some(key), #[trigger] p[i]),
    ensures
        forall|j: int| 0 <= j < all_infos(p).len() ==> (#[trigger] all_infos(p)[j]).key@ != key,
    decreases p.len(),
{
    if p.len() > 0 {
        let last = p.len() - 1;
        let changes = Seq::<(u32, DumpResource)>::empty();
        lemma_prepared_infos_not_retired(store, affected, key, p.drop_last());
        assert(prepared_for(store, affected[last], changes, Some(key), p[last]));
        let g = choose|g: Seq<(u32, DumpResource)>| #![trigger rebuilt_group(store, affected[last], changes, Some(key), g)]
            rebuilt_group(store, affected[last], changes, Some(key), g) && shard_prepared(affected[last], g, p[last]);
        let pre = choose|pre: Seq<(u32, DumpResource)>| #![trigger group_parts(store, affected[last], changes, Some(key), pre)]
            pre.to_multiset() == g.to_multiset() && group_parts(store, affected[last], changes, Some(key), pre);
        let kept_seq = kept_members(store.spec_manifest().resources@, affected[last], changes, Some(key));
        reveal(Seq::filter);
        assert(incoming(changes, affected[last]).len() == 0);
        assert forall|t: int| 0 <= t < p[last].resources@.len() implies (#[trigger] p[last].resources@[t]).key@ != key by {
            assert(member_matches(affected[last], g[t].0, g[t].1, p[last].resources@[t], p[last].forward@));
            vstd::seq_lib::to_multiset_contains(g, g[t]);
            vstd::seq_lib::to_multiset_contains(pre, g[t]);
            assert(g.contains(g[t]));
            let s = choose|s: int| 0 <= s < pre.len() && pre[s] == g[t];
            assert(read_back(store, kept_seq[s], pre[s]));
            store.spec_manifest().resources@.lemma_filter_pred(
                |r: ResourceInfo| r.shard == affected[last] && kept(r, changes, Some(key)),
                s,
            );
        }
        let a = all_infos(p.drop_last());
        let b = p[last].resources@;
        assert(all_infos(p) == a + b);
        assert forall|j: int| 0 <= j < all_infos(p).len() implies (#[trigger] all_infos(p)[j]).key@ != key by {
            if j < a.len() {
                assert(all_infos(p)[j] == a[j]);
            } else {
                assert(all_infos(p)[j] == b[j - a.len()]);
            }
        }
    }
}

/// A retirement removes the retired key: no resource of the manifest it publishes carries it.
pub proof fn lemma_retired_key_is_gone(store: Store, affected: Seq<u32>, key: Seq<char>, m: Manifest, p: Seq<PreparedShard>)
    requires
        rebuilt(store, affected, Seq::empty(), Some(key), m, p),
    ensures
        forall|i: int| 0 <= i < m.resources@.len() ==> (#[trigger] m.resources@[i]).key@ != key,
{
    let changes = Seq::<(u32, DumpResource)>::empty();
    let cur = store.spec_manifest().resources@;
    let pred = |r: ResourceInfo| !affected.contains(r.shard) && kept(r, changes, Some(key));
    let ko = kept_outside(cur, affected, changes, Some(key));
    let ai = all_infos(p);
    lemma_prepared_infos_not_retired(store, affected, key, p);
    assert forall|i: int| 0 <= i < m.resources@.len() implies (#[trigger] m.resources@[i]).key@ != key by {
        let x = m.resources@[i];
        vstd::seq_lib::to_multiset_contains(m.resources@, x);
        vstd::seq_lib::to_multiset_contains(ko + ai, x);
        assert(m.resources@.contains(x));
        let j = choose|j: int| 0 <= j < (ko + ai).len() && (ko + ai)[j] == x;
        if j < ko.len() {
            assert(ko[j] == x);
            cur.lemma_filter_pred(pred, j);
        } else {
            assert(ai[j - ko.len()] == x);
        }
    }
}

proof fn lemma_key_index_same_keys(a: Seq<ResourceInfo>, b: Seq<ResourceInfo>)
    requires
        a.len() == b.len(),
        forall|i: int| 0 <= i < a.len() ==> (#[trigger] a[i]).key@ == b[i].key@,
    ensures
        key_index(a) == key_index(b),
    decreases a.len(),
{
    if a.len() > 0 {
        lemma_key_index_same_keys(a.drop_last(), b.drop_last());
    }
}

proof fn lemma_no_stale(store: Store, res: Seq<ResourceInfo>)
    requires
        forall|i: int| 0 <= i < res.len() ==> (#[trigger] res[i]).content_hash@ == corrected_hash(store, res[i].key@),
    ensures
        stale_count(store, res) == 0,
    decreases res.len(),
{
    if res.len() > 0 {
        lemma_no_stale(store, res.drop_last());
    }
}

/// Rehashing is idempotent: once a rehashed manifest is published over the same shards,
/// every content hash is already the recomputed one and the profile is current, so a
/// second rehash changes nothing and publishes nothing.
pub proof fn lemma_rehash_is_idempotent(first: Store, m: Manifest, second: Store)
    requires
        rehashed(first, m),
        m.resources@.len() <= usize::MAX,
        second.spec_manifest().resources@ == m.resources@,
        second.spec_manifest().fingerprint_identity_profile == m.fingerprint_identity_profile,
        second.spec_shards() == first.spec_shards(),
    ensures
        stale_count(second, second.spec_manifest().resources@) == 0,
        profile_is_current(second.spec_manifest()),
{
    let cur = first.spec_manifest().resources@;
    let res = m.resources@;
    assert forall|i: int| 0 <= i < res.len() implies (#[trigger] res[i]).key@ == cur[i].key@ by {
        assert(res[i].key == cur[i].key);
    }
    lemma_key_index_same_keys(res, cur);
    lemma_key_index(cur);
    assert forall|i: int| 0 <= i < res.len() implies (#[trigger] res[i]).content_hash@ == corrected_hash(second, res[i].key@) by {
        let key = res[i].key@;
        assert(res[i].key == cur[i].key);
        assert(key_index(cur).contains_key(cur[i].key@));
        let idx = key_index(cur)[key] as int;
        assert(second.entry(key) == res[idx]);
        assert(first.entry(key) == cur[idx]);
        assert(second.stored_window(res[idx], 0, u32::MAX) == first.stored_window(cur[idx], 0, u32::MAX));
    }
    lemma_no_stale(second, res);
}

fn contains_u32(v: &Vec<u32>, x: u32) -> (r: bool)
    ensures
        r == v@.contains(x),
{
    let mut i: usize = 0;
    while i < v.len()
        invariant
            i <= v@.len(),
            forall|j: int| 0 <= j < i ==> v@[j] != x,
        decreases v@.len() - i,
    {
        if v[i] == x {
            assert(v@[i as int] == x);
            return true;
        }
        i = i + 1;
    }
    false
}

fn is_retired(retired: Option<&str>, key: &str) -> (r: bool)
    ensures
        r == (text_opt(retired) == Some(key@)),
{
    match retired {
        Some(k) => k.to_owned() == key.to_owned(),
        None => false,
    }
}

fn change_has_key(changes: &Vec<(u32, DumpResource)>, key: &str) -> (r: bool)
    ensures
        r == changes_have_key(changes@, key@),
{
    let wanted = key.to_owned();
    let mut i: usize = 0;
    while i < changes.len()
        invariant
            i <= changes@.len(),
            wanted@ == key@,
            forall|j: int| 0 <= j < i ==> #[trigger] changes@[j].1.meta.key@ != key@,
        decreases changes@.len() - i,
    {
        if changes[i].1.meta.key == wanted {
            return true;
        }
        i = i + 1;
    }
    false
}

impl Store {
    /// Whether the prints-only identity of `key` only reads a shard the generation has: on
    /// a current profile it reads nothing, otherwise it reads the key's stored prints.
    pub fn hash_reads_shards(&self, key: &str) -> (b: bool)
        ensures
            b == (!profile_is_current(self.spec_manifest()) ==> self.key_in_shards(key@)),
    {
        let current = self.manifest();
        let v1 = match &current.fingerprint_identity_profile {
            Some(p) => *p == literal(identity_profile()),
            None => false,
        };
        v1 || self.key_names_shard(key)
    }

    /// Whether every kept resource of shard `number` is read back by a key whose entry names
    /// one of the generation's shards (a rebuild of the shard needs it).
    pub fn group_keys_name_shards(&self, number: u32, changes: &Vec<(u32, DumpResource)>, retired: Option<&str>) -> (b: bool)
        ensures
            b == kept_in_shards(*self, number, changes@, text_opt(retired)),
    {
        let res = self.resources();
        let mut i: usize = 0;
        while i < res.len()
            invariant
                i <= res@.len(),
                res@ == self.spec_manifest().resources@,
                forall|k: int| 0 <= k < i && #[trigger] res@[k].shard == number && kept(res@[k], changes@, text_opt(retired))
                    ==> self.key_in_shards(res@[k].key@),
            decreases res@.len() - i,
        {
            let r = &res[i];
            if r.shard == number && !is_retired(retired, r.key.as_str()) && !change_has_key(changes, r.key.as_str())
                && !self.key_names_shard(r.key.as_str()) {
                return false;
            }
            i = i + 1;
        }
        true
    }

    /// The members of shard `number` after a rebuild, in id order: each kept resource read
    /// back from its shard, then each change bound for the shard.
    pub fn rebuild_group(&self, number: u32, changes: &Vec<(u32, DumpResource)>, retired: Option<&str>) -> (r: Result<
        Vec<(u32, DumpResource)>,
        Error,
    >)
        requires
            kept_in_shards(*self, number, changes@, text_opt(retired)),
        ensures
            match r {
                Ok(g) => rebuilt_group(*self, number, changes@, text_opt(retired), g@),
                Err(e) => kept_unreadable(*self, number, changes@, text_opt(retired), e),
            },
    {
        let ghost cs = changes@;
        let ghost rt = text_opt(retired);
        let res = &self.manifest().resources;
        let ghost current = res@;
        let total = res.len();
        proof {
            lemma_key_index(current);
        }
        let mut group: Vec<(u32, DumpResource)> = Vec::new();
        let mut k: usize = 0;
        while k < total
            invariant
                k <= total == current.len(),
                res@ == current,
                current == self.spec_manifest().resources@,
                cs == changes@,
                rt == text_opt(retired),
                kept_in_shards(*self, number, cs, rt),
                forall|i: int| 0 <= i < current.len() ==> key_index(current).contains_key(#[trigger] current[i].key@),
                group@.len() == kept_members(current.subrange(0, k as int), number, cs, rt).len(),
                forall|i: int| 0 <= i < group@.len() ==> read_back(
                    *self,
                    kept_members(current.subrange(0, k as int), number, cs, rt)[i],
                    #[trigger] group@[i],
                ),
            decreases total - k,
        {
            let r = &res[k];
            let ghost before = group@;
            proof {
                assert(current.subrange(0, k as int + 1).drop_last() =~= current.subrange(0, k as int));
                assert(current.subrange(0, k as int + 1).last() == *r);
            }
            if r.shard == number && !is_retired(retired, r.key.as_str()) && !change_has_key(changes, r.key.as_str()) {
                assert(current[k as int].shard == number && kept(current[k as int], cs, rt));
                let prints = match self.forward(r.key.as_str(), None) {
                    Ok(p) => p,
                    Err(e) => {
                        proof {
                            assert(current[k as int].shard == number);
                        }
                        return Err(e);
                    },
                };
                let member = (
                    r.id,
                    DumpResource {
                        meta: ResourceMeta {
                            source_id: decimal(r.id as u64),
                            key: r.key.clone(),
                            duration_bits: r.duration_bits,
                            declared_prints: r.postings,
                        },
                        prints,
                        prints_path: String::new(),
                    },
                );
                group.push(member);
                proof {
                    reveal(Seq::filter);
                    let kb = kept_members(current.subrange(0, k as int), number, cs, rt);
                    let ka = kept_members(current.subrange(0, k as int + 1), number, cs, rt);
                    assert(ka == kb.push(*r));
                    assert forall|i: int| 0 <= i < group@.len() implies read_back(*self, ka[i], #[trigger] group@[i]) by {
                        if i < before.len() {
                            assert(group@[i] == before[i]);
                            assert(ka[i] == kb[i]);
                        }
                    }
                }
            } else {
                proof {
                    reveal(Seq::filter);
                    let kb = kept_members(current.subrange(0, k as int), number, cs, rt);
                    let ka = kept_members(current.subrange(0, k as int + 1), number, cs, rt);
                    assert(ka == kb);
                }
            }
            k = k + 1;
        }
        assert(current.subrange(0, total as int) =~= current);
        let ghost kept_count = group@.len();
        let ghost kept_seq = kept_members(current, number, cs, rt);
        let mut j: usize = 0;
        while j < changes.len()
            invariant
                j <= changes@.len(),
                cs == changes@,
                kept_seq == kept_members(current, number, cs, rt),
                kept_count == kept_seq.len(),
                group@.len() == kept_count + incoming(cs.subrange(0, j as int), number).len(),
                forall|i: int| 0 <= i < kept_count ==> read_back(*self, kept_seq[i], #[trigger] group@[i]),
                forall|i: int| 0 <= i < incoming(cs.subrange(0, j as int), number).len() ==> same_member(
                    group@[kept_count + i],
                    #[trigger] incoming(cs.subrange(0, j as int), number)[i],
                ),
            decreases changes@.len() - j,
        {
            let ghost before = group@;
            proof {
                assert(cs.subrange(0, j as int + 1).drop_last() =~= cs.subrange(0, j as int));
            }
            let c = &changes[j];
            if shard_for_key(c.1.meta.key.as_str()) == number {
                group.push((c.0, clone_dump(&c.1)));
                proof {
                    reveal(Seq::filter);
                    let ib = incoming(cs.subrange(0, j as int), number);
                    let ia = incoming(cs.subrange(0, j as int + 1), number);
                    assert(ia == ib.push(*c));
                    assert forall|i: int| 0 <= i < kept_count implies read_back(*self, kept_seq[i], #[trigger] group@[i]) by {
                        assert(group@[i] == before[i]);
                    }
                    assert forall|i: int| 0 <= i < ia.len() implies same_member(group@[kept_count + i], #[trigger] ia[i]) by {
                        if i < ib.len() {
                            assert(group@[kept_count + i] == before[kept_count + i]);
                            assert(ia[i] == ib[i]);
                        }
                    }
                }
            } else {
                proof {
                    reveal(Seq::filter);
                    let ib = incoming(cs.subrange(0, j as int), number);
                    let ia = incoming(cs.subrange(0, j as int + 1), number);
                    assert(ia == ib);
                }
            }
            j = j + 1;
        }
        assert(cs.subrange(0, cs.len() as int) =~= cs);
        let ghost pre = group@;
        assert(group_parts(*self, number, cs, rt, pre));
        sort_members_by_id(&mut group);
        assert(rebuilt_group(*self, number, cs, rt, group@));
        Ok(group)
    }

    /// Checks a retirement (before its shard is rebuilt): the key must name a resource
    /// that is not the generation's last one. Returns the retired entry; its shard is the one
    /// to rebuild.
    pub fn plan_retire(&self, key: &str) -> (r: Result<ResourceInfo, Error>)
        ensures
            ({
                let res = self.spec_manifest().resources@;
                match r {
                    Ok(info) => key_index(res).contains_key(key@) && info == self.entry(key@) && res.len() > 1,
                    Err(e) => if !key_index(res).contains_key(key@) {
                        e matches Error::BadRequest(m) && m@ == "unknown resource key "@ + debug_quoted(key@)
                    } else {
                        res.len() == 1 && (e matches Error::BadRequest(m)
                            && m@ == "retiring the final resource would create an empty store"@)
                    },
                }
            }),
    {
        let retired = match self.resource(key) {
            Ok(info) => info.clone(),
            Err(e) => return Err(e),
        };
        if self.resources().len() == 1 {
            return Err(Error::BadRequest(literal("retiring the final resource would create an empty store")));
        }
        Ok(retired)
    }

    /// The prints-only identity of resource `key`: the recorded content hash under the
    /// prints-only profile, otherwise recomputed from the stored prints.
    pub fn fingerprint_content_hash(&self, key: &str) -> (r: Result<String, Error>)
        requires
            !profile_is_current(self.spec_manifest()) ==> self.key_in_shards(key@),
        ensures
            ({
                let res = self.spec_manifest().resources@;
                let info = self.entry(key@);
                match r {
                    Ok(h) => key_index(res).contains_key(key@) && if profile_is_current(self.spec_manifest()) {
                        h == info.content_hash
                    } else {
                        self.readable(info) && h@ == corrected_hash(*self, key@)
                    },
                    Err(e) => if !key_index(res).contains_key(key@) {
                        e matches Error::BadRequest(m) && m@ == "unknown resource key "@ + debug_quoted(key@)
                    } else {
                        !profile_is_current(self.spec_manifest()) && !self.readable(info) && forward_refusal(key@, e)
                    },
                }
            }),
    {
        let current = self.manifest();
        let v1 = match &current.fingerprint_identity_profile {
            Some(p) => *p == literal(identity_profile()),
            None => false,
        };
        if v1 {
            return match self.resource(key) {
                Ok(info) => Ok(info.content_hash.clone()),
                Err(e) => Err(e),
            };
        }
        match self.forward(key, None) {
            Ok(prints) => Ok(fingerprint_content_hash(&prints)),
            Err(e) => Err(e),
        }
    }

    /// Republishes the generation with prints-only content hashes recomputed from the stored
    /// prints (before publication). Returns the manifest, how many
    /// hashes changed, and whether anything changed at all (hashes or profile).
    pub fn rehash_identities(&self) -> (r: Result<(Manifest, usize, bool), Error>)
        requires
            self.all_keys_in_shards(),
        ensures
            ({
                let res = self.spec_manifest().resources@;
                match r {
                    Ok((m, changed, published)) => rehashed(*self, m) && changed == stale_count(*self, res)
                        && published == (changed != 0 || !profile_is_current(self.spec_manifest())),
                    Err(e) => exists|i: int| 0 <= i < res.len() && !self.readable(self.entry(#[trigger] res[i].key@))
                        && forward_refusal(res[i].key@, e),
                }
            }),
    {
        let current = self.manifest();
        let res = &current.resources;
        let ghost cur = res@;
        let total = res.len();
        proof {
            lemma_key_index(cur);
        }
        let mut resources: Vec<ResourceInfo> = Vec::new();
        let mut changed: usize = 0;
        let mut k: usize = 0;
        while k < total
            invariant
                k <= total == cur.len(),
                res@ == cur,
                cur == self.spec_manifest().resources@,
                self.all_keys_in_shards(),
                forall|i: int| 0 <= i < cur.len() ==> key_index(cur).contains_key(#[trigger] cur[i].key@),
                resources@.len() == k,
                changed == stale_count(*self, cur.subrange(0, k as int)),
                changed <= k,
                forall|i: int| 0 <= i < k ==> {
                    let a = #[trigger] resources@[i];
                    let b = cur[i];
                    &&& a.id == b.id
                    &&& a.key == b.key
                    &&& a.duration_bits == b.duration_bits
                    &&& a.postings == b.postings
                    &&& a.t_min == b.t_min
                    &&& a.t_max == b.t_max
                    &&& a.shard == b.shard
                    &&& a.forward_start == b.forward_start
                    &&& a.content_hash@ == corrected_hash(*self, b.key@)
                },
            decreases total - k,
        {
            let r = &res[k];
            let prints = match self.forward(r.key.as_str(), None) {
                Ok(p) => p,
                Err(e) => {
                    assert(key_index(cur).contains_key(cur[k as int].key@));
                    return Err(e);
                },
            };
            let corrected = fingerprint_content_hash(&prints);
            proof {
                assert(cur.subrange(0, k as int + 1).drop_last() =~= cur.subrange(0, k as int));
            }
            if !(r.content_hash == corrected) {
                changed = changed + 1;
            }
            resources.push(ResourceInfo {
                id: r.id,
                key: r.key.clone(),
                duration_bits: r.duration_bits,
                postings: r.postings,
                t_min: r.t_min,
                t_max: r.t_max,
                content_hash: corrected,
                shard: r.shard,
                forward_start: r.forward_start,
            });
            k = k + 1;
        }
        assert(cur.subrange(0, total as int) =~= cur);
        let profile_changed = match &current.fingerprint_identity_profile {
            Some(p) => !(*p == literal(identity_profile())),
            None => true,
        };
        let mut shards: Vec<ShardInfo> = Vec::new();
        let mut n: usize = 0;
        while n < current.shards.len()
            invariant
                n <= current.shards@.len(),
                shards@ == current.shards@.subrange(0, n as int),
            decreases current.shards@.len() - n,
        {
            shards.push(current.shards[n].clone());
            n = n + 1;
            assert(shards@ =~= current.shards@.subrange(0, n as int));
        }
        assert(current.shards@.subrange(0, current.shards@.len() as int) =~= current.shards@);
        let generation = generation_id_from_infos(&resources, Some(identity_profile()));
        let manifest = Manifest {
            version: current.version,
            generation,
            config_id: current.config_id.clone(),
            fingerprint_identity_profile: Some(literal(identity_profile())),
            shard_count: current.shard_count,
            resources,
            shards,
        };
        let published = changed != 0 || profile_changed;
        Ok((manifest, changed, published))
    }

    /// Rebuilds the `affected` shards (ascending, each below 64) for the given changes and
    /// retirement, and assembles the manifest that publishes them.
    pub fn rebuild_changed_shards(&self, affected: &Vec<u32>, changes: &Vec<(u32, DumpResource)>, retired: Option<&str>) -> (r: Result<
        (Manifest, Vec<PreparedShard>),
        Error,
    >)
        requires
            forall|i: int, j: int| 0 <= i < j < affected@.len() ==> #[trigger] affected@[i] < #[trigger] affected@[j],
            forall|i: int| 0 <= i < affected@.len() ==> #[trigger] affected@[i] < SHARD_COUNT,
            forall|i: int| 0 <= i < affected@.len() ==> kept_in_shards(*self, #[trigger] affected@[i], changes@, text_opt(retired)),
        ensures
            match r {
                Ok((m, p)) => rebuilt(*self, affected@, changes@, text_opt(retired), m, p@),
                Err(e) => (exists|i: int| 0 <= i < affected@.len() && kept_unreadable(
                    *self,
                    #[trigger] affected@[i],
                    changes@,
                    text_opt(retired),
                    e,
                )) || ((e matches Error::Internal(m) && m@ == "shard exceeds the 64-bit file layout"@)
                    && exists|i: int, g: Seq<(u32, DumpResource)>|
                    #![trigger rebuilt_group(*self, affected@[i], changes@, text_opt(retired), g)]
                    0 <= i < affected@.len() && rebuilt_group(*self, affected@[i], changes@, text_opt(retired), g)
                    && !image_fits(group_postings(g), group_postings(g))),
            },
    {
        let ghost cs = changes@;
        let ghost rt = text_opt(retired);
        let ghost aff = affected@;
        let current = self.manifest();
        let mut prepared: Vec<PreparedShard> = Vec::new();
        let mut i: usize = 0;
        while i < affected.len()
            invariant
                i <= aff.len(),
                aff == affected@,
                cs == changes@,
                rt == text_opt(retired),
                forall|k: int| 0 <= k < aff.len() ==> kept_in_shards(*self, #[trigger] aff[k], cs, rt),
                prepared@.len() == i,
                forall|k: int| 0 <= k < i ==> prepared_for(*self, aff[k], cs, rt, #[trigger] prepared@[k]),
            decreases aff.len() - i,
        {
            let number = affected[i];
            let group = match self.rebuild_group(number, changes, retired) {
                Ok(g) => g,
                Err(e) => {
                    assert(kept_unreadable(*self, aff[i as int], cs, rt, e));
                    return Err(e);
                },
            };
            let ghost g = group@;
            let p = match prepare_shard(number, group) {
                Ok(p) => p,
                Err(e) => {
                    assert(rebuilt_group(*self, aff[i as int], cs, rt, g));
                    return Err(e);
                },
            };
            let ghost before = prepared@;
            prepared.push(p);
            proof {
                assert(rebuilt_group(*self, aff[i as int], cs, rt, g));
                assert forall|k: int| 0 <= k < i + 1 implies prepared_for(*self, aff[k], cs, rt, #[trigger] prepared@[k]) by {
                    if k < i {
                        assert(prepared@[k] == before[k]);
                    }
                }
            }
            i = i + 1;
        }
        let res = &current.resources;
        let ghost cur = res@;
        let mut resources: Vec<ResourceInfo> = Vec::new();
        let mut k: usize = 0;
        while k < res.len()
            invariant
                k <= cur.len(),
                res@ == cur,
                aff == affected@,
                cs == changes@,
                rt == text_opt(retired),
                resources@ == kept_outside(cur.subrange(0, k as int), aff, cs, rt),
            decreases cur.len() - k,
        {
            let r = &res[k];
            proof {
                reveal(Seq::filter);
                assert(cur.subrange(0, k as int + 1).drop_last() =~= cur.subrange(0, k as int));
                assert(cur.subrange(0, k as int + 1).last() == *r);
            }
            if !contains_u32(affected, r.shard) && !is_retired(retired, r.key.as_str()) && !change_has_key(changes, r.key.as_str()) {
                resources.push(r.clone());
            }
            k = k + 1;
        }
        assert(cur.subrange(0, cur.len() as int) =~= cur);
        let ghost outside = resources@;
        let mut i: usize = 0;
        while i < prepared.len()
            invariant
                i <= prepared@.len(),
                resources@ == outside + all_infos(prepared@.subrange(0, i as int)),
            decreases prepared@.len() - i,
        {
            let infos = &prepared[i].resources;
            let ghost base = resources@;
            let mut j: usize = 0;
            while j < infos.len()
                invariant
                    j <= infos@.len(),
                    resources@ == base + infos@.subrange(0, j as int),
                decreases infos@.len() - j,
            {
                resources.push(infos[j].clone());
                j = j + 1;
                assert(resources@ =~= base + infos@.subrange(0, j as int));
            }
            proof {
                let pre = prepared@.subrange(0, i as int + 1);
                assert(pre.drop_last() =~= prepared@.subrange(0, i as int));
                assert(infos@.subrange(0, infos@.len() as int) =~= infos@);
                assert(resources@ =~= outside + all_infos(pre));
            }
            i = i + 1;
        }
        assert(prepared@.subrange(0, prepared@.len() as int) =~= prepared@);
        sort_infos_by_id(&mut resources);
        let mut shards: Vec<ShardInfo> = Vec::new();
        let mut n: usize = 0;
        while n < current.shards.len()
            invariant
                n <= current.shards@.len(),
                shards@ == current.shards@.subrange(0, n as int),
            decreases current.shards@.len() - n,
        {
            shards.push(current.shards[n].clone());
            n = n + 1;
            assert(shards@ =~= current.shards@.subrange(0, n as int));
        }
        assert(current.shards@.subrange(0, current.shards@.len() as int) =~= current.shards@);
        let mut i: usize = 0;
        while i < affected.len()
            invariant
                i <= aff.len(),
                aff == affected@,
                prepared@.len() == aff.len(),
                current.shards@.len() == SHARD_COUNT,
                shards@.len() == SHARD_COUNT,
                forall|x: int, y: int| 0 <= x < y < aff.len() ==> #[trigger] aff[x] < #[trigger] aff[y],
                forall|x: int| 0 <= x < aff.len() ==> #[trigger] aff[x] < SHARD_COUNT,
                forall|m: int| 0 <= m < SHARD_COUNT && !aff.subrange(0, i as int).contains(m as u32) ==> #[trigger] shards@[m] == current.shards@[m],
                forall|x: int| 0 <= x < i ==> shards@[#[trigger] aff[x] as int] == prepared@[x].info,
            decreases aff.len() - i,
        {
            let number = affected[i];
            let ghost before = shards@;
            shards.set(number as usize, prepared[i].info.clone());
            proof {
                assert forall|m: int| 0 <= m < SHARD_COUNT && !aff.subrange(0, i as int + 1).contains(m as u32) implies #[trigger] shards@[m] == current.shards@[m] by {
                    assert(aff.subrange(0, i as int + 1)[i as int] == number);
                    if aff.subrange(0, i as int).contains(m as u32) {
                        let x = choose|x: int| 0 <= x < i && aff.subrange(0, i as int)[x] == m as u32;
                        assert(aff.subrange(0, i as int + 1)[x] == m as u32);
                    }
                }
                assert forall|x: int| 0 <= x < i + 1 implies shards@[#[trigger] aff[x] as int] == prepared@[x].info by {
                    if x < i {
                        assert(aff[x] < aff[i as int]);
                    }
                }
            }
            i = i + 1;
        }
        proof {
            assert(aff.subrange(0, aff.len() as int) =~= aff);
        }
        let profile = match &current.fingerprint_identity_profile {
            Some(p) => Some(p.as_str()),
            None => None,
        };
        let generation = generation_id_from_infos(&resources, profile);
        let manifest = Manifest {
            version: current.version,
            generation,
            config_id: current.config_id.clone(),
            fingerprint_identity_profile: current.fingerprint_identity_profile.clone(),
            shard_count: current.shard_count,
            resources,
            shards,
        };
        proof {
            let m = manifest;
            let cm = self.spec_manifest();
            assert(m.resources@.to_multiset() == (kept_outside(cm.resources@, aff, cs, rt) + all_infos(prepared@)).to_multiset());
            assert(forall|n: int| 0 <= n < cm.shards@.len() && !aff.contains(n as u32) ==> #[trigger] m.shards@[n] == cm.shards@[n]);
            assert(forall|i: int| 0 <= i < aff.len() ==> m.shards@[#[trigger] aff[i] as int] == prepared@[i].info);
            assert(m.generation@ == spec_generation_id(m.resources@, string_opt(m.fingerprint_identity_profile)));
        }
        Ok((manifest, prepared))
    }
}

} // verus!

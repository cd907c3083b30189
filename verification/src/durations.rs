//! Authoritative duration metadata: a complete key-to-duration map republishes a
//! generation whose only changes are durations and the generation identity.
use vstd::hash_map::StringHashMap;
use vstd::prelude::*;

use crate::error::Error;
use crate::identity::{generation_id_from_infos, spec_generation_id};
use crate::keyed::{has_key, last_index_of, lemma_last_index_of};
use crate::rebuild::profile_is_current;
use crate::store::{identity_profile, key_index, lemma_key_index, Manifest, ResourceInfo, ShardInfo, Store};
use crate::store::spec_identity_profile;
use crate::text::{debug_quoted, join, literal, quoted};

verus! {

/// One row of a duration map: the key, the IEEE-754 bit pattern of its duration in seconds,
/// and whether the duration is plausible for the resource (finite, positive and consistent
/// with its stored fingerprint extent, which the caller judges).
pub struct DurationUpdate {
    pub key: String,
    pub duration_bits: u64,
    pub plausible: bool,
}

pub open spec fn update_keys(u: Seq<DurationUpdate>) -> Seq<String> {
    u.map_values(|x: DurationUpdate| x.key)
}

/// The duration map may be published over the store: the store carries the prints-only
/// profile and is at the expected generation, and the map names every key of the generation
/// exactly once, no other key, and only plausible durations.
pub open spec fn durations_acceptable(store: Store, expected: Seq<char>, u: Seq<DurationUpdate>) -> bool {
    let m = store.spec_manifest();
    let res = m.resources@;
    &&& profile_is_current(m)
    &&& m.generation@ == expected
    &&& forall|i: int, j: int| 0 <= i < j < u.len() ==> (#[trigger] u[i]).key@ != (#[trigger] u[j]).key@
    &&& forall|i: int| 0 <= i < u.len() ==> key_index(res).contains_key((#[trigger] u[i]).key@) && u[i].plausible
    &&& forall|r: int| 0 <= r < res.len() ==> has_key(update_keys(u), (#[trigger] res[r]).key@)
}

/// The duration the map assigns to `key`.
pub open spec fn duration_for(u: Seq<DurationUpdate>, key: Seq<char>) -> u64 {
    u[last_index_of(update_keys(u))[key] as int].duration_bits
}

/// How many of `res` get a duration other than the one they carry.
pub open spec fn durations_changed(res: Seq<ResourceInfo>, u: Seq<DurationUpdate>) -> nat
    decreases res.len(),
{
    if res.len() == 0 {
        0
    } else {
        durations_changed(res.drop_last(), u) + if duration_for(u, res.last().key@) != res.last().duration_bits {
            1nat
        } else {
            0nat
        }
    }
}

/// `m` republishes the store's generation with the map's durations: every other resource
/// field, the shards and the profile stay, and the generation identity is recomputed.
pub open spec fn with_durations(store: Store, u: Seq<DurationUpdate>, m: Manifest) -> bool {
    let current = store.spec_manifest();
    &&& m.version == current.version
    &&& m.config_id == current.config_id
    &&& m.shard_count == current.shard_count
    &&& m.shards@ == current.shards@
    &&& m.fingerprint_identity_profile == current.fingerprint_identity_profile
    &&& m.resources@.len() == current.resources@.len()
    &&& forall|i: int| 0 <= i < current.resources@.len() ==> {
        let a = #[trigger] m.resources@[i];
        let b = current.resources@[i];
        &&& a.id == b.id
        &&& a.key == b.key
        &&& a.duration_bits == duration_for(u, b.key@)
        &&& a.postings == b.postings
        &&& a.t_min == b.t_min
        &&& a.t_max == b.t_max
        &&& a.content_hash == b.content_hash
        &&& a.shard == b.shard
        &&& a.forward_start == b.forward_start
    }
    &&& m.generation@ == spec_generation_id(m.resources@, Some(spec_identity_profile()))
}

fn refuse(message: &str, key: &str) -> (e: Error)
    ensures
        e matches Error::BadRequest(m) && m@ == message@ + debug_quoted(key@),
{
    Error::BadRequest(join(literal(message), quoted(key).as_str()))
}

proof fn lemma_nothing_changed(res: Seq<ResourceInfo>, u: Seq<DurationUpdate>)
    requires
        forall|i: int| 0 <= i < res.len() ==> duration_for(u, (#[trigger] res[i]).key@) == res[i].duration_bits,
    ensures
        durations_changed(res, u) == 0,
    decreases res.len(),
{
    if res.len() > 0 {
        let pre = res.drop_last();
        assert forall|i: int| 0 <= i < pre.len() implies duration_for(u, (#[trigger] pre[i]).key@) == pre[i].duration_bits by {
            assert(pre[i] == res[i]);
        }
        lemma_nothing_changed(pre, u);
    }
}

/// Publishing a duration map is idempotent: applying the same map to the generation it
/// produced changes no duration and yields the same resources and generation identity.
pub proof fn lemma_set_durations_is_idempotent(store: Store, u: Seq<DurationUpdate>, m: Manifest, again: Store, m2: Manifest)
    requires
        with_durations(store, u, m),
        again.spec_manifest() == m,
        with_durations(again, u, m2),
    ensures
        durations_changed(m.resources@, u) == 0,
        m2.resources@ == m.resources@,
        m2.generation@ == m.generation@,
{
    let res = store.spec_manifest().resources@;
    assert forall|i: int| 0 <= i < m.resources@.len() implies duration_for(u, (#[trigger] m.resources@[i]).key@)
        == m.resources@[i].duration_bits by {
        assert(m.resources@[i].key == res[i].key);
    }
    lemma_nothing_changed(m.resources@, u);
    assert forall|i: int| 0 <= i < m.resources@.len() implies #[trigger] m2.resources@[i] == m.resources@[i] by {
        assert(m.resources@[i].key == res[i].key);
    }
    assert(m2.resources@ =~= m.resources@);
}

impl Store {
    /// Checks a duration map and prepares the generation that publishes it (`set-durations`
    /// before publication). Returns the manifest and how many durations change; a map that
    /// changes nothing yields the current generation's identity again.
    pub fn set_durations(&self, expected_generation: &str, updates: &Vec<DurationUpdate>) -> (r: Result<(Manifest, usize), Error>)
        ensures
            r is Ok <==> durations_acceptable(*self, expected_generation@, updates@),
            r matches Ok((m, changed)) ==> with_durations(*self, updates@, m)
                && changed == durations_changed(self.spec_manifest().resources@, updates@),
            r matches Err(e) ==> e is BadRequest,
            !profile_is_current(self.spec_manifest()) ==> (r matches Err(Error::BadRequest(m))
                && m@ == "durations can only be set on a prints-v1 store; run rehash-identities first"@),
            profile_is_current(self.spec_manifest()) && self.spec_manifest().generation@ != expected_generation@
                ==> (r matches Err(Error::BadRequest(m)) && m@ == "store generation differs from the expected generation "@
                + debug_quoted(self.spec_manifest().generation@)),
            profile_is_current(self.spec_manifest()) && self.spec_manifest().generation@ == expected_generation@
                && r is Err ==> (r matches Err(Error::BadRequest(m)) && exists|k: Seq<char>| {
                    ||| m@ == "duration map names a key twice: "@ + #[trigger] debug_quoted(k)
                    ||| m@ == "duration map names an unknown key: "@ + debug_quoted(k)
                    ||| m@ == "implausible duration for "@ + debug_quoted(k)
                    ||| m@ == "duration map has no duration for "@ + debug_quoted(k)
                }),
    {
        let current = self.manifest();
        let res = &current.resources;
        let ghost cur = res@;
        let ghost u = updates@;
        let ghost keys = update_keys(u);
        let v1 = match &current.fingerprint_identity_profile {
            Some(p) => *p == literal(identity_profile()),
            None => false,
        };
        if !v1 {
            return Err(Error::BadRequest(literal("durations can only be set on a prints-v1 store; run rehash-identities first")));
        }
        if !(current.generation == literal(expected_generation)) {
            return Err(refuse("store generation differs from the expected generation ", current.generation.as_str()));
        }
        proof {
            lemma_key_index(cur);
        }
        let mut by_key: StringHashMap<usize> = StringHashMap::new();
        let mut i: usize = 0;
        while i < updates.len()
            invariant
                i <= u.len(),
                u == updates@,
                keys == update_keys(u),
                cur == self.spec_manifest().resources@,
                self.spec_manifest().generation@ == expected_generation@,
                profile_is_current(self.spec_manifest()),
                by_key@ == last_index_of(keys.subrange(0, i as int)),
                forall|a: int, b: int| 0 <= a < b < i ==> (#[trigger] u[a]).key@ != (#[trigger] u[b]).key@,
                forall|a: int| 0 <= a < i ==> key_index(cur).contains_key((#[trigger] u[a]).key@) && u[a].plausible,
            decreases u.len() - i,
        {
            let row = &updates[i];
            proof {
                lemma_last_index_of(keys.subrange(0, i as int));
                assert(keys.subrange(0, i as int + 1).drop_last() =~= keys.subrange(0, i as int));
            }
            if by_key.contains_key(row.key.as_str()) {
                proof {
                    let j = by_key@[row.key@] as int;
                    assert(keys.subrange(0, i as int)[j] == keys[j]);
                    assert(u[j].key@ == u[i as int].key@);
                }
                return Err(refuse("duration map names a key twice: ", row.key.as_str()));
            }
            if self.resource(row.key.as_str()).is_err() {
                return Err(refuse("duration map names an unknown key: ", row.key.as_str()));
            }
            if !row.plausible {
                return Err(refuse("implausible duration for ", row.key.as_str()));
            }
            proof {
                assert forall|a: int| 0 <= a < i implies (#[trigger] u[a]).key@ != u[i as int].key@ by {
                    assert(keys.subrange(0, i as int)[a] == keys[a]);
                    assert(has_key(keys.subrange(0, i as int), u[a].key@));
                }
            }
            by_key.insert(row.key.clone(), i);
            i = i + 1;
        }
        proof {
            assert(keys.subrange(0, u.len() as int) =~= keys);
            lemma_last_index_of(keys);
        }
        let total = res.len();
        let mut resources: Vec<ResourceInfo> = Vec::new();
        let mut changed: usize = 0;
        let mut k: usize = 0;
        while k < total
            invariant
                k <= total == cur.len(),
                res@ == cur,
                u == updates@,
                keys == update_keys(u),
                cur == self.spec_manifest().resources@,
                self.spec_manifest().generation@ == expected_generation@,
                profile_is_current(self.spec_manifest()),
                by_key@ == last_index_of(keys),
                forall|x: Seq<char>| #[trigger] last_index_of(keys).contains_key(x) <==> has_key(keys, x),
                forall|x: Seq<char>| #[trigger] last_index_of(keys).contains_key(x) ==> last_index_of(keys)[x] < u.len(),
                forall|r: int| 0 <= r < k ==> has_key(keys, (#[trigger] cur[r]).key@),
                resources@.len() == k,
                changed == durations_changed(cur.subrange(0, k as int), u),
                changed <= k,
                forall|x: int| 0 <= x < k ==> {
                    let a = #[trigger] resources@[x];
                    let b = cur[x];
                    &&& a.id == b.id
                    &&& a.key == b.key
                    &&& a.duration_bits == duration_for(u, b.key@)
                    &&& a.postings == b.postings
                    &&& a.t_min == b.t_min
                    &&& a.t_max == b.t_max
                    &&& a.content_hash == b.content_hash
                    &&& a.shard == b.shard
                    &&& a.forward_start == b.forward_start
                },
            decreases total - k,
        {
            let r = &res[k];
            let slot = match by_key.get(r.key.as_str()) {
                Some(s) => *s,
                None => {
                    return Err(refuse("duration map has no duration for ", r.key.as_str()));
                },
            };
            let bits = updates[slot].duration_bits;
            proof {
                assert(cur.subrange(0, k as int + 1).drop_last() =~= cur.subrange(0, k as int));
            }
            if bits != r.duration_bits {
                changed = changed + 1;
            }
            resources.push(ResourceInfo {
                id: r.id,
                key: r.key.clone(),
                duration_bits: bits,
                postings: r.postings,
                t_min: r.t_min,
                t_max: r.t_max,
                content_hash: r.content_hash.clone(),
                shard: r.shard,
                forward_start: r.forward_start,
            });
            k = k + 1;
        }
        assert(cur.subrange(0, total as int) =~= cur);
        let mut shards: Vec<ShardInfo> = Vec::new();
        let mut n: usize = 0;
        while n < current.shards.len()
            invariant
                n <= current.shards@.len(),
                shards@ == current.shards@.subrange(0, n as int),
            decreases current.shards@.len() - n,
        {
            shards.push(current.shards[n].clone());
            n = n + 1;
            assert(shards@ =~= current.shards@.subrange(0, n as int));
        }
        assert(current.shards@.subrange(0, current.shards@.len() as int) =~= current.shards@);
        let generation = generation_id_from_infos(&resources, Some(identity_profile()));
        let manifest = Manifest {
            version: current.version,
            generation,
            config_id: current.config_id.clone(),
            fingerprint_identity_profile: match &current.fingerprint_identity_profile {
                Some(p) => Some(p.clone()),
                None => None,
            },
            shard_count: current.shard_count,
            resources,
            shards,
        };
        Ok((manifest, changed))
    }
}

} // verus!

//! Store generations: the manifest, its validation, and read access to the mapped shards.
use vstd::hash_map::{HashMapWithView, StringHashMap};
use vstd::prelude::*;
use vstd::std_specs::hash::axiom_u32_obeys_hash_table_key_model;

use memmap2::Mmap;

use crate::config::{config_id, spec_config_id, MAX_HASH, QUERY_RANGE};
use crate::error::Error;
use crate::fingerprint::Fingerprint;
use crate::shard::{
    forward_in, forward_window, header_at, header_refusal, index_sorted, lookup_range_in, owned_by, parse_shard_header,
    prepend_hits, range_hits, range_in_bounds, regions_fit, shard_acceptable, shard_scan, window_bounds, ShardHeader,
    StoredHit,
    STORE_VERSION,
};
use crate::text::{debug_quoted, decimal, decimal_chars, join, literal, quoted};

verus! {

pub const SHARD_COUNT: u32 = 64;

/// The identity profile under which endpoint content hashes cover only `(hash, t, f)`.
pub open spec fn spec_identity_profile() -> Seq<char> {
    "prints-v1"@
}

pub fn identity_profile() -> (s: &'static str)
    ensures
        s@ == spec_identity_profile(),
{
    "prints-v1"
}

/// One resource of a generation. `duration_bits` is the IEEE-754 bit pattern of the
/// duration in seconds; the store never interprets it.
#[derive(Debug)]
pub struct ResourceInfo {
    pub id: u32,
    pub key: String,
    pub duration_bits: u64,
    pub postings: u64,
    pub t_min: u32,
    pub t_max: u32,
    pub content_hash: String,
    pub shard: u32,
    pub forward_start: u64,
}

impl Clone for ResourceInfo {
    fn clone(&self) -> (r: Self)
        ensures
            r == *self,
    {
        ResourceInfo {
            id: self.id,
            key: self.key.clone(),
            duration_bits: self.duration_bits,
            postings: self.postings,
            t_min: self.t_min,
            t_max: self.t_max,
            content_hash: self.content_hash.clone(),
            shard: self.shard,
            forward_start: self.forward_start,
        }
    }
}

/// One shard file of a generation.
#[derive(Debug)]
pub struct ShardInfo {
    pub number: u32,
    pub file: String,
    pub postings: u64,
    pub hashes: u64,
}

impl Clone for ShardInfo {
    fn clone(&self) -> (r: Self)
        ensures
            r == *self,
    {
        ShardInfo { number: self.number, file: self.file.clone(), postings: self.postings, hashes: self.hashes }
    }
}

/// A generation manifest.
#[derive(Debug)]
pub struct Manifest {
    pub version: u32,
    pub generation: String,
    pub config_id: String,
    pub fingerprint_identity_profile: Option<String>,
    pub shard_count: u32,
    pub resources: Vec<ResourceInfo>,
    pub shards: Vec<ShardInfo>,
}

/// Store totals reported by `stats`.
#[derive(Debug)]
pub struct StoreStats {
    pub path: String,
    pub generation: String,
    pub config_id: String,
    pub fingerprint_identity_profile: Option<String>,
    pub resources: usize,
    pub postings: u64,
}

/// Outcome of republishing prints-only endpoint identities.
#[derive(Debug)]
pub struct IdentityRehashStats {
    pub previous_generation: String,
    pub generation: String,
    pub resources_changed: usize,
}

/// Outcome of an ingest.
#[derive(Debug)]
pub struct IngestStats {
    pub generation: String,
    pub resources_added: usize,
    pub resources_replaced: usize,
    pub resources_unchanged: usize,
    pub postings_added: u64,
}

/// Outcome of a retirement.
#[derive(Debug)]
pub struct RetireStats {
    pub generation: String,
    pub postings_removed: u64,
}

#[verifier::external_type_specification]
#[verifier::external_body]
pub struct ExMmap(Mmap);

/// The bytes a read-only map of a published shard file holds.
pub uninterp spec fn mapped_bytes(map: Mmap) -> Seq<u8>;

/// The mapped bytes, through `Mmap`'s `Deref<Target = [u8]>`, which exposes exactly the
/// mapping's contents. Published shard files are never modified, so the contents stay what
/// the map held when it was opened.
#[verifier::external_body]
fn map_bytes(map: &Mmap) -> (bytes: &[u8])
    ensures
        bytes@ == mapped_bytes(*map),
{
    &map[..]
}

/// One opened shard: its map and the region header that passed validation.
pub struct Shard {
    map: Mmap,
    header: ShardHeader,
    number: u32,
    postings: u64,
    hashes: u64,
}

impl Shard {
    #[verifier::type_invariant]
    spec fn inv(self) -> bool {
        &&& shard_acceptable(mapped_bytes(self.map), self.number, self.postings, self.hashes)
        &&& self.header == header_at(mapped_bytes(self.map))
    }

    pub closed spec fn bytes(self) -> Seq<u8> {
        mapped_bytes(self.map)
    }

    pub closed spec fn header(self) -> ShardHeader {
        self.header
    }

    pub closed spec fn number(self) -> u32 {
        self.number
    }

    pub closed spec fn postings(self) -> u64 {
        self.postings
    }

    pub closed spec fn hashes(self) -> u64 {
        self.hashes
    }

    /// Validates a mapped shard file against its manifest entry.
    pub fn open(map: Mmap, info: &ShardInfo, path: &str) -> (r: Result<Shard, Error>)
        ensures
            match r {
                Ok(s) => shard_acceptable(mapped_bytes(map), info.number, info.postings, info.hashes)
                    && s.bytes() == mapped_bytes(map) && s.number() == info.number && s.postings() == info.postings
                    && s.hashes() == info.hashes,
                Err(e) => !shard_acceptable(mapped_bytes(map), info.number, info.postings, info.hashes)
                    && header_refusal(mapped_bytes(map), info.number, path@, e),
            },
    {
        let header = {
            let bytes = map_bytes(&map);
            parse_shard_header(bytes, info.number, info.postings, info.hashes, path)
        };
        match header {
            Ok(header) => Ok(Shard { map, header, number: info.number, postings: info.postings, hashes: info.hashes }),
            Err(e) => Err(e),
        }
    }
}

/// Index of each key: the position of the last resource carrying it.
pub open spec fn key_index(res: Seq<ResourceInfo>) -> Map<Seq<char>, usize>
    decreases res.len(),
{
    if res.len() == 0 {
        Map::empty()
    } else {
        key_index(res.drop_last()).insert(res.last().key@, (res.len() - 1) as usize)
    }
}

/// Index of each id: the position of the last resource carrying it.
pub open spec fn id_index(res: Seq<ResourceInfo>) -> Map<u32, usize>
    decreases res.len(),
{
    if res.len() == 0 {
        Map::empty()
    } else {
        id_index(res.drop_last()).insert(res.last().id, (res.len() - 1) as usize)
    }
}

pub proof fn lemma_key_index(res: Seq<ResourceInfo>)
    requires
        res.len() <= usize::MAX,
    ensures
        forall|k: Seq<char>| #[trigger] key_index(res).contains_key(k) ==> key_index(res)[k] < res.len()
            && res[key_index(res)[k] as int].key@ == k,
        forall|i: int| 0 <= i < res.len() ==> key_index(res).contains_key(#[trigger] res[i].key@),
    decreases res.len(),
{
    if res.len() > 0 {
        lemma_key_index(res.drop_last());
        assert forall|k: Seq<char>| #[trigger] key_index(res).contains_key(k) implies key_index(res)[k] < res.len()
            && res[key_index(res)[k] as int].key@ == k by {
            if k != res.last().key@ {
                let i = key_index(res.drop_last())[k];
                assert(res.drop_last()[i as int] == res[i as int]);
            }
        }
        assert forall|i: int| 0 <= i < res.len() implies key_index(res).contains_key(#[trigger] res[i].key@) by {
            if i < res.len() - 1 {
                assert(res.drop_last()[i] == res[i]);
            }
        }
    }
}

pub proof fn lemma_id_index(res: Seq<ResourceInfo>)
    requires
        res.len() <= usize::MAX,
    ensures
        forall|k: u32| #[trigger] id_index(res).contains_key(k) ==> id_index(res)[k] < res.len()
            && res[id_index(res)[k] as int].id == k,
        forall|i: int| 0 <= i < res.len() ==> id_index(res).contains_key(#[trigger] res[i].id),
    decreases res.len(),
{
    if res.len() > 0 {
        lemma_id_index(res.drop_last());
        assert forall|k: u32| #[trigger] id_index(res).contains_key(k) implies id_index(res)[k] < res.len()
            && res[id_index(res)[k] as int].id == k by {
            if k != res.last().id {
                let i = id_index(res.drop_last())[k];
                assert(res.drop_last()[i as int] == res[i as int]);
            }
        }
        assert forall|i: int| 0 <= i < res.len() implies id_index(res).contains_key(#[trigger] res[i].id) by {
            if i < res.len() - 1 {
                assert(res.drop_last()[i] == res[i]);
            }
        }
    }
}

/// Sum of the resources' posting counts.
pub open spec fn total_postings(res: Seq<ResourceInfo>) -> nat
    decreases res.len(),
{
    if res.len() == 0 {
        0
    } else {
        total_postings(res.drop_last()) + res.last().postings as nat
    }
}

/// A manifest's identity profile is absent or the prints-only profile.
pub open spec fn profile_known(m: Manifest) -> bool {
    m.fingerprint_identity_profile matches Some(p) ==> p@ == spec_identity_profile()
}

/// The manifest-level checks of opening a generation pass.
pub open spec fn manifest_ok(m: Manifest) -> bool {
    &&& m.version == STORE_VERSION
    &&& m.config_id@ == spec_config_id()
    &&& profile_known(m)
    &&& m.shard_count == SHARD_COUNT
    &&& m.shards@.len() == SHARD_COUNT
}

/// The error of reading back resource `key` whose forward range is unusable: the range
/// overflows, runs past its shard's forward region, or holds another resource's record.
pub open spec fn forward_refusal(key: Seq<char>, e: Error) -> bool {
    e matches Error::InvalidStore(m) && {
        ||| m@ == "forward range overflow"@
        ||| m@ == "resource "@ + debug_quoted(key) + " forward range is outside shard"@
        ||| exists|id: u32| m@ == "resource "@ + debug_quoted(key) + " forward range contains id "@ + #[trigger] decimal_chars(
            id as nat,
        )
    }
}

/// The error of a posting lookup: a hash beyond 34 bits, an index entry that points outside
/// its shard's hits, or (for a lookup of one resource) an id the generation does not know.
pub open spec fn lookup_error(e: Error) -> bool {
    ||| e matches Error::BadRequest(m) && exists|h: u64| h > MAX_HASH && m@ == "hash "@ + #[trigger] decimal_chars(h as nat)
        + " exceeds 34 bits"@
    ||| lookup_refusal(e)
    ||| e matches Error::InvalidStore(m) && exists|id: u32| m@ == "posting references unknown resource "@
        + #[trigger] decimal_chars(id as nat)
}

/// The error of a hash-index read that points outside its shard's hits.
pub open spec fn lookup_refusal(e: Error) -> bool {
    e matches Error::InvalidStore(m) && (m@ == "hit range overflow"@ || m@ == "hash index points outside hits"@)
}

/// The error that refuses a manifest that fails its checks, by the first check that fails.
pub open spec fn manifest_refusal(m: Manifest, e: Error) -> bool {
    if m.version != STORE_VERSION {
        e == (Error::StoreVersionMismatch { expected: STORE_VERSION, found: m.version })
    } else if m.config_id@ != spec_config_id() {
        e matches Error::ConfigMismatch { expected, found } && expected@ == spec_config_id() && found@ == m.config_id@
    } else if !profile_known(m) {
        e matches Error::InvalidStore(msg) && msg@ == "unknown fingerprint identity profile "@ + debug_quoted(
            m.fingerprint_identity_profile->Some_0@,
        )
    } else {
        e matches Error::InvalidStore(msg) && msg@ == "expected 64 shards, manifest has "@ + decimal_chars(
            m.shards@.len(),
        )
    }
}

/// Checks a parsed manifest before its shards are mapped, in this order: version,
/// configuration identity, identity profile, shard count.
pub fn check_manifest(manifest: &Manifest) -> (r: Result<(), Error>)
    ensures
        r is Ok <==> manifest_ok(*manifest),
        r matches Err(e) ==> manifest_refusal(*manifest, e),
{
    if manifest.version != STORE_VERSION {
        return Err(Error::StoreVersionMismatch { expected: STORE_VERSION, found: manifest.version });
    }
    let expected = config_id();
    if !(manifest.config_id == expected) {
        return Err(Error::ConfigMismatch { expected, found: manifest.config_id.clone() });
    }
    match &manifest.fingerprint_identity_profile {
        Some(profile) => {
            let known = literal(identity_profile());
            if !(*profile == known) {
                let s = join(literal("unknown fingerprint identity profile "), quoted(profile.as_str()).as_str());
                return Err(Error::InvalidStore(s));
            }
        },
        None => {},
    }
    if manifest.shard_count != SHARD_COUNT || manifest.shards.len() != 64 {
        let s = join(literal("expected 64 shards, manifest has "), decimal(manifest.shards.len() as u64).as_str());
        return Err(Error::InvalidStore(s));
    }
    Ok(())
}

/// The shard at manifest position `position` must carry that number.
pub fn check_shard_number(position: usize, info: &ShardInfo) -> (r: Result<(), Error>)
    ensures
        r is Ok <==> info.number == position,
        r matches Err(e) ==> (e matches Error::InvalidStore(m) && m@ == "shards are not in numeric order"@),
{
    if position > u32::MAX as usize || info.number != position as u32 {
        return Err(Error::InvalidStore(literal("shards are not in numeric order")));
    }
    Ok(())
}


/// An opened, immutable store generation.
pub struct Store {
    root: String,
    manifest: Manifest,
    by_key: StringHashMap<usize>,
    by_id: HashMapWithView<u32, usize>,
    shards: Vec<Shard>,
}

/// The mapped shards agree position by position with the manifest's shard entries.
pub open spec fn shards_match(shards: Seq<Shard>, infos: Seq<ShardInfo>) -> bool {
    &&& shards.len() == SHARD_COUNT
    &&& infos.len() == SHARD_COUNT
    &&& forall|i: int| 0 <= i < SHARD_COUNT ==> {
        &&& #[trigger] shards[i].number() == i
        &&& infos[i].number == i
        &&& shards[i].postings() == infos[i].postings
        &&& shards[i].hashes() == infos[i].hashes
    }
}

/// Every resource refers to a shard of the generation.
pub open spec fn resource_shards_in_range(res: Seq<ResourceInfo>) -> bool {
    forall|i: int| 0 <= i < res.len() ==> #[trigger] res[i].shard < SHARD_COUNT
}

/// Hits of the first `n` shards for hashes in `[start, stop]`, shard by shard.
pub open spec fn shard_hits(shards: Seq<Shard>, start: u64, stop: u64, n: int) -> Seq<StoredHit>
    decreases n,
{
    if n <= 0 {
        Seq::empty()
    } else {
        let s = shards[n - 1];
        shard_hits(shards, start, stop, n - 1) + range_hits(s.bytes(), s.header(), start, stop, s.header().hash_count as int)
    }
}

/// Every shard's distinct-hash index is strictly increasing.
pub open spec fn shards_sorted(shards: Seq<Shard>) -> bool {
    forall|i: int| 0 <= i < shards.len() ==> index_sorted(#[trigger] shards[i].bytes(), shards[i].header())
}

/// What range reads of the first `n` shards answer together, shard by shard, whatever
/// order their indexes are in; nothing when one of them fails.
pub open spec fn all_scans(shards: Seq<Shard>, start: u64, stop: u64, n: int) -> Option<Seq<StoredHit>>
    decreases n,
{
    if n <= 0 {
        Some(Seq::empty())
    } else {
        match all_scans(shards, start, stop, n - 1) {
            Some(a) => prepend_hits(a, shard_scan(shards[n - 1].bytes(), shards[n - 1].header(), start, stop)),
            None => None,
        }
    }
}

proof fn lemma_all_scans_fail(shards: Seq<Shard>, start: u64, stop: u64, n: int, m: int)
    requires
        n <= m,
        all_scans(shards, start, stop, n) is None,
    ensures
        all_scans(shards, start, stop, m) is None,
    decreases m - n,
{
    if n < m {
        lemma_all_scans_fail(shards, start, stop, n, m - 1);
    }
}

/// Every shard's index entries in `[start, stop]` point inside its hits region.
pub open spec fn shards_in_bounds(shards: Seq<Shard>, start: u64, stop: u64) -> bool {
    forall|i: int| 0 <= i < shards.len() ==> range_in_bounds(#[trigger] shards[i].bytes(), shards[i].header(), start, stop)
}

/// The hits of `hits` that belong to resource `id`, in order.
pub open spec fn hits_of_resource(hits: Seq<StoredHit>, id: u32) -> Seq<StoredHit>
    decreases hits.len(),
{
    if hits.len() == 0 {
        Seq::empty()
    } else {
        hits_of_resource(hits.drop_last(), id) + if hits.last().resource_id == id {
            seq![hits.last()]
        } else {
            Seq::empty()
        }
    }
}

/// The `±QUERY_RANGE` hash range a probe hash scans, clipped to 34 bits.
pub open spec fn scan_range(hash: u64) -> (u64, u64) {
    (
        if hash >= QUERY_RANGE { (hash - QUERY_RANGE) as u64 } else { 0 },
        if hash + QUERY_RANGE <= MAX_HASH { (hash + QUERY_RANGE) as u64 } else { MAX_HASH },
    )
}

impl Store {
    #[verifier::type_invariant]
    spec fn inv(self) -> bool {
        &&& manifest_ok(self.manifest)
        &&& self.manifest.resources@.len() <= usize::MAX
        &&& self.by_key@ == key_index(self.manifest.resources@)
        &&& self.by_id@ == id_index(self.manifest.resources@)
        &&& shards_match(self.shards@, self.manifest.shards@)
        &&& total_postings(self.manifest.resources@) <= u64::MAX
    }

    pub closed spec fn spec_root(self) -> Seq<char> {
        self.root@
    }

    pub closed spec fn spec_manifest(self) -> Manifest {
        self.manifest
    }

    pub closed spec fn spec_shards(self) -> Seq<Shard> {
        self.shards@
    }

    /// `hits` is what a lookup of `hash` answers: the hash is in range, the hits are the range
    /// reads of every shard for the scan range, shard by shard (whatever order an index is
    /// in), and on sorted indexes they are exactly the stored hits in that range.
    pub open spec fn lookup_answer(self, hash: u64, hits: Seq<StoredHit>) -> bool {
        let (start, stop) = scan_range(hash);
        let shards = self.spec_shards();
        &&& hash <= MAX_HASH
        &&& all_scans(shards, start, stop, SHARD_COUNT as int) == Some(hits)
        &&& shards_sorted(shards) ==> shards_in_bounds(shards, start, stop) && hits == shard_hits(shards, start, stop, SHARD_COUNT as int)
        &&& forall|k: int| 0 <= k < hits.len() ==> #[trigger] hits[k].matched_hash <= stop
    }

    /// `e` is how a lookup of `hash` fails: a hash beyond 34 bits is a bad request naming it;
    /// otherwise an index entry points outside its shard's hits, which on sorted indexes
    /// means some shard is out of bounds for the scan range.
    pub open spec fn lookup_failure(self, hash: u64, e: Error) -> bool {
        let (start, stop) = scan_range(hash);
        let shards = self.spec_shards();
        if hash > MAX_HASH {
            e matches Error::BadRequest(m) && m@ == "hash "@ + decimal_chars(hash as nat) + " exceeds 34 bits"@
        } else {
            lookup_refusal(e) && (shards_sorted(shards) ==> !shards_in_bounds(shards, start, stop))
        }
    }

    /// `e` is how a lookup of `hash` in the shard of resource `id` fails: a hash beyond 34
    /// bits, an id the generation does not know, or an index entry of the owning shard that
    /// points outside its hits (on a sorted index: the shard is out of bounds for the range).
    pub open spec fn resource_lookup_failure(self, hash: u64, id: u32, e: Error) -> bool {
        let (start, stop) = scan_range(hash);
        let res = self.spec_manifest().resources@;
        if hash > MAX_HASH {
            e matches Error::BadRequest(m) && m@ == "hash "@ + decimal_chars(hash as nat) + " exceeds 34 bits"@
        } else if !id_index(res).contains_key(id) {
            e matches Error::InvalidStore(m) && m@ == "posting references unknown resource "@ + decimal_chars(id as nat)
        } else {
            let s = self.spec_shards()[res[id_index(res)[id] as int].shard as int];
            lookup_refusal(e) && (index_sorted(s.bytes(), s.header()) ==> !range_in_bounds(s.bytes(), s.header(), start, stop))
        }
    }

    /// `hits` is what a lookup of `hash` in the shard of resource `id` answers: the hash is in
    /// range, the id is known and, on a sorted index, the hits are that shard's hits for the
    /// scan range that belong to the resource.
    pub open spec fn resource_lookup_answer(self, hash: u64, id: u32, hits: Seq<StoredHit>) -> bool {
        let (start, stop) = scan_range(hash);
        let res = self.spec_manifest().resources@;
        &&& hash <= MAX_HASH
        &&& id_index(res).contains_key(id)
        &&& {
            let s = self.spec_shards()[res[id_index(res)[id] as int].shard as int];
            &&& shard_scan(s.bytes(), s.header(), start, stop) matches Some(all) && hits == hits_of_resource(all, id)
            &&& index_sorted(s.bytes(), s.header()) ==> range_in_bounds(s.bytes(), s.header(), start, stop)
                && hits == hits_of_resource(range_hits(s.bytes(), s.header(), start, stop, s.header().hash_count as int), id)
        }
        &&& forall|k: int| 0 <= k < hits.len() ==> #[trigger] hits[k].resource_id == id
    }

    /// The entry a key names: the last resource of the manifest carrying it.
    pub open spec fn entry(self, key: Seq<char>) -> ResourceInfo {
        let res = self.spec_manifest().resources@;
        res[key_index(res)[key] as int]
    }

    /// A known key's entry names one of the generation's shards.
    pub open spec fn key_in_shards(self, key: Seq<char>) -> bool {
        key_index(self.spec_manifest().resources@).contains_key(key) ==> self.entry(key).shard < SHARD_COUNT
    }

    /// A known id's entry names one of the generation's shards.
    pub open spec fn id_in_shards(self, id: u32) -> bool {
        let res = self.spec_manifest().resources@;
        id_index(res).contains_key(id) ==> res[id_index(res)[id] as int].shard < SHARD_COUNT
    }

    /// An entry's forward range lies inside its shard and holds only its own postings.
    pub open spec fn readable(self, info: ResourceInfo) -> bool {
        let s = self.spec_shards()[info.shard as int];
        &&& info.forward_start + info.postings <= s.header().forward_count
        &&& owned_by(s.bytes(), s.header(), info.forward_start as int, info.forward_start + info.postings, info.id)
    }

    /// An entry's stored prints whose time lies in `[t0, t1)`, in forward order.
    pub open spec fn stored_window(self, info: ResourceInfo, t0: u32, t1: u32) -> Seq<Fingerprint> {
        let s = self.spec_shards()[info.shard as int];
        forward_window(s.bytes(), s.header(), info.forward_start as int, info.forward_start + info.postings, t0, t1)
    }

    /// Assembles an opened generation from its validated manifest and mapped shards.
    #[verifier::spinoff_prover]
    pub fn assemble(root: String, manifest: Manifest, shards: Vec<Shard>) -> (r: Result<Store, Error>)
        ensures
            r is Ok <==> manifest_ok(manifest) && shards_match(shards@, manifest.shards@)
                && total_postings(manifest.resources@) <= u64::MAX,
            r matches Ok(s) ==> s.spec_root() == root@ && s.spec_manifest() == manifest && s.spec_shards() == shards@,
            r matches Err(e) ==> if !manifest_ok(manifest) {
                manifest_refusal(manifest, e)
            } else if !shards_match(shards@, manifest.shards@) {
                e matches Error::InvalidStore(m) && m@ == "mapped shards do not match the manifest"@
            } else {
                e matches Error::InvalidStore(m) && m@ == "posting total overflows"@
            },
    {
        match check_manifest(&manifest) {
            Ok(()) => {},
            Err(e) => return Err(e),
        }
        if shards.len() != 64 {
            return Err(Error::InvalidStore(literal("mapped shards do not match the manifest")));
        }
        let mut i: usize = 0;
        while i < 64
            invariant
                i <= 64,
                manifest_ok(manifest),
                shards@.len() == 64,
                manifest.shards@.len() == 64,
                forall|k: int| 0 <= k < i ==> {
                    &&& #[trigger] shards@[k].number() == k
                    &&& manifest.shards@[k].number == k
                    &&& shards@[k].postings() == manifest.shards@[k].postings
                    &&& shards@[k].hashes() == manifest.shards@[k].hashes
                },
            decreases 64 - i,
        {
            let shard = &shards[i];
            let info = &manifest.shards[i];
            if shard.number != i as u32 || info.number != i as u32 || shard.postings != info.postings
                || shard.hashes != info.hashes
            {
                assert(!shards_match(shards@, manifest.shards@)) by {
                    assert(shards@[i as int].number() == shard.number);
                }
                return Err(Error::InvalidStore(literal("mapped shards do not match the manifest")));
            }
            proof {
                assert(shards@[i as int].number() == i);
                assert(shards@[i as int].postings() == manifest.shards@[i as int].postings);
                assert(shards@[i as int].hashes() == manifest.shards@[i as int].hashes);
                assert forall|k: int| 0 <= k < i + 1 implies {
                    &&& #[trigger] shards@[k].number() == k
                    &&& manifest.shards@[k].number == k
                    &&& shards@[k].postings() == manifest.shards@[k].postings
                    &&& shards@[k].hashes() == manifest.shards@[k].hashes
                } by {
                    if k < i {
                        assert(shards@[k].number() == k);
                    }
                }
            }
            i = i + 1;
        }
        let mut by_key: StringHashMap<usize> = StringHashMap::new();
        proof {
            broadcast use axiom_u32_obeys_hash_table_key_model;
        }
        let mut by_id: HashMapWithView<u32, usize> = HashMapWithView::new();
        let mut total: u64 = 0;
        let mut j: usize = 0;
        let n = manifest.resources.len();
        assert(manifest.resources@.len() <= usize::MAX);
        while j < n
            invariant
                j <= n == manifest.resources@.len(),
                manifest_ok(manifest),
                shards_match(shards@, manifest.shards@),
                by_key@ == key_index(manifest.resources@.subrange(0, j as int)),
                by_id@ == id_index(manifest.resources@.subrange(0, j as int)),
                total == total_postings(manifest.resources@.subrange(0, j as int)),
            decreases n - j,
        {
            let r = &manifest.resources[j];
            proof {
                let pre = manifest.resources@.subrange(0, j as int + 1);
                assert(pre.drop_last() =~= manifest.resources@.subrange(0, j as int));
            }
            match total.checked_add(r.postings) {
                Some(t) => total = t,
                None => {
                    proof {
                        lemma_total_postings_prefix(manifest.resources@, j as int + 1);
                    }
                    return Err(Error::InvalidStore(literal("posting total overflows")));
                },
            }
            by_key.insert(r.key.clone(), j);
            by_id.insert(r.id, j);
            j = j + 1;
        }
        assert(manifest.resources@.subrange(0, n as int) =~= manifest.resources@);
        Ok(Store { root, manifest, by_key, by_id, shards })
    }

    /// Store totals: the generation's identity, resource count and total postings.
    pub fn stats(&self) -> (s: StoreStats)
        ensures
            s.path@ == self.spec_root(),
            s.generation@ == self.spec_manifest().generation@,
            s.config_id@ == self.spec_manifest().config_id@,
            s.fingerprint_identity_profile == self.spec_manifest().fingerprint_identity_profile,
            s.resources == self.spec_manifest().resources@.len(),
            s.postings == total_postings(self.spec_manifest().resources@),
    {
        proof {
            use_type_invariant(self);
        }
        let res = &self.manifest.resources;
        let mut total: u64 = 0;
        let mut j: usize = 0;
        while j < res.len()
            invariant
                j <= res@.len(),
                total == total_postings(res@.subrange(0, j as int)),
                total_postings(res@) <= u64::MAX,
            decreases res@.len() - j,
        {
            proof {
                assert(res@.subrange(0, j as int + 1).drop_last() =~= res@.subrange(0, j as int));
                lemma_total_postings_prefix(res@, j as int + 1);
            }
            total = total + res[j].postings;
            j = j + 1;
        }
        assert(res@.subrange(0, res@.len() as int) =~= res@);
        StoreStats {
            path: self.root.clone(),
            generation: self.manifest.generation.clone(),
            config_id: self.manifest.config_id.clone(),
            fingerprint_identity_profile: self.manifest.fingerprint_identity_profile.clone(),
            resources: res.len(),
            postings: total,
        }
    }

    pub fn resources(&self) -> (r: &Vec<ResourceInfo>)
        ensures
            r@ == self.spec_manifest().resources@,
    {
        &self.manifest.resources
    }

    pub fn manifest(&self) -> (m: &Manifest)
        ensures
            *m == self.spec_manifest(),
            manifest_ok(*m),
            m.resources@.len() <= usize::MAX,
            total_postings(m.resources@) <= u64::MAX,
    {
        proof {
            use_type_invariant(self);
        }
        &self.manifest
    }

    pub fn config_id(&self) -> (c: &str)
        ensures
            c@ == self.spec_manifest().config_id@,
    {
        self.manifest.config_id.as_str()
    }

    pub fn root(&self) -> (c: &str)
        ensures
            c@ == self.spec_root(),
    {
        self.root.as_str()
    }

    /// The resource with caller key `key`; an unknown key is a bad request.
    pub fn resource(&self, key: &str) -> (r: Result<&ResourceInfo, Error>)
        ensures
            ({
                let res = self.spec_manifest().resources@;
                match r {
                    Ok(info) => key_index(res).contains_key(key@) && *info == res[key_index(res)[key@] as int]
                        && info.key@ == key@,
                    Err(e) => !key_index(res).contains_key(key@) && (e matches Error::BadRequest(m)
                        && m@ == "unknown resource key "@ + debug_quoted(key@)),
                }
            }),
    {
        proof {
            use_type_invariant(self);
            lemma_key_index(self.manifest.resources@);
        }
        match self.by_key.get(key) {
            Some(index) => Ok(&self.manifest.resources[*index]),
            None => {
                let s = join(literal("unknown resource key "), quoted(key).as_str());
                Err(Error::BadRequest(s))
            },
        }
    }

    /// Whether a known key's entry names one of the generation's shards (reads of it need it).
    pub fn key_names_shard(&self, key: &str) -> (b: bool)
        ensures
            b == self.key_in_shards(key@),
    {
        match self.resource(key) {
            Ok(info) => info.shard < SHARD_COUNT,
            Err(_) => true,
        }
    }

    /// Whether a known id's entry names one of the generation's shards.
    pub fn id_names_shard(&self, id: u32) -> (b: bool)
        ensures
            b == self.id_in_shards(id),
    {
        match self.resource_by_id(id) {
            Ok(info) => info.shard < SHARD_COUNT,
            Err(_) => true,
        }
    }

    /// Whether every resource's key names one of the generation's shards.
    pub fn keys_name_shards(&self) -> (b: bool)
        ensures
            b == self.all_keys_in_shards(),
    {
        let res = self.resources();
        let mut i: usize = 0;
        while i < res.len()
            invariant
                i <= res@.len(),
                res@ == self.spec_manifest().resources@,
                forall|k: int| 0 <= k < i ==> self.key_in_shards(#[trigger] res@[k].key@),
            decreases res@.len() - i,
        {
            if !self.key_names_shard(res[i].key.as_str()) {
                return false;
            }
            i = i + 1;
        }
        true
    }

    /// Every resource's key names one of the generation's shards.
    pub open spec fn all_keys_in_shards(self) -> bool {
        let res = self.spec_manifest().resources@;
        forall|k: int| 0 <= k < res.len() ==> self.key_in_shards(#[trigger] res[k].key@)
    }

    /// The resource with internal id `id`; an unknown id means the store is inconsistent.
    pub fn resource_by_id(&self, id: u32) -> (r: Result<&ResourceInfo, Error>)
        ensures
            ({
                let res = self.spec_manifest().resources@;
                match r {
                    Ok(info) => id_index(res).contains_key(id) && *info == res[id_index(res)[id] as int] && info.id == id,
                    Err(e) => !id_index(res).contains_key(id) && (e matches Error::InvalidStore(m)
                        && m@ == "posting references unknown resource "@ + decimal_chars(id as nat)),
                }
            }),
    {
        proof {
            use_type_invariant(self);
            lemma_id_index(self.manifest.resources@);
        }
        match self.by_id.get(&id) {
            Some(index) => Ok(&self.manifest.resources[*index]),
            None => {
                let s = join(literal("posting references unknown resource "), decimal(id as u64).as_str());
                Err(Error::InvalidStore(s))
            },
        }
    }

    /// The stored prints of resource `key` whose time bin lies in the window, in forward
    /// order (time, hash, frequency); all of them when the window is absent.
    pub fn forward(&self, key: &str, window: Option<(u32, u32)>) -> (r: Result<Vec<Fingerprint>, Error>)
        requires
            self.key_in_shards(key@),
        ensures
            ({
                let res = self.spec_manifest().resources@;
                let (t0, t1) = window_bounds(window);
                let info = self.entry(key@);
                match r {
                    Ok(v) => key_index(res).contains_key(key@) && t0 < t1 && self.readable(info)
                        && v@ == self.stored_window(info, t0, t1),
                    Err(e) => if !key_index(res).contains_key(key@) {
                        e matches Error::BadRequest(m) && m@ == "unknown resource key "@ + debug_quoted(key@)
                    } else if info.forward_start + info.postings > u64::MAX {
                        e matches Error::InvalidStore(m) && m@ == "forward range overflow"@
                    } else if info.forward_start + info.postings > self.spec_shards()[info.shard as int].header().forward_count {
                        e matches Error::InvalidStore(m) && m@ == "resource "@ + debug_quoted(key@)
                            + " forward range is outside shard"@
                    } else if t0 >= t1 {
                        e matches Error::BadRequest(m) && m@ == "window start must be before stop"@
                    } else {
                        !self.readable(info) && (e matches Error::InvalidStore(m) && exists|id: u32| m@ == "resource "@
                            + debug_quoted(key@) + " forward range contains id "@ + #[trigger] decimal_chars(id as nat))
                    },
                }
            }),
            key_index(self.spec_manifest().resources@).contains_key(key@) && window_bounds(window).0 < window_bounds(
                window,
            ).1 && r is Err ==> (r matches Err(e) && !self.readable(self.entry(key@)) && forward_refusal(key@, e)),
    {
        proof {
            use_type_invariant(self);
        }
        let resource = match self.resource(key) {
            Ok(r) => r,
            Err(e) => return Err(e),
        };
        let shard = &self.shards[resource.shard as usize];
        proof {
            use_type_invariant(shard);
        }
        let bytes = map_bytes(&shard.map);
        forward_in(bytes, &shard.header, resource.id, resource.forward_start, resource.postings, key, window)
    }

    /// Every stored posting whose hash is within `±QUERY_RANGE` of `hash`, shard by shard in
    /// hash order: each shard's binary-search range read (`all_scans`), which on sorted
    /// indexes is exactly `shard_hits` of the scan range.
    pub fn lookup(&self, hash: u64) -> (r: Result<Vec<StoredHit>, Error>)
        ensures
            ({
                let (start, stop) = scan_range(hash);
                let shards = self.spec_shards();
                match r {
                    Ok(hits) => self.lookup_answer(hash, hits@),
                    Err(e) => self.lookup_failure(hash, e),
                }
            }),
            ({
                let (start, stop) = scan_range(hash);
                let scans = all_scans(self.spec_shards(), start, stop, SHARD_COUNT as int);
                hash <= MAX_HASH ==> (r is Ok <==> scans is Some) && (r matches Ok(hits) ==> scans == Some(hits@))
            }),
    {
        proof {
            use_type_invariant(self);
        }
        if hash > MAX_HASH {
            let s = join(literal("hash "), decimal(hash).as_str());
            return Err(Error::BadRequest(join(s, " exceeds 34 bits")));
        }
        let start = hash.saturating_sub(QUERY_RANGE);
        let stop = if hash + QUERY_RANGE <= MAX_HASH { hash + QUERY_RANGE } else { MAX_HASH };
        assert((start, stop) == scan_range(hash));
        let ghost shards = self.shards@;
        let mut hits: Vec<StoredHit> = Vec::new();
        let mut i: usize = 0;
        while i < 64
            invariant
                i <= 64,
                shards == self.shards@,
                shards.len() == 64,
                (start, stop) == scan_range(hash),
                hash <= MAX_HASH,
                shards_sorted(shards) ==> hits@ == shard_hits(shards, start, stop, i as int),
                shards_sorted(shards) ==> forall|k: int| 0 <= k < i ==> range_in_bounds(#[trigger] shards[k].bytes(), shards[k].header(), start, stop),
                all_scans(shards, start, stop, i as int) == Some(hits@),
                forall|k: int| 0 <= k < hits@.len() ==> #[trigger] hits@[k].matched_hash <= stop,
            decreases 64 - i,
        {
            let shard = &self.shards[i];
            let ghost pre = hits@;
            proof {
                use_type_invariant(shard);
            }
            let bytes = map_bytes(&shard.map);
            match lookup_range_in(bytes, &shard.header, start, stop, &mut hits) {
                Ok(()) => {},
                Err(e) => {
                    proof {
                        lemma_all_scans_fail(shards, start, stop, i as int + 1, 64);
                        if shards_sorted(shards) {
                            assert(bytes@ == shards[i as int].bytes());
                            assert(shard.header == shards[i as int].header());
                            assert(index_sorted(shards[i as int].bytes(), shards[i as int].header()));
                            assert(!range_in_bounds(shards[i as int].bytes(), shards[i as int].header(), start, stop));
                            assert(!shards_in_bounds(shards, start, stop));
                        }
                    }
                    return Err(e);
                },
            }
            proof {
                assert forall|k: int| 0 <= k < hits@.len() implies #[trigger] hits@[k].matched_hash <= stop by {
                    if k < pre.len() {
                        assert(hits@.subrange(0, pre.len() as int)[k] == pre[k]);
                    }
                }
                if shards_sorted(shards) {
                    assert(index_sorted(shards[i as int].bytes(), shards[i as int].header()));
                }
            }
            i = i + 1;
        }
        Ok(hits)
    }

    /// The postings of resource `resource_id` within `±QUERY_RANGE` of `hash`, read only
    /// from the shard that owns that resource.
    #[verifier::rlimit(40)]
    pub fn lookup_resource(&self, hash: u64, resource_id: u32) -> (r: Result<Vec<StoredHit>, Error>)
        requires
            hash <= MAX_HASH ==> self.id_in_shards(resource_id),
        ensures
            match r {
                Ok(hits) => self.resource_lookup_answer(hash, resource_id, hits@),
                Err(e) => self.resource_lookup_failure(hash, resource_id, e),
            },
            ({
                let (start, stop) = scan_range(hash);
                let res = self.spec_manifest().resources@;
                let s = self.spec_shards()[res[id_index(res)[resource_id] as int].shard as int];
                let scan = shard_scan(s.bytes(), s.header(), start, stop);
                hash <= MAX_HASH && id_index(res).contains_key(resource_id) ==> (r is Ok <==> scan is Some) && (r matches Ok(
                    hits,
                ) ==> scan matches Some(all) && hits@ == hits_of_resource(all, resource_id))
            }),
    {
        proof {
            use_type_invariant(self);
        }
        if hash > MAX_HASH {
            let s = join(literal("hash "), decimal(hash).as_str());
            return Err(Error::BadRequest(join(s, " exceeds 34 bits")));
        }
        let resource = match self.resource_by_id(resource_id) {
            Ok(r) => r,
            Err(e) => return Err(e),
        };
        let start = hash.saturating_sub(QUERY_RANGE);
        let stop = if hash + QUERY_RANGE <= MAX_HASH { hash + QUERY_RANGE } else { MAX_HASH };
        assert((start, stop) == scan_range(hash));
        let shard = &self.shards[resource.shard as usize];
        proof {
            use_type_invariant(shard);
        }
        let bytes = map_bytes(&shard.map);
        let mut all: Vec<StoredHit> = Vec::new();
        match lookup_range_in(bytes, &shard.header, start, stop, &mut all) {
            Ok(()) => {},
            Err(e) => return Err(e),
        }
        let mut hits: Vec<StoredHit> = Vec::new();
        let mut k: usize = 0;
        while k < all.len()
            invariant
                k <= all@.len(),
                hits@ == hits_of_resource(all@.subrange(0, k as int), resource_id),
                forall|m: int| 0 <= m < hits@.len() ==> #[trigger] hits@[m].resource_id == resource_id,
            decreases all@.len() - k,
        {
            proof {
                assert(all@.subrange(0, k as int + 1).drop_last() =~= all@.subrange(0, k as int));
            }
            if all[k].resource_id == resource_id {
                hits.push(all[k]);
            }
            k = k + 1;
        }
        assert(all@.subrange(0, all@.len() as int) =~= all@);
        Ok(hits)
    }
}

/// The shard that owns resource `id` in the store's manifest.
pub open spec fn owner_shard(store: Store, id: u32) -> int {
    let res = store.spec_manifest().resources@;
    res[id_index(res)[id] as int].shard as int
}

/// The hits one shard holds for hashes in `[start, stop]`.
pub open spec fn shard_range_hits(s: Shard, start: u64, stop: u64) -> Seq<StoredHit> {
    range_hits(s.bytes(), s.header(), start, stop, s.header().hash_count as int)
}

proof fn lemma_hits_of_resource_concat(a: Seq<StoredHit>, b: Seq<StoredHit>, id: u32)
    ensures
        hits_of_resource(a + b, id) == hits_of_resource(a, id) + hits_of_resource(b, id),
    decreases b.len(),
{
    if b.len() == 0 {
        assert(a + b =~= a);
        assert(hits_of_resource(a, id) + hits_of_resource(b, id) =~= hits_of_resource(a, id));
    } else {
        lemma_hits_of_resource_concat(a, b.drop_last(), id);
        assert((a + b).drop_last() =~= a + b.drop_last());
        assert((a + b).last() == b.last());
        assert(hits_of_resource(a + b, id) =~= hits_of_resource(a, id) + hits_of_resource(b, id));
    }
}

proof fn lemma_owner_hits(shards: Seq<Shard>, start: u64, stop: u64, n: int, owner: int, id: u32)
    requires
        0 <= n <= shards.len(),
        0 <= owner < shards.len(),
        forall|j: int| 0 <= j < shards.len() && j != owner ==> hits_of_resource(shard_range_hits(#[trigger] shards[j], start, stop), id)
            == Seq::<StoredHit>::empty(),
    ensures
        hits_of_resource(shard_hits(shards, start, stop, n), id) == if owner < n {
            hits_of_resource(shard_range_hits(shards[owner], start, stop), id)
        } else {
            Seq::<StoredHit>::empty()
        },
    decreases n,
{
    if n > 0 {
        lemma_owner_hits(shards, start, stop, n - 1, owner, id);
        let s = shards[n - 1];
        lemma_hits_of_resource_concat(shard_hits(shards, start, stop, n - 1), shard_range_hits(s, start, stop), id);
        if n - 1 == owner {
            assert(Seq::<StoredHit>::empty() + hits_of_resource(shard_range_hits(s, start, stop), id) =~= hits_of_resource(
                shard_range_hits(s, start, stop),
                id,
            ));
        } else {
            assert(hits_of_resource(shard_range_hits(s, start, stop), id) == Seq::<StoredHit>::empty());
            let before = hits_of_resource(shard_hits(shards, start, stop, n - 1), id);
            assert(before + Seq::<StoredHit>::empty() =~= before);
        }
    }
}

/// A lookup restricted to the shard that owns a resource answers exactly the all-shard
/// lookup's hits of that resource, when no other shard holds postings of the resource in the
/// scanned hash range (as every generation the store writes keeps each resource's postings in
/// its key-selected shard).
pub proof fn lemma_pair_lookup_is_filtered_lookup(store: Store, hash: u64, id: u32, all: Seq<StoredHit>, mine: Seq<StoredHit>)
    requires
        shards_match(store.spec_shards(), store.spec_manifest().shards@),
        store.id_in_shards(id),
        store.spec_manifest().resources@.len() <= usize::MAX,
        shards_sorted(store.spec_shards()),
        store.lookup_answer(hash, all),
        store.resource_lookup_answer(hash, id, mine),
        forall|j: int|
            0 <= j < SHARD_COUNT && j != owner_shard(store, id) ==> hits_of_resource(
                shard_range_hits(#[trigger] store.spec_shards()[j], scan_range(hash).0, scan_range(hash).1),
                id,
            ) == Seq::<StoredHit>::empty(),
    ensures
        mine == hits_of_resource(all, id),
{
    let (start, stop) = scan_range(hash);
    let shards = store.spec_shards();
    let res = store.spec_manifest().resources@;
    lemma_id_index(res);
    let owner = owner_shard(store, id);
    assert(index_sorted(shards[owner].bytes(), shards[owner].header()));
    lemma_owner_hits(shards, start, stop, SHARD_COUNT as int, owner, id);
}

proof fn lemma_total_postings_prefix(res: Seq<ResourceInfo>, n: int)
    requires
        0 <= n <= res.len(),
    ensures
        total_postings(res.subrange(0, n)) <= total_postings(res),
    decreases res.len() - n,
{
    if n < res.len() {
        lemma_total_postings_prefix(res.drop_last(), n);
        assert(res.drop_last().subrange(0, n) =~= res.subrange(0, n));
    } else {
        assert(res.subrange(0, n) =~= res);
    }
}

} // verus!

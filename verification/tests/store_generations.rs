use memmap2::{Mmap, MmapMut};
use resident_core::dump::{DumpResource, ResourceMeta};
use resident_core::generation::{build_generation, fresh_ingest_counts, plan_ingest, PreparedShard};
use resident_core::shard::shard_file_bytes;
use resident_core::store::{identity_profile, Manifest, Shard, Store};
use resident_core::{Error, Fingerprint};

fn resource(key: &str, prints: &[(u64, u32, u16)]) -> DumpResource {
    DumpResource {
        meta: ResourceMeta {
            source_id: "1".into(),
            key: key.into(),
            duration_bits: 10.0f64.to_bits(),
            declared_prints: prints.len() as u64,
        },
        prints: prints.iter().map(|&(hash, t, f)| Fingerprint { hash, t, f }).collect(),
        prints_path: String::new(),
    }
}

fn map_of(bytes: &[u8]) -> Mmap {
    let mut map = MmapMut::map_anon(bytes.len()).unwrap();
    map.copy_from_slice(bytes);
    map.make_read_only().unwrap()
}

/// The shard files of a generation, by shard number, as written bytes.
struct Generation {
    manifest: Manifest,
    files: Vec<Vec<u8>>,
}

fn written(prepared: &[PreparedShard], files: &mut [Vec<u8>]) {
    for shard in prepared {
        files[shard.info.number as usize] = shard_file_bytes(shard.info.number, &shard.forward, &shard.inverted);
    }
}

fn open(generation: Generation) -> Result<Store, Error> {
    let mut shards = Vec::new();
    for info in &generation.manifest.shards {
        let bytes = &generation.files[info.number as usize];
        shards.push(Shard::open(map_of(bytes), info, &info.file)?);
    }
    Store::assemble("store".into(), generation.manifest, shards)
}

fn build(resources: Vec<DumpResource>) -> (Store, Vec<Vec<u8>>) {
    let (manifest, prepared) = build_generation(resources).unwrap();
    let mut files = vec![Vec::new(); 64];
    written(&prepared, &mut files);
    let store = open(Generation { manifest, files: files.clone() }).unwrap();
    (store, files)
}

/// Rebuilds the shards a change touches and opens the published generation.
fn republish(store: &Store, files: &mut [Vec<u8>], affected: &Vec<u32>, changes: &Vec<(u32, DumpResource)>, retired: Option<&str>) -> Store {
    let (manifest, prepared) = store.rebuild_changed_shards(affected, changes, retired).unwrap();
    written(&prepared, files);
    open(Generation { manifest, files: files.to_vec() }).unwrap()
}

#[test]
fn round_trips_both_access_orders() {
    let (store, _) = build(vec![
        resource("b", &[(99, 7, 8), (101, 9, 10)]),
        resource("a", &[(100, 2, 3), (99, 1, 4)]),
    ]);
    assert_eq!(store.forward("a", Some((2, 3))).unwrap(), vec![Fingerprint::new(100, 2, 3)]);
    let hits = store.lookup(100).unwrap();
    assert_eq!(hits.len(), 4);
    let a_id = store.resource("a").unwrap().id;
    assert_eq!(
        store.lookup_resource(100, a_id).unwrap(),
        hits.into_iter().filter(|hit| hit.resource_id == a_id).collect::<Vec<_>>()
    );
    assert_eq!(store.stats().postings, 4);
}

#[test]
fn ingest_is_idempotent_and_retire_removes_real_postings() {
    let (store, mut files) = build(vec![resource("a", &[(10, 1, 2)]), resource("b", &[(20, 3, 4)])]);
    let unchanged = plan_ingest(&store, vec![resource("a", &[(10, 1, 2)])], false).unwrap();
    assert_eq!(unchanged.resources_unchanged, 1);
    assert_eq!(unchanged.postings_added, 0);
    assert!(unchanged.changes.is_empty());
    assert_eq!(store.stats().postings, 2);

    let retired = store.plan_retire("a").unwrap();
    assert_eq!(retired.postings, 1);
    let store = republish(&store, &mut files, &vec![retired.shard], &Vec::new(), Some("a"));
    assert_eq!(store.stats().postings, 1);
    assert!(matches!(store.resource("a"), Err(Error::BadRequest(_))));
    assert!(store.lookup(10).unwrap().is_empty());
}

#[test]
fn identity_rehash_reuses_shards_and_is_idempotent() {
    let (manifest, prepared) =
        build_generation(vec![resource("a", &[(10, 1, 2)]), resource("b", &[(20, 3, 4)])]).unwrap();
    let mut files = vec![Vec::new(); 64];
    written(&prepared, &mut files);
    let shard_files: Vec<String> = manifest.shards.iter().map(|shard| shard.file.clone()).collect();
    let mut legacy = manifest;
    legacy.generation = "legacy-duration-hash".into();
    legacy.fingerprint_identity_profile = None;
    for resource in &mut legacy.resources {
        resource.content_hash = format!("duration-coupled-{}", resource.key);
    }
    let store = open(Generation { manifest: legacy, files: files.clone() }).unwrap();

    let (rehashed, changed, published) = store.rehash_identities().unwrap();
    assert!(published);
    assert_eq!(store.stats().generation, "legacy-duration-hash");
    assert_eq!(changed, 2);
    assert_ne!(rehashed.generation, "legacy-duration-hash");
    assert_eq!(rehashed.fingerprint_identity_profile.as_deref(), Some(identity_profile()));
    assert_eq!(rehashed.shards.iter().map(|shard| shard.file.clone()).collect::<Vec<_>>(), shard_files);
    let store = open(Generation { manifest: rehashed, files }).unwrap();
    assert_eq!(f64::from_bits(store.resource("a").unwrap().duration_bits), 10.0);
    assert_eq!(store.stats().fingerprint_identity_profile.as_deref(), Some(identity_profile()));

    let (again, unchanged, published_again) = store.rehash_identities().unwrap();
    assert_eq!(unchanged, 0);
    assert!(!published_again);
    assert_eq!(again.generation, store.stats().generation);
}

#[test]
fn rehashed_identity_matches_the_prints_only_hash() {
    let (store, _) = build(vec![resource("a", &[(10, 1, 2), (11, 0, 5)]), resource("b", &[(20, 3, 4)])]);
    let recorded = store.resource("a").unwrap().content_hash.clone();
    assert_eq!(store.fingerprint_content_hash("a").unwrap(), recorded);
    assert!(matches!(store.fingerprint_content_hash("zz"), Err(Error::BadRequest(_))));
}

#[test]
fn ingest_adds_new_resources_and_reads_them_back() {
    let (store, mut files) = build(vec![resource("a", &[(10, 1, 2)])]);
    let plan = plan_ingest(&store, vec![resource("c", &[(30, 5, 6), (31, 7, 8)])], false).unwrap();
    assert_eq!(plan.resources_added, 1);
    assert_eq!(plan.postings_added, 2);
    let store = republish(&store, &mut files, &plan.affected, &plan.changes, None);
    assert_eq!(store.stats().resources, 2);
    assert_eq!(store.stats().postings, 3);
    assert_eq!(
        store.forward("c", None).unwrap(),
        vec![Fingerprint::new(30, 5, 6), Fingerprint::new(31, 7, 8)]
    );
    assert_eq!(store.forward("a", None).unwrap(), vec![Fingerprint::new(10, 1, 2)]);
    let c_id = store.resource("c").unwrap().id;
    assert!(c_id > store.resource("a").unwrap().id);
    assert_eq!(store.resource_by_id(c_id).unwrap().key, "c");
}

#[test]
fn changed_prints_need_replace() {
    let (store, _) = build(vec![resource("a", &[(10, 1, 2)])]);
    let refused = plan_ingest(&store, vec![resource("a", &[(11, 1, 2)])], false);
    assert!(matches!(refused, Err(Error::BadRequest(_))));
    let plan = plan_ingest(&store, vec![resource("a", &[(11, 1, 2)])], true).unwrap();
    assert_eq!(plan.resources_replaced, 1);
}

#[test]
fn build_rejects_empty_and_duplicate_input() {
    assert!(matches!(build_generation(Vec::new()), Err(Error::BadRequest(_))));
    assert!(matches!(
        build_generation(vec![resource("a", &[(1, 1, 1)]), resource("a", &[(2, 2, 2)])]),
        Err(Error::BadRequest(_))
    ));
}

#[test]
fn forward_windows_are_half_open() {
    let (store, _) = build(vec![resource("a", &[(1, 0, 1), (2, 5, 1), (3, 10, 1)])]);
    assert_eq!(
        store.forward("a", Some((5, 10))).unwrap(),
        vec![Fingerprint::new(2, 5, 1)]
    );
    assert_eq!(store.forward("a", Some((11, 20))).unwrap(), Vec::<Fingerprint>::new());
    assert!(matches!(store.forward("missing", None), Err(Error::BadRequest(_))));
}

#[test]
fn retiring_the_last_resource_is_refused() {
    let (store, _) = build(vec![resource("a", &[(1, 0, 1)])]);
    assert!(matches!(store.plan_retire("a"), Err(Error::BadRequest(_))));
    assert!(matches!(store.plan_retire("b"), Err(Error::BadRequest(_))));
}

#[test]
fn a_truncated_shard_is_refused() {
    let (manifest, prepared) = build_generation(vec![resource("a", &[(1, 0, 1)])]).unwrap();
    let shard = &prepared[0];
    let mut bytes = shard_file_bytes(shard.info.number, &shard.forward, &shard.inverted);
    bytes.pop();
    assert!(Shard::open(map_of(&bytes), &manifest.shards[0], "shard").is_err());
}

fn update(key: &str, seconds: f64, plausible: bool) -> resident_core::durations::DurationUpdate {
    resident_core::durations::DurationUpdate { key: key.into(), duration_bits: seconds.to_bits(), plausible }
}

#[test]
fn durations_publish_only_metadata_and_identity() {
    let (store, files) = build(vec![resource("a", &[(10, 1, 2)]), resource("b", &[(20, 3, 4)])]);
    let generation = store.stats().generation;
    let hashes: Vec<String> = store.resources().iter().map(|r| r.content_hash.clone()).collect();
    let (manifest, changed) = store
        .set_durations(&generation, &vec![update("b", 12.0, true), update("a", 10.0, true)])
        .unwrap();
    assert_eq!(changed, 1);
    assert_ne!(manifest.generation, generation);
    let store = open(Generation { manifest, files }).unwrap();
    assert_eq!(f64::from_bits(store.resource("b").unwrap().duration_bits), 12.0);
    assert_eq!(store.resources().iter().map(|r| r.content_hash.clone()).collect::<Vec<_>>(), hashes);

    let current = store.stats().generation;
    let (again, unchanged) = store
        .set_durations(&current, &vec![update("a", 10.0, true), update("b", 12.0, true)])
        .unwrap();
    assert_eq!(unchanged, 0);
    assert_eq!(again.generation, current);
}

#[test]
fn duration_maps_must_be_complete_exact_and_current() {
    let (store, _) = build(vec![resource("a", &[(10, 1, 2)]), resource("b", &[(20, 3, 4)])]);
    let generation = store.stats().generation;
    let refused = |updates: Vec<resident_core::durations::DurationUpdate>, expected: &str| {
        matches!(store.set_durations(expected, &updates), Err(Error::BadRequest(_)))
    };
    assert!(refused(vec![update("a", 1.0, true)], &generation));
    assert!(refused(vec![update("a", 1.0, true), update("a", 1.0, true), update("b", 1.0, true)], &generation));
    assert!(refused(vec![update("a", 1.0, true), update("b", 1.0, true), update("c", 1.0, true)], &generation));
    assert!(refused(vec![update("a", 1.0, true), update("b", 1.0, false)], &generation));
    assert!(refused(vec![update("a", 1.0, true), update("b", 1.0, true)], "other"));
}

#[test]
fn fresh_ingest_counts_every_resource_and_print() {
    let resources = vec![
        resource("a", &[(1, 2, 3), (4, 5, 6)]),
        resource("b", &[(7, 8, 9)]),
    ];
    assert_eq!(fresh_ingest_counts(&resources), (2, 3));
    assert_eq!(fresh_ingest_counts(&Vec::new()), (0, 0));
}

#[test]
fn an_entry_naming_a_missing_shard_opens_and_is_reported_by_the_checks() {
    let (manifest, prepared) =
        build_generation(vec![resource("a", &[(10, 1, 2)]), resource("b", &[(20, 3, 4)])]).unwrap();
    let mut files = vec![Vec::new(); 64];
    written(&prepared, &mut files);
    let mut manifest = manifest;
    let b_id = manifest.resources.iter().find(|info| info.key == "b").unwrap().id;
    for info in manifest.resources.iter_mut() {
        if info.key == "b" {
            info.shard = 70;
        }
    }
    let store = open(Generation { manifest, files }).unwrap();
    assert!(store.key_names_shard("a"));
    assert!(!store.key_names_shard("b"));
    assert!(store.key_names_shard("missing"));
    assert!(!store.id_names_shard(b_id));
    assert!(!store.keys_name_shards());
    assert_eq!(store.forward("a", None).unwrap(), vec![Fingerprint::new(10, 1, 2)]);
    assert_eq!(store.lookup(20).unwrap().len(), 1);
}

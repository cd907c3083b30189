use memmap2::{Mmap, MmapMut};
use resident_core::dump::{DumpResource, ResourceMeta};
use resident_core::generation::build_generation;
use resident_core::matcher::candidates;
use resident_core::passage::{is_excluded, passage_id, passage_profile, snapshot, unique_hit_keys, SupportBits};
use resident_core::shard::shard_file_bytes;
use resident_core::span::{compatibility_regions, ensure_compatible, passage_regions, region_prints, RegionBins, WindowBins};
use resident_core::store::{Shard, Store};
use resident_core::{Error, Fingerprint};
use sha2::{Digest, Sha256};

fn resource(key: &str, prints: &[(u64, u32, u16)]) -> DumpResource {
    DumpResource {
        meta: ResourceMeta {
            source_id: "1".into(),
            key: key.into(),
            duration_bits: 10.0f64.to_bits(),
            declared_prints: prints.len() as u64,
        },
        prints: prints.iter().map(|&(hash, t, f)| Fingerprint { hash, t, f }).collect(),
        prints_path: String::new(),
    }
}

fn map_of(bytes: &[u8]) -> Mmap {
    let mut map = MmapMut::map_anon(bytes.len()).unwrap();
    map.copy_from_slice(bytes);
    map.make_read_only().unwrap()
}

fn build(resources: Vec<DumpResource>) -> Store {
    let (manifest, prepared) = build_generation(resources).unwrap();
    let mut shards = Vec::new();
    for (info, shard) in manifest.shards.iter().zip(&prepared) {
        let bytes = shard_file_bytes(shard.info.number, &shard.forward, &shard.inverted);
        shards.push(Shard::open(map_of(&bytes), info, &info.file).unwrap());
    }
    Store::assemble("store".into(), manifest, shards).unwrap()
}

fn small(window: u32, hop: u32, anchor_at_zero: bool) -> RegionBins {
    RegionBins { window, hop, anchor_at_zero }
}

#[test]
fn region_geometries() {
    assert_eq!(compatibility_regions(), small(3750, 3750, false));
    assert_eq!(passage_regions(), small(1500, 1000, true));
}

#[test]
fn regions_cut_the_stored_prints_and_skip_empty_ones() {
    let store = build(vec![resource("a", &[(1, 2, 1), (2, 3, 1), (3, 9, 1), (4, 10, 1)])]);
    let regions = region_prints(&store, "a", WindowBins::All, small(4, 4, false)).unwrap();
    // Scan [2, 11): regions [2, 6), [6, 10), [10, 11); the middle one holds bin 9.
    assert_eq!(
        regions,
        vec![
            vec![Fingerprint::new(1, 2, 1), Fingerprint::new(2, 3, 1)],
            vec![Fingerprint::new(3, 9, 1)],
            vec![Fingerprint::new(4, 10, 1)],
        ]
    );
    let overlapping = region_prints(&store, "a", WindowBins::All, small(4, 2, true)).unwrap();
    // Scan [0, 11) from bin 0: [0,4), [2,6), [4,8) is empty, [6,10), [8,11), [10,11).
    assert_eq!(overlapping.len(), 5);
    assert_eq!(overlapping[0], vec![Fingerprint::new(1, 2, 1), Fingerprint::new(2, 3, 1)]);
}

#[test]
fn region_errors() {
    let store = build(vec![resource("a", &[(1, 2, 1)])]);
    assert!(matches!(region_prints(&store, "zz", WindowBins::All, small(4, 4, false)), Err(Error::BadRequest(_))));
    assert!(matches!(region_prints(&store, "a", WindowBins::Invalid, small(4, 4, false)), Err(Error::BadRequest(_))));
    assert!(matches!(region_prints(&store, "a", WindowBins::All, small(0, 4, false)), Err(Error::Internal(_))));
    assert!(matches!(
        region_prints(&store, "a", WindowBins::Bins(5, 9), small(4, 4, false)),
        Err(Error::BadRequest(m)) if m == "window contains no stored time range for \"a\""
    ));
    assert!(matches!(
        region_prints(&store, "a", WindowBins::Bins(0, 2), small(4, 4, false)),
        Err(Error::BadRequest(m)) if m == "window contains no fingerprints for \"a\""
    ));
}

#[test]
fn stores_of_one_configuration_are_compatible() {
    let a = build(vec![resource("a", &[(1, 2, 1)])]);
    let b = build(vec![resource("b", &[(5, 2, 1)])]);
    assert!(ensure_compatible(&a, &b).is_ok());
}

#[test]
fn snapshot_names_both_generations() {
    let a = build(vec![resource("a", &[(1, 2, 1)])]);
    let b = build(vec![resource("b", &[(5, 2, 1)])]);
    let s = snapshot(&a, &b, "a").unwrap();
    assert_eq!(s.profile, passage_profile());
    assert_eq!(s.profile, "passage-v3");
    assert_eq!(s.direction, "a_to_b");
    assert_eq!(s.a_generation, a.stats().generation);
    assert_eq!(s.b_generation, b.stats().generation);
    assert_eq!(s.a_content_hash, a.resource("a").unwrap().content_hash);
    assert!(matches!(snapshot(&a, &b, "b"), Err(Error::BadRequest(_))));
}

#[test]
fn passage_identity_digests_endpoints_and_support() {
    let support = vec![SupportBits { a_start: 1, a_stop: 2, b_start: 3, b_stop: 4, hits: 5 }];
    let id = passage_id("a", "ah", "b", "bh", "config", &support);
    let mut bytes = Vec::new();
    for field in [passage_profile(), "config", "a", "ah", "b", "bh"] {
        bytes.extend_from_slice(field.as_bytes());
        bytes.push(0);
    }
    for v in [1u64, 2, 3, 4, 5] {
        bytes.extend_from_slice(&v.to_le_bytes());
    }
    assert_eq!(id, format!("psg_{}", hex::encode(Sha256::digest(&bytes))));
    assert_ne!(id, passage_id("b", "bh", "a", "ah", "config", &support));
    assert_ne!(id, passage_id("a", "ah", "b", "bh", "config", &Vec::new()));
}

#[test]
fn hit_keys_are_sorted_and_deduplicated() {
    let keys = vec![(3, 1, 9, 9), (1, 2, 3, 4), (3, 1, 9, 9), (1, 2, 3, 3)];
    assert_eq!(unique_hit_keys(keys), vec![(1, 2, 3, 3), (1, 2, 3, 4), (3, 1, 9, 9)]);
}

#[test]
fn discovery_excludes_the_probe_and_listed_keys() {
    let excluded = vec!["x".to_string()];
    assert!(is_excluded("a", "a", &excluded));
    assert!(is_excluded("x", "a", &excluded));
    assert!(!is_excluded("y", "a", &excluded));
}

#[test]
fn candidate_lookups_refuse_a_hash_beyond_34_bits() {
    let store = build(vec![resource("a", &[(5, 2, 1), (6, 3, 1)])]);
    let probe = vec![Fingerprint::new(5, 1, 1), Fingerprint::new(1 << 34, 2, 1)];
    match candidates(&store, &probe, 3, None) {
        Err(Error::BadRequest(message)) => assert_eq!(message, "hash 17179869184 exceeds 34 bits"),
        other => panic!("unexpected {other:?}"),
    }
    let within = vec![Fingerprint::new(5, 1, 1), Fingerprint::new(6, 2, 1)];
    assert!(candidates(&store, &within, 3, None).is_ok());
    assert!(candidates(&store, &within, 3, Some(1)).is_ok());
}

use resident_core::pointer::manifest_name;
use resident_core::codec::{checked_region, read_u16, read_u32, read_u64, write_u64_to};
use resident_core::config::{config_id, config_identity};
use resident_core::digest::sha256_hex;
use resident_core::identity::{fingerprint_content_hash, shard_file_name, shard_for_key};
use resident_core::shard::{write_forward, FullPosting};
use resident_core::{Error, Fingerprint};
use sha2::{Digest, Sha256};

#[test]
fn little_endian_reads_stop_at_the_end() {
    let bytes = [1u8, 2, 3, 4, 5, 6, 7, 8, 9];
    assert_eq!(read_u16(&bytes, 0).unwrap(), 0x0201);
    assert_eq!(read_u32(&bytes, 1).unwrap(), 0x0504_0302);
    assert_eq!(read_u64(&bytes, 1).unwrap(), 0x0908_0706_0504_0302);
    assert!(matches!(read_u64(&bytes, 2), Err(Error::InvalidStore(_))));
    assert!(matches!(read_u16(&bytes, 8), Err(Error::InvalidStore(_))));
    assert!(matches!(read_u32(&bytes, usize::MAX), Err(Error::InvalidStore(_))));
}

#[test]
fn written_u64_reads_back() {
    let mut out = vec![0xaa];
    write_u64_to(&mut out, 0x0102_0304_0506_0708);
    assert_eq!(out, vec![0xaa, 8, 7, 6, 5, 4, 3, 2, 1]);
    assert_eq!(read_u64(&out, 1).unwrap(), 0x0102_0304_0506_0708);
}

#[test]
fn regions_overflow_into_errors() {
    assert_eq!(checked_region(64, 3, 18).unwrap(), 118);
    assert!(matches!(checked_region(0, u64::MAX, 2), Err(Error::InvalidStore(_))));
    assert!(matches!(checked_region(u64::MAX, 1, 1), Err(Error::InvalidStore(_))));
}

#[test]
fn forward_records_are_little_endian() {
    let mut out = Vec::new();
    write_forward(&mut out, FullPosting { hash: 0x0102, resource_id: 7, t: 3, f: 0x0405 });
    // resource id, time, frequency, two padding bytes, hash
    assert_eq!(out, vec![7, 0, 0, 0, 3, 0, 0, 0, 0x05, 0x04, 0, 0, 0x02, 0x01, 0, 0, 0, 0, 0, 0]);
}

#[test]
fn digests_are_sha256() {
    assert_eq!(
        sha256_hex(b""),
        "e3b0c44298fc1c149afbf4c8996fb92427ae41e4649b934ca495991b7852b855"
    );
    assert_eq!(sha256_hex(b"abc"), hex::encode(Sha256::digest(b"abc")));
}

#[test]
fn config_id_names_the_configuration() {
    assert_eq!(config_id(), hex::encode(Sha256::digest(config_identity().as_bytes())));
}

#[test]
fn content_hash_covers_each_print_in_order() {
    let prints = vec![Fingerprint::new(1, 2, 3), Fingerprint::new(4, 5, 6)];
    let mut bytes = Vec::new();
    for p in &prints {
        bytes.extend_from_slice(&p.hash.to_le_bytes());
        bytes.extend_from_slice(&p.t.to_le_bytes());
        bytes.extend_from_slice(&p.f.to_le_bytes());
    }
    assert_eq!(fingerprint_content_hash(&prints), hex::encode(Sha256::digest(&bytes)));
    let reversed = vec![prints[1], prints[0]];
    assert_ne!(fingerprint_content_hash(&reversed), fingerprint_content_hash(&prints));
    assert_eq!(
        fingerprint_content_hash(&Vec::new()),
        "e3b0c44298fc1c149afbf4c8996fb92427ae41e4649b934ca495991b7852b855"
    );
}

#[test]
fn keys_are_placed_by_digest_prefix() {
    for key in ["a", "b", "some/key", ""] {
        let digest = Sha256::digest(key.as_bytes());
        let expected = u32::from_le_bytes([digest[0], digest[1], digest[2], digest[3]]) % 64;
        assert_eq!(shard_for_key(key), expected);
    }
}

#[test]
fn shard_file_names_are_padded_and_content_addressed() {
    let name = shard_file_name(3, &Vec::new());
    assert!(name.starts_with("shard-03-"));
    assert!(name.ends_with(".bin"));
    assert_eq!(name.len(), "shard-03-".len() + 24 + ".bin".len());
    let digest = Sha256::digest(config_id().as_bytes());
    assert_eq!(name, format!("shard-03-{}.bin", hex::encode(&digest[..12])));
    assert!(shard_file_name(42, &Vec::new()).starts_with("shard-42-"));
}

#[test]
fn current_pointer_names_a_manifest_file() {
    assert_eq!(manifest_name("gen_abc.json\n").unwrap(), "gen_abc.json");
    assert_eq!(manifest_name("  gen_abc.json \r\n").unwrap(), "gen_abc.json");
    for bad in ["", " \n\t", "..", "/"] {
        match manifest_name(bad) {
            Err(Error::InvalidStore(message)) => assert_eq!(message, "invalid CURRENT pointer"),
            other => panic!("unexpected {other:?} for {bad:?}"),
        }
    }
}

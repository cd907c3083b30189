use resident_core::dump::{
    check_declared, load_metadata, load_prints, metadata_files, metadata_lines, parse_prints, parse_unsigned,
    split_fields, DurationField, ResourceMeta,
};
use resident_core::{Error, Fingerprint};

fn chars(s: &str) -> Vec<char> {
    s.chars().collect()
}

#[test]
fn parses_hashes_above_u32() {
    let bytes = b"6782338376 1098801918 15 309 \n";
    assert_eq!(
        load_prints("prints.tdb", bytes, false).unwrap(),
        vec![Fingerprint::new(6_782_338_376, 15, 309)]
    );
}

#[test]
fn rejects_out_of_range_values_with_line_context() {
    let bytes = b"17179869184 1 2 3\n";
    let error = load_prints("prints.tdb", bytes, false).unwrap_err().message();
    assert!(error.contains(":1:"));
    assert!(error.contains("exceeds 34 bits"));
}

#[test]
fn parses_several_lines_with_either_line_ending() {
    let bytes = b"1 x 2 3\n4 y 5 6\r\n";
    assert_eq!(
        parse_prints("p", bytes).unwrap(),
        vec![Fingerprint::new(1, 2, 3), Fingerprint::new(4, 5, 6)]
    );
}

#[test]
fn a_blank_line_is_a_malformed_print() {
    let err = parse_prints("p", b"1 x 2 3\n\n").unwrap_err();
    assert!(matches!(err, Error::InvalidDump { line: 2, ref message, .. } if message == "expected four fields, got 0"));
}

#[test]
fn empty_dump_has_no_prints() {
    assert_eq!(parse_prints("p", b"").unwrap(), Vec::<Fingerprint>::new());
}

#[test]
fn wrong_field_count_names_the_line() {
    let err = parse_prints("p", b"1 2 3 4\n1 2 3\n").unwrap_err();
    match err {
        Error::InvalidDump { path, line, message } => {
            assert_eq!(path, "p");
            assert_eq!(line, 2);
            assert_eq!(message, "expected four fields, got 3");
        }
        other => panic!("unexpected {other:?}"),
    }
}

#[test]
fn frequency_above_512_is_rejected() {
    let err = parse_prints("p", b"1 2 3 513\n").unwrap_err();
    match err {
        Error::InvalidDump { line, message, .. } => {
            assert_eq!(line, 1);
            assert_eq!(message, "frequency bin 513 exceeds 512");
        }
        other => panic!("unexpected {other:?}"),
    }
}

#[test]
fn non_numeric_time_is_reported_with_the_value() {
    let err = parse_prints("p", b"1 2 x9 3\n").unwrap_err();
    match err {
        Error::InvalidDump { message, .. } => assert_eq!(message, "invalid time bin: \"x9\""),
        other => panic!("unexpected {other:?}"),
    }
}

#[test]
fn invalid_utf8_is_an_io_error() {
    let err = parse_prints("p", &[0xff, 0xfe, b'\n']).unwrap_err();
    assert!(matches!(err, Error::Io { ref path, .. } if path == "p"));
    assert_eq!(err.wire_kind(), "internal");
}

#[test]
fn compressed_dump_is_decoded_before_parsing() {
    let compressed = zstd::encode_all(&b"6782338376 1 15 309\n"[..], 0).unwrap();
    assert_eq!(
        load_prints("p.tdb.zst", &compressed, true).unwrap(),
        vec![Fingerprint::new(6_782_338_376, 15, 309)]
    );
}

#[test]
fn corrupt_compressed_dump_is_an_io_error() {
    let err = load_prints("p.tdb.zst", b"not zstd", true).unwrap_err();
    assert!(matches!(err, Error::Io { ref path, .. } if path == "p.tdb.zst"));
}

#[test]
fn unsigned_parsing_has_exact_bounds() {
    assert_eq!(parse_unsigned(&chars("65535"), 65535), Some(65535));
    assert_eq!(parse_unsigned(&chars("65536"), 65535), None);
    assert_eq!(parse_unsigned(&chars("18446744073709551615"), u64::MAX), Some(u64::MAX));
    assert_eq!(parse_unsigned(&chars("18446744073709551616"), u64::MAX), None);
    assert_eq!(parse_unsigned(&chars(""), 10), None);
    assert_eq!(parse_unsigned(&chars("+1"), 10), Some(1));
    assert_eq!(parse_unsigned(&chars("-1"), 10), None);
}

#[test]
fn fields_split_on_whitespace_runs() {
    let f = split_fields(&chars("  a\tbb  c "));
    assert_eq!(f, vec![chars("a"), chars("bb"), chars("c")]);
}

fn lines(v: &[&str]) -> Vec<String> {
    v.iter().map(|s| s.to_string()).collect()
}

#[test]
fn metadata_is_read_from_four_lines() {
    let ls = metadata_lines("m", b"7\n12.5\n3\nsong\n".to_vec()).unwrap();
    assert_eq!(ls, lines(&["7", "12.5", "3", "song"]));
    let meta = load_metadata("m", &ls, DurationField::Seconds(12.5f64.to_bits())).unwrap();
    assert_eq!(meta.source_id, "7");
    assert_eq!(meta.key, "song");
    assert_eq!(meta.declared_prints, 3);
    assert_eq!(f64::from_bits(meta.duration_bits), 12.5);
}

#[test]
fn metadata_with_wrong_line_count_is_rejected() {
    let err = metadata_lines("m", b"7\n12.5\n3\n".to_vec()).unwrap_err();
    match err {
        Error::InvalidDump { line, message, .. } => {
            assert_eq!(line, 0);
            assert_eq!(message, "metadata must contain exactly four lines, got 3");
        }
        other => panic!("unexpected {other:?}"),
    }
}

#[test]
fn metadata_field_errors_name_their_line() {
    let bad_id = load_metadata("m", &lines(&["x", "1", "0", "k"]), DurationField::Seconds(0)).unwrap_err();
    assert!(matches!(bad_id, Error::InvalidDump { line: 1, .. }));
    let bad_duration = load_metadata("m", &lines(&["1", "-1", "0", "k"]), DurationField::OutOfRange).unwrap_err();
    match bad_duration {
        Error::InvalidDump { line, message, .. } => {
            assert_eq!(line, 2);
            assert_eq!(message, "duration must be finite and non-negative");
        }
        other => panic!("unexpected {other:?}"),
    }
    let unparsable = load_metadata("m", &lines(&["1", "abc", "0", "k"]), DurationField::Unparsable).unwrap_err();
    assert!(matches!(unparsable, Error::InvalidDump { line: 2, .. }));
    let bad_count = load_metadata("m", &lines(&["1", "1", "-3", "k"]), DurationField::Seconds(0)).unwrap_err();
    assert!(matches!(bad_count, Error::InvalidDump { line: 3, .. }));
    let empty_key = load_metadata("m", &lines(&["1", "1", "0", ""]), DurationField::Seconds(0)).unwrap_err();
    match empty_key {
        Error::InvalidDump { line, message, .. } => {
            assert_eq!(line, 4);
            assert_eq!(message, "resource key must not be empty");
        }
        other => panic!("unexpected {other:?}"),
    }
}

#[test]
fn declared_print_count_must_match() {
    let meta = ResourceMeta { source_id: "1".into(), key: "k".into(), duration_bits: 0, declared_prints: 2 };
    let prints = vec![Fingerprint::new(1, 2, 3)];
    assert!(matches!(
        check_declared(meta, prints.clone(), "p".into()),
        Err(Error::InvalidDump { .. })
    ));
    let meta = ResourceMeta { source_id: "1".into(), key: "k".into(), duration_bits: 0, declared_prints: 1 };
    let dump = check_declared(meta, prints.clone(), "p".into()).unwrap();
    assert_eq!(dump.prints, prints);
    assert_eq!(dump.prints_path, "p");
}

#[test]
fn metadata_files_are_filtered_and_sorted() {
    let names = lines(&["b_meta_data.txt", "x.tdb", "a_meta_data.txt", "notes.txt"]);
    assert_eq!(
        metadata_files("dir", names).unwrap(),
        lines(&["a_meta_data.txt", "b_meta_data.txt"])
    );
    let err = metadata_files("dir", lines(&["x.tdb"])).unwrap_err();
    assert_eq!(err.wire_kind(), "bad_request");
}

#[test]
fn io_errors_carry_their_source_text() {
    let error = Error::io("some/path", std::io::Error::new(std::io::ErrorKind::Other, "disk on fire"));
    assert_eq!(error.message(), "I/O error at some/path: disk on fire");
    assert_eq!(error.wire_kind(), "internal");
}

#[test]
fn error_messages_follow_their_variant() {
    assert_eq!(Error::StoreMissing("x".into()).message(), "store is missing at x");
    assert_eq!(
        Error::StoreVersionMismatch { expected: 1, found: 2 }.message(),
        "store version mismatch: expected 1, found 2"
    );
    assert_eq!(Error::BadRequest("b".into()).message(), "bad request: b");
    assert_eq!(Error::StoreMissing("x".into()).wire_kind(), "store_missing");
    assert_eq!(
        Error::InvalidDump { path: "p".into(), line: 3, message: "m".into() }.message(),
        "invalid dump p:3: m"
    );
}

#[test]
fn io_error_keeps_its_source() {
    let source = std::io::Error::new(std::io::ErrorKind::Other, "disk on fire");
    let error = Error::io("prints.tdb", source);
    match &error {
        Error::Io { path, source } => {
            assert_eq!(path, "prints.tdb");
            assert_eq!(source.kind(), std::io::ErrorKind::Other);
            assert_eq!(source.to_string(), "disk on fire");
        }
        other => panic!("unexpected {other:?}"),
    }
    assert_eq!(error.wire_kind(), "internal");
    assert_eq!(error.message(), "I/O error at prints.tdb: disk on fire");
}

#[test]
fn a_faulty_line_before_a_broken_frame_is_reported_first() {
    let mut stream = zstd::encode_all(&b"1 2 3\n"[..], 0).unwrap();
    stream.extend_from_slice(b"\x28\xb5\x2f\xfd garbage after the first frame");
    match load_prints("p.tdb.zst", &stream, true).unwrap_err() {
        Error::InvalidDump { path, line, message } => {
            assert_eq!(path, "p.tdb.zst");
            assert_eq!(line, 1);
            assert_eq!(message, "expected four fields, got 3");
        }
        other => panic!("unexpected {other:?}"),
    }
}

#[test]
fn good_lines_before_a_broken_frame_end_in_an_io_error() {
    let mut stream = zstd::encode_all(&b"6782338376 1 15 309\n"[..], 0).unwrap();
    stream.extend_from_slice(b"\x28\xb5\x2f\xfd garbage after the first frame");
    let err = load_prints("p.tdb.zst", &stream, true).unwrap_err();
    assert!(matches!(err, Error::Io { ref path, .. } if path == "p.tdb.zst"));
}

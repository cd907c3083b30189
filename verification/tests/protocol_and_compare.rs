use resident_core::compare::rank_rows;
use resident_core::compare::count_set;
use resident_core::keyed::count_named;
use resident_core::compare::{compare_streams, question_verdict, rank_entries, signed_delta, RowFacts, StreamCheck};
use resident_core::protocol::{
    check_verb, default_crosscheck_k, default_match_k, ingest_from_dump_dir, prints_to_wire, target_keys, wire_meta,
    wire_prints, PrintsSource, Targets,
};
use resident_core::keyed::{align_references, group_by_name};
use resident_core::proximity::{near_anchors, near_prints};
use resident_core::{Error, Fingerprint};

#[test]
fn unknown_verb_is_unsupported() {
    let error = check_verb("olaf").unwrap_err();
    assert!(matches!(error, Error::Unsupported(_)));
    assert_eq!(error.wire_kind(), "unsupported");
    assert!(check_verb("match").is_ok());
    assert!(check_verb("crosscheck").is_ok());
    assert!(check_verb("passages").is_ok());
    assert!(check_verb("discover").is_ok());
}

#[test]
fn defaults_for_k() {
    assert_eq!(default_match_k(), 10);
    assert_eq!(default_crosscheck_k(), 25);
}

#[test]
fn wire_prints_round_trip() {
    let prints = vec![Fingerprint::new(6_782_338_376, 15, 309), Fingerprint::new(1, 2, 3)];
    let wire = prints_to_wire(&prints);
    assert_eq!(wire, vec![[6_782_338_376, 15, 309], [1, 2, 3]]);
    match wire_prints(Some(wire), None).unwrap() {
        PrintsSource::Inline(back) => assert_eq!(back, prints),
        PrintsSource::Path(_) => panic!("expected inline prints"),
    }
}

#[test]
fn wire_prints_need_exactly_one_source() {
    assert!(matches!(wire_prints(None, None), Err(Error::BadRequest(_))));
    assert!(matches!(wire_prints(Some(vec![]), Some("p".into())), Err(Error::BadRequest(_))));
    assert!(matches!(wire_prints(None, Some("p".into())), Ok(PrintsSource::Path(p)) if p == "p"));
}

#[test]
fn wire_prints_out_of_range_are_refused() {
    assert!(matches!(wire_prints(Some(vec![[1 << 34, 1, 1]]), None), Err(Error::BadRequest(_))));
    assert!(matches!(wire_prints(Some(vec![[1, 1 << 32, 1]]), None), Err(Error::BadRequest(_))));
    assert!(matches!(wire_prints(Some(vec![[1, 1, 513]]), None), Err(Error::BadRequest(_))));
}

#[test]
fn crosscheck_targets() {
    assert!(matches!(target_keys(Targets::All("all".into())), Ok(None)));
    assert!(matches!(target_keys(Targets::All("some".into())), Err(Error::BadRequest(_))));
    assert!(matches!(target_keys(Targets::Keys(vec!["a".into()])), Ok(Some(k)) if k == vec!["a".to_string()]));
}

#[test]
fn ingest_needs_one_source() {
    assert_eq!(ingest_from_dump_dir(true, false).unwrap(), true);
    assert_eq!(ingest_from_dump_dir(false, true).unwrap(), false);
    assert!(ingest_from_dump_dir(true, true).is_err());
    assert!(ingest_from_dump_dir(false, false).is_err());
}

#[test]
fn wire_meta_requires_a_valid_duration() {
    assert!(matches!(wire_meta("k".into(), None), Err(Error::BadRequest(_))));
    let meta = wire_meta("k".into(), Some(2.5f64.to_bits())).unwrap();
    assert_eq!(meta.key, "k");
    assert_eq!(meta.duration_bits, 2.5f64.to_bits());
}

fn both(a: usize, b: usize, overlap: bool) -> RowFacts {
    RowFacts {
        score_a: Some(a),
        score_b: Some(b),
        q_disjoint: !overlap,
        ref_disjoint: !overlap,
        q_overlaps: overlap,
        ref_overlaps: overlap,
    }
}

#[test]
fn row_comparison_reports_overlap_and_signed_score_delta() {
    // Spans (0, 10) against (5, 15) and (20, 30) against (25, 35) overlap on both sides.
    let (agreed, severity) = question_verdict(&vec![both(12, 9, true)], false, true, 3);
    assert!(agreed);
    assert_eq!(severity, 3);
    assert_eq!(signed_delta(12, 9), -3);
}

#[test]
fn signed_delta_saturates() {
    assert_eq!(signed_delta(9, 12), 3);
    assert_eq!(signed_delta(0, usize::MAX), i64::MAX);
    assert_eq!(signed_delta(usize::MAX, 0), -i64::MAX);
}

#[test]
fn verdict_weights_every_disagreement() {
    let one_sided = RowFacts { score_a: Some(4), score_b: None, q_disjoint: false, ref_disjoint: false, q_overlaps: false, ref_overlaps: false };
    let (agreed, severity) = question_verdict(&vec![both(10, 20, false), one_sided], true, false, 3);
    assert!(!agreed);
    assert_eq!(severity, 10 + 200_000 + 1_000_000 + 10_000_000);
    let (agreed, _) = question_verdict(&vec![both(10, 14, true)], false, true, 3);
    assert!(!agreed);
}

#[test]
fn ranking_orders_by_score_then_name() {
    let entries = vec![(5, "b".to_string()), (9, "z".to_string()), (5, "a".to_string()), (1, "c".to_string())];
    assert_eq!(rank_entries(&entries, 3), vec![1, 2, 0]);
    assert_eq!(rank_entries(&entries, 10), vec![1, 2, 0, 3]);
    let ties = vec![(5, "a".to_string()), (5, "a".to_string())];
    assert_eq!(rank_entries(&ties, 2), vec![0, 1]);
}

#[test]
fn streams_must_agree_bit_for_bit() {
    let prints = vec![Fingerprint::new(1, 2, 3)];
    assert_eq!(compare_streams(1, &prints, 1, &prints), StreamCheck::Agree(1));
    assert_eq!(compare_streams(1, &prints, 2, &prints), StreamCheck::DurationDiffers);
    assert_eq!(compare_streams(1, &prints, 1, &vec![]), StreamCheck::PrintsDiffer);
}

#[test]
fn references_align_by_name_keeping_the_last_row() {
    let a = vec!["m".to_string(), "b".to_string(), "m".to_string()];
    let b = vec!["b".to_string(), "z".to_string()];
    let (rows, same) = align_references(&a, &b);
    assert_eq!(
        rows,
        vec![
            ("b".to_string(), Some(1), Some(0)),
            ("m".to_string(), Some(2), None),
            ("z".to_string(), None, Some(1)),
        ]
    );
    assert!(!same);
    let (rows, same) = align_references(&vec!["x".to_string(), "y".to_string()], &vec!["y".to_string(), "x".to_string()]);
    assert_eq!(rows, vec![("x".to_string(), Some(0), Some(1)), ("y".to_string(), Some(1), Some(0))]);
    assert!(same);
}

#[test]
fn rows_group_by_name_in_byte_order() {
    let keys = vec!["b".to_string(), "B".to_string(), "b".to_string(), "a".to_string()];
    assert_eq!(
        group_by_name(&keys),
        vec![("B".to_string(), vec![1]), ("a".to_string(), vec![3]), ("b".to_string(), vec![0, 2])]
    );
    assert!(group_by_name(&Vec::new()).is_empty());
}

#[test]
fn proximity_counts_prints_with_a_nearby_counterpart() {
    let source = vec![Fingerprint::new(1, 10, 5), Fingerprint::new(2, 0, 5), Fingerprint::new(3, 50, 5)];
    let candidates = vec![Fingerprint::new(1, 12, 9), Fingerprint::new(2, 3, 5), Fingerprint::new(3, 47, 5)];
    assert_eq!(near_prints(&source, &candidates, 2), 1);
    assert_eq!(near_prints(&source, &candidates, 3), 3);
    assert_eq!(near_prints(&Vec::new(), &candidates, 2), 0);
    let anchors = vec![(10, 5), (0, 6), (u32::MAX, 1)];
    let others = vec![(8, 5), (2, 6), (u32::MAX - 1, 1)];
    assert_eq!(near_anchors(&anchors, &others, 2), 3);
    assert_eq!(near_anchors(&anchors, &others, 1), 1);
}

#[test]
fn match_rows_order_by_score_key_and_start_bins() {
    let rows = vec![
        (30u64, "b".to_string(), 5u32, 1u32),
        (40, "z".to_string(), 9, 9),
        (30, "a".to_string(), 7, 2),
        (30, "a".to_string(), 3, 8),
        (30, "a".to_string(), 3, 4),
        (30, "a".to_string(), 3, 4),
    ];
    assert_eq!(rank_rows(&rows, 10), vec![1, 4, 5, 3, 2, 0]);
    assert_eq!(rank_rows(&rows, 2), vec![1, 4]);
    assert!(rank_rows(&rows, 0).is_empty());
}

#[test]
fn counts_of_names_and_flags() {
    let names = vec!["q1".to_string(), "q2".to_string(), "q1".to_string()];
    assert_eq!(count_named(&names, "q1"), 2);
    assert_eq!(count_named(&names, "q2"), 1);
    assert_eq!(count_named(&names, "q3"), 0);
    assert_eq!(count_set(&vec![true, false, true, true]), 3);
    assert_eq!(count_set(&Vec::new()), 0);
}

use resident_core::matcher::{
    group_by_resource, java_bucket, java_hash_map_capacity, java_long_bucket, modal_delta, offset_top, probe_set,
    remove_selected, sort_by_time, vote_anchors, HistogramBin, Hit,
};
use resident_core::Fingerprint;

fn hit(q_t: u32, ref_t: u32) -> Hit {
    Hit { ref_t, ref_f: 100, q_t, q_f: 100, original_hash: 1, matched_hash: 1 }
}

#[test]
fn modal_vote_matches_java_hash_map_tie_order() {
    // Integer 20 lands in bucket 4 and 10 in bucket 10 of Java's initial table.
    assert_eq!(modal_delta(&[hit(0, 10), hit(0, 20)]), 20);
}

#[test]
fn modal_vote_handles_single_hit() {
    assert_eq!(modal_delta(&[hit(7, 10)]), 3);
}

#[test]
fn modal_vote_prefers_the_most_frequent_offset() {
    assert_eq!(modal_delta(&[hit(0, 20), hit(1, 6), hit(2, 7)]), 5);
}

#[test]
fn java_table_grows_past_three_quarters() {
    assert_eq!(java_hash_map_capacity(0), 16);
    assert_eq!(java_hash_map_capacity(12), 16);
    assert_eq!(java_hash_map_capacity(13), 32);
    assert_eq!(java_hash_map_capacity(25), 64);
}

#[test]
fn java_buckets_spread_high_bits() {
    assert_eq!(java_bucket(20, 16), 4);
    assert_eq!(java_bucket(10, 16), 10);
    assert_eq!(java_bucket(-1, 16), 0);
    assert_eq!(java_bucket(0x10000, 16), 1);
    assert_eq!(java_long_bucket(1 << 32, 16), 1);
    assert_eq!(java_long_bucket(5, 16), 5);
}

#[test]
fn hits_sort_stably_by_query_time() {
    let hits = vec![hit(5, 1), hit(2, 9), hit(5, 0), hit(1, 3)];
    let sorted = sort_by_time(&hits);
    assert_eq!(sorted, vec![hit(1, 3), hit(2, 9), hit(5, 1), hit(5, 0)]);
}

#[test]
fn histogram_orders_by_votes_then_offset() {
    let hits = vec![hit(0, 5), hit(0, 3), hit(1, 6), hit(0, 9), hit(2, 11)];
    assert_eq!(
        offset_top(&hits),
        vec![HistogramBin { bin: 5, count: 2 }, HistogramBin { bin: 9, count: 2 }, HistogramBin { bin: 3, count: 1 }]
    );
}

#[test]
fn histogram_keeps_ten_bins() {
    let hits: Vec<Hit> = (0..15).map(|i| hit(0, i)).collect();
    let bins = offset_top(&hits);
    assert_eq!(bins.len(), 10);
    assert_eq!(bins[0], HistogramBin { bin: 0, count: 1 });
    assert_eq!(bins[9], HistogramBin { bin: 9, count: 1 });
}

#[test]
fn removing_selected_hits_removes_each_once() {
    let remaining = vec![hit(1, 2), hit(1, 2), hit(3, 4), hit(5, 6)];
    let kept = remove_selected(remaining, &vec![hit(1, 2), hit(5, 6)]);
    assert_eq!(kept, vec![hit(1, 2), hit(3, 4)]);
}

#[test]
fn votes_group_by_resource_in_first_seen_order() {
    let votes = vec![(7, hit(0, 1)), (3, hit(0, 2)), (7, hit(0, 3))];
    let groups = group_by_resource(&votes);
    assert_eq!(groups, vec![(7, vec![hit(0, 1), hit(0, 3)]), (3, vec![hit(0, 2)])]);
}

#[test]
fn probe_set_keeps_distinct_hashes_with_last_occurrence() {
    let prints = vec![Fingerprint::new(9, 1, 2), Fingerprint::new(4, 3, 4), Fingerprint::new(9, 5, 6)];
    let probe = probe_set(&prints);
    assert_eq!(probe.hashes.len(), 2);
    let nine = probe.hashes.iter().position(|&h| h == 9).unwrap();
    assert_eq!(probe.last[nine], Fingerprint::new(9, 5, 6));
    assert_eq!(probe.copies[nine], 2);
    assert_eq!(probe.first[nine], 0);
}

#[test]
fn vote_anchors_take_the_parts_modal_offsets() {
    let mut hits: Vec<Hit> = (0..10).map(|i| hit(i, i + 5)).collect();
    hits.push(hit(20, 40));
    let anchors = vote_anchors(&hits);
    assert_eq!(anchors.x1, 0);
    assert_eq!(anchors.y1, 5);
}

use resident_core::config::MAX_HASH;
use resident_core::extract::{frame_count, frequency_distance, landmark_hash, pack_event_points, EventPoint, HOP};
use resident_core::Fingerprint;

fn peak(t: u32, f: u16, magnitude: f32) -> EventPoint {
    EventPoint { t, f, magnitude_key: magnitude.to_bits() }
}

#[test]
fn exact_hash_packing_uses_all_34_bits() {
    let first = peak(1, 511, 3.0);
    let second = peak(3, 255, 2.0);
    let third = peak(6, 0, 1.0);
    let hash = landmark_hash(first, second, third);
    assert!(hash > u64::from(u32::MAX));
    assert!(hash < (1_u64 << 34));
    assert_eq!(hash & 0x3f, 25);
}

#[test]
fn landmark_hash_packs_every_field() {
    let hash = landmark_hash(peak(0, 100, 1.0), peak(2, 150, 3.0), peak(6, 140, 2.0));
    // ratio 64 * 2 / 6 = 21; f1 > f2 no; f2 > f3 yes; f3 > f1 yes; m1 > m2 no; m2 > m3 yes;
    // m3 > m1 yes; dt21 > dt32 no; df21 (50) > df32 (10) yes; f1 >> 5 = 3; 50 >> 2 = 12; 10 >> 2 = 2.
    let expected = 21 | (1 << 7) | (1 << 8) | (1 << 10) | (1 << 11) | (1 << 13) | (3 << 14) | (12 << 22) | (2 << 28);
    assert_eq!(hash, expected);
    assert!(hash <= MAX_HASH);
}

#[test]
fn short_audio_has_duration_but_no_prints() {
    // Two hops of audio hold no analysis frame, so extraction packs no prints.
    assert_eq!(frame_count(HOP * 2), 0);
    assert_eq!(frame_count(0), 0);
}

#[test]
fn frame_count_follows_block_padding() {
    assert_eq!(frame_count(100_000), 509);
}

#[test]
fn frequency_distance_bounds_are_inclusive() {
    assert!(!frequency_distance(10, 10));
    assert!(frequency_distance(10, 11));
    assert!(frequency_distance(200, 72));
    assert!(!frequency_distance(0, 129));
}

#[test]
fn packing_pairs_peaks_within_the_time_and_band_windows() {
    let events = vec![peak(1, 100, 1.0), peak(3, 150, 2.0), peak(6, 200, 3.0)];
    let prints = pack_event_points(&events);
    let hash = landmark_hash(events[0], events[1], events[2]);
    assert_eq!(prints, vec![Fingerprint::new(hash, 1, 100)]);
}

#[test]
fn packing_skips_peaks_too_close_in_time() {
    let events = vec![peak(1, 100, 1.0), peak(2, 150, 2.0), peak(3, 200, 3.0)];
    assert!(pack_event_points(&events).is_empty());
}

use atomic_register::chord::RingBound::{Excluded, Included};
use atomic_register::chord::{
    chord_id_advance_by, chord_id_distance, chord_id_in_range, chord_id_max, chord_id_min,
};

#[test]
fn the_ring_has_two_to_the_bits_identifiers() {
    assert_eq!(chord_id_min(7), 0);
    assert_eq!(chord_id_max(0), 0);
    assert_eq!(chord_id_max(1), 1);
    assert_eq!(chord_id_max(7), 127);
    assert_eq!(chord_id_max(64), u64::MAX as u128);
    assert_eq!(chord_id_max(127), u128::MAX >> 1);
    assert_eq!(chord_id_max(128), u128::MAX);
    assert_eq!(chord_id_max(1000), u128::MAX);
}

#[test]
fn advancing_wraps_around_the_ring() {
    assert_eq!(chord_id_advance_by(7, &120, &5), 125);
    assert_eq!(chord_id_advance_by(7, &120, &8), 0);
    assert_eq!(chord_id_advance_by(7, &120, &10), 2);
    assert_eq!(chord_id_advance_by(7, &0, &128), 0);
    assert_eq!(chord_id_advance_by(128, &u128::MAX, &1), 0);
    assert_eq!(chord_id_advance_by(128, &u128::MAX, &u128::MAX), u128::MAX - 1);
    assert_eq!(chord_id_advance_by(127, &u128::MAX, &2), 1);
    assert_eq!(chord_id_advance_by(0, &5, &7), 0);
}

#[test]
fn distances_are_clockwise() {
    assert_eq!(chord_id_distance(7, &10, &10), 0);
    assert_eq!(chord_id_distance(7, &10, &30), 20);
    assert_eq!(chord_id_distance(7, &30, &10), 108);
    assert_eq!(chord_id_distance(7, &127, &0), 1);
    assert_eq!(chord_id_distance(128, &u128::MAX, &0), 1);
    assert_eq!(chord_id_distance(128, &1, &0), u128::MAX);
    for from in 0..16u128 {
        for to in 0..16u128 {
            let d = chord_id_distance(4, &from, &to);
            assert_eq!(chord_id_advance_by(4, &from, &d), to);
        }
    }
}

#[test]
fn ranges_are_clockwise() {
    // ends at one identifier
    assert!(chord_id_in_range(7, &5, Included(5), Included(5)));
    assert!(!chord_id_in_range(7, &6, Included(5), Included(5)));
    assert!(!chord_id_in_range(7, &5, Included(5), Excluded(5)));
    assert!(chord_id_in_range(7, &5, Excluded(5), Included(5)));
    assert!(chord_id_in_range(7, &99, Excluded(5), Included(5)));
    // no wrap
    assert!(chord_id_in_range(7, &10, Included(10), Excluded(20)));
    assert!(chord_id_in_range(7, &19, Included(10), Excluded(20)));
    assert!(!chord_id_in_range(7, &20, Included(10), Excluded(20)));
    assert!(chord_id_in_range(7, &20, Included(10), Included(20)));
    assert!(!chord_id_in_range(7, &10, Excluded(10), Included(20)));
    assert!(!chord_id_in_range(7, &10, Excluded(10), Excluded(20)));
    assert!(chord_id_in_range(7, &11, Excluded(10), Excluded(20)));
    assert!(!chord_id_in_range(7, &9, Included(10), Included(20)));
    // wrap
    assert!(chord_id_in_range(7, &120, Included(120), Excluded(5)));
    assert!(chord_id_in_range(7, &127, Included(120), Excluded(5)));
    assert!(chord_id_in_range(7, &0, Included(120), Excluded(5)));
    assert!(chord_id_in_range(7, &4, Included(120), Excluded(5)));
    assert!(!chord_id_in_range(7, &5, Included(120), Excluded(5)));
    assert!(chord_id_in_range(7, &5, Included(120), Included(5)));
    assert!(!chord_id_in_range(7, &120, Excluded(120), Included(5)));
    assert!(!chord_id_in_range(7, &60, Included(120), Included(5)));
    assert!(!chord_id_in_range(7, &5, Excluded(120), Excluded(5)));
    // an identifier beyond the ring lies in no wrapped range by its start
    assert!(!chord_id_in_range(7, &200, Included(120), Excluded(5)));
    for id in 0..16u128 {
        for start in 0..16u128 {
            for end in 0..16u128 {
                if start != end {
                    assert_eq!(
                        chord_id_in_range(4, &id, Included(start), Excluded(end)),
                        chord_id_distance(4, &start, &id) < chord_id_distance(4, &start, &end)
                    );
                }
            }
        }
    }
}

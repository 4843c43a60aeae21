use std::cmp::Ordering::{Equal, Greater, Less};

use netchannel::sequence::{overflow_aware_compare, SEQUENCE_NR_MAX, SEQUENCE_NR_MIN};

#[test]
fn test_compare() {
    fn test_sequential(a: u8) {
        assert_eq!(overflow_aware_compare(a, a), Equal);
        assert_eq!(overflow_aware_compare(a, a.wrapping_add(1)), Less);
        assert_eq!(overflow_aware_compare(a.wrapping_add(1), a), Greater);
    }

    test_sequential(0);
    test_sequential(42);
    test_sequential(SEQUENCE_NR_MAX);
    test_sequential(SEQUENCE_NR_MIN);
}

#[test]
fn compare_across_wrap_boundary() {
    assert_eq!(overflow_aware_compare(SEQUENCE_NR_MAX, 0), Less);
    assert_eq!(overflow_aware_compare(0, SEQUENCE_NR_MAX), Greater);
}

#[test]
fn compare_small_distances_use_raw_order() {
    assert_eq!(overflow_aware_compare(10, 20), Less);
    assert_eq!(overflow_aware_compare(20, 10), Greater);
    assert_eq!(overflow_aware_compare(200, 210), Less);
}

#[test]
fn compare_orders_gaps_up_to_half_ring() {
    // raw distance 127 is still within the half-ring tolerance: raw order
    assert_eq!(overflow_aware_compare(127, 0), Greater);
    assert_eq!(overflow_aware_compare(0, 127), Less);
    // raw distance 128 is where the wrap interpretation takes over
    assert_eq!(overflow_aware_compare(0, 128), Greater);
}

#[test]
fn compare_large_distances_invert_raw_order() {
    assert_eq!(overflow_aware_compare(250, 3), Less);
    assert_eq!(overflow_aware_compare(3, 250), Greater);
}

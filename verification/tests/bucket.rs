use rate_limiter::{bucket_index, bucket_start};

#[test]
fn bucket_starts_are_multiples_of_the_width() {
    assert_eq!(bucket_start(5, 5), Some(5));
    assert_eq!(bucket_start(8, 5), Some(5));
    assert_eq!(bucket_start(17, 5), Some(15));
    assert_eq!(bucket_start(0, 5), Some(0));
    assert_eq!(bucket_start(4, 5), Some(0));
    assert_eq!(bucket_start(147, 9), Some(144));
}

#[test]
fn negative_timestamps_round_down() {
    assert_eq!(bucket_start(-7, 4), Some(-8));
    assert_eq!(bucket_start(-8, 4), Some(-8));
    assert_eq!(bucket_start(-1, 4), Some(-4));
    assert_eq!(bucket_start(-2, 4), Some(-4));
    assert_eq!(bucket_start(-9, 4), Some(-12));
}

#[test]
fn bucket_start_at_the_edges_of_the_range() {
    assert_eq!(bucket_start(i64::MAX, 1), Some(i64::MAX));
    assert_eq!(bucket_start(i64::MAX, i64::MAX), Some(i64::MAX));
    assert_eq!(bucket_start(i64::MAX - 1, i64::MAX), Some(0));
    assert_eq!(bucket_start(i64::MIN, 1), Some(i64::MIN));
    assert_eq!(bucket_start(i64::MIN, 2), Some(i64::MIN));
    // -2^63 is no multiple of 3: the bucket would start below it.
    assert_eq!(bucket_start(i64::MIN, 3), None);
    assert_eq!(bucket_start(i64::MIN + 1, 3), None);
    assert_eq!(bucket_start(i64::MIN + 2, 3), Some(i64::MIN + 2));
    assert_eq!(bucket_start(i64::MIN + 4, 3), Some(i64::MIN + 2));
    assert_eq!(bucket_start(-1, i64::MAX), Some(-i64::MAX));
    assert_eq!(bucket_start(i64::MIN, i64::MAX), None);
}

#[test]
fn bucket_start_agrees_with_euclid() {
    for width in 1..12i64 {
        for timestamp in -50..50i64 {
            let start = bucket_start(timestamp, width).unwrap();
            assert_eq!(start, timestamp.div_euclid(width) * width);
            assert!(start <= timestamp && timestamp < start + width);
            assert_eq!(bucket_index(start, timestamp, width), Some(0));
        }
    }
}

#[test]
fn bucket_index_counts_whole_widths() {
    assert_eq!(bucket_index(5, 5, 5), Some(0));
    assert_eq!(bucket_index(5, 9, 5), Some(0));
    assert_eq!(bucket_index(5, 10, 5), Some(1));
    assert_eq!(bucket_index(5, 17, 5), Some(2));
    assert_eq!(bucket_index(-8, -2, 4), Some(1));
    assert_eq!(bucket_index(0, 147, 9), Some(16));
}

#[test]
fn bucket_index_over_the_whole_range() {
    assert_eq!(bucket_index(i64::MIN, i64::MAX, i64::MAX), Some(2));
    assert_eq!(bucket_index(i64::MIN, i64::MAX, 2), Some(i64::MAX as usize));
    if usize::BITS == 64 {
        assert_eq!(bucket_index(i64::MIN, i64::MAX, 1), Some(usize::MAX));
    } else {
        assert_eq!(bucket_index(i64::MIN, i64::MAX, 1), None);
    }
}

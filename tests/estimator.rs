use quantile_window::{QuantileError, QuantileEstimator, TimeBasedRingBuffer};

#[test]
fn test_quantile_estimator() {
    let mut estimator = QuantileEstimator::new(0, 100).unwrap();
    for i in 1..101 {
        estimator.add_value(i).unwrap();
    }
    assert_eq!(estimator.estimate_quantile(1, 2).unwrap(), 50);
    assert_eq!(estimator.estimate_quantile(9, 10).unwrap(), 90);
    assert_eq!(estimator.estimate_quantile(99, 100).unwrap(), 99);
    assert_eq!(estimator.estimate_quantile(0, 1).unwrap(), 1);
    assert_eq!(estimator.estimate_quantile(1, 1).unwrap(), 100);
    assert!(estimator.estimate_quantile(11, 10).is_err());
    let empty_estimator = QuantileEstimator::new(0, 100).unwrap();
    assert!(empty_estimator.estimate_quantile(1, 2).is_err());
}

#[test]
fn test_time_based_ring_buffer() {
    let mut ring_buffer = TimeBasedRingBuffer::new(3, 10, 0, 100).unwrap();
    ring_buffer.insert(1, 0).unwrap();
    ring_buffer.insert(2, 5).unwrap();
    ring_buffer.insert(3, 5).unwrap();
    assert_eq!(ring_buffer.current(), 0);
    ring_buffer.insert(3, 100).unwrap();
    assert_eq!(ring_buffer.current(), 1);
}

#[test]
fn invalid_fraction_is_refused() {
    let mut h = QuantileEstimator::new(0, 10).unwrap();
    h.add_value(5).unwrap();
    assert_eq!(h.estimate_quantile(11, 10), Err(QuantileError::InvalidFraction));
    assert_eq!(h.estimate_quantile(-1, 10), Err(QuantileError::InvalidFraction));
    assert_eq!(h.estimate_quantile(1, 0), Err(QuantileError::InvalidFraction));
    assert_eq!(h.estimate_quantile(10, 10), Ok(5));
}

#[test]
fn empty_histogram_has_no_data() {
    let h = QuantileEstimator::new(0, 10).unwrap();
    assert_eq!(h.estimate_quantile(0, 1), Err(QuantileError::NoData));
    assert_eq!(h.estimate_quantile(1, 2), Err(QuantileError::NoData));
    assert_eq!(h.estimate_quantile(1, 1), Err(QuantileError::NoData));
    assert_eq!(h.estimate_quantile(2, 1), Err(QuantileError::InvalidFraction));
}

#[test]
fn out_of_range_value_changes_nothing() {
    let mut h = QuantileEstimator::new(10, 20).unwrap();
    h.add_value(15).unwrap();
    assert_eq!(h.add_value(9), Err(QuantileError::ValueOutOfRange));
    assert_eq!(h.add_value(21), Err(QuantileError::ValueOutOfRange));
    assert_eq!(h.total(), 1);
    let mut expected = vec![0u64; 11];
    expected[5] = 1;
    assert_eq!(h.counts(), &expected);
    assert_eq!(h.add_value(10), Ok(()));
    assert_eq!(h.add_value(20), Ok(()));
    assert_eq!(h.total(), 3);
}

#[test]
fn quantiles_grow_with_the_fraction() {
    let mut h = QuantileEstimator::new(0, 50).unwrap();
    for v in [7u64, 3, 3, 40, 12, 0, 50, 12, 12, 29] {
        h.add_value(v).unwrap();
    }
    let mut last = 0u64;
    for n in 0..=100i64 {
        let q = h.estimate_quantile(n, 100).unwrap();
        assert!(q >= last);
        last = q;
    }
    assert_eq!(h.estimate_quantile(0, 1), Ok(0));
    assert_eq!(h.estimate_quantile(1, 1), Ok(50));
}

#[test]
fn nearest_rank_rounds_halves_up() {
    let mut h = QuantileEstimator::new(0, 10).unwrap();
    h.add_value(1).unwrap();
    h.add_value(2).unwrap();
    h.add_value(3).unwrap();
    // 0.5 * 3 - 1 = 0.5 rounds to rank 1
    assert_eq!(h.estimate_quantile(1, 2), Ok(2));
    // 0.25 * 3 - 1 = -0.25 clamps to rank 0
    assert_eq!(h.estimate_quantile(1, 4), Ok(1));
    // 0.8 * 3 - 1 = 1.4 rounds to rank 1
    assert_eq!(h.estimate_quantile(4, 5), Ok(2));
    // 0.85 * 3 - 1 = 1.55 rounds to rank 2
    assert_eq!(h.estimate_quantile(17, 20), Ok(3));
}

#[test]
fn histogram_construction_errors() {
    assert!(matches!(QuantileEstimator::new(5, 4), Err(QuantileError::InvalidRange)));
    assert!(matches!(
        QuantileEstimator::new(0, 1 << 40),
        Err(QuantileError::RangeTooLarge)
    ));
    let h = QuantileEstimator::new(7, 7).unwrap();
    assert_eq!(h.start(), 7);
    assert_eq!(h.end(), 7);
    assert_eq!(h.counts().len(), 1);
}

#[test]
fn ring_construction_errors() {
    assert!(matches!(
        TimeBasedRingBuffer::new(0, 10, 0, 100),
        Err(QuantileError::InvalidCapacity)
    ));
    assert!(matches!(
        TimeBasedRingBuffer::new(3, 0, 0, 100),
        Err(QuantileError::InvalidDuration)
    ));
    assert!(matches!(
        TimeBasedRingBuffer::new(3, 10, 100, 0),
        Err(QuantileError::InvalidRange)
    ));
    assert!(matches!(
        TimeBasedRingBuffer::new(3, 10, 0, u64::MAX),
        Err(QuantileError::RangeTooLarge)
    ));
    let r = TimeBasedRingBuffer::new(3, 10, 0, 100).unwrap();
    assert_eq!(r.estimate_quantile(1, 2), Err(QuantileError::NoData));
    assert_eq!(r.total_count(), 0);
}

#[test]
fn ring_without_eviction_matches_one_histogram() {
    let mut ring = TimeBasedRingBuffer::new(4, 10, 0, 100).unwrap();
    let mut single = QuantileEstimator::new(0, 100).unwrap();
    let inserts: [(u64, u64); 8] = [(5, 3), (70, 7), (12, 15), (99, 22), (1, 8), (45, 31), (45, 38), (60, 39)];
    for (v, t) in inserts {
        ring.insert(v, t).unwrap();
        single.add_value(v).unwrap();
    }
    assert_eq!(ring.total_count(), 8);
    for n in 0..=20i64 {
        assert_eq!(ring.estimate_quantile(n, 20), single.estimate_quantile(n, 20));
    }
}

#[test]
fn evicted_windows_no_longer_count() {
    let mut ring = TimeBasedRingBuffer::new(3, 10, 0, 100).unwrap();
    ring.insert(90, 0).unwrap();
    ring.insert(80, 11).unwrap();
    ring.insert(70, 25).unwrap();
    assert_eq!(ring.estimate_quantile(1, 1), Ok(90));
    // the window of timestamp 0 is overwritten by the one of timestamp 30
    ring.insert(10, 30).unwrap();
    assert_eq!(ring.estimate_quantile(1, 1), Ok(80));
    assert_eq!(ring.total_count(), 3);
    // a jump far ahead overwrites every window
    ring.insert(20, 1000).unwrap();
    assert_eq!(ring.total_count(), 1);
    assert_eq!(ring.estimate_quantile(0, 1), Ok(20));
    assert_eq!(ring.estimate_quantile(1, 1), Ok(20));
}

#[test]
fn window_boundary_is_half_open() {
    let mut ring = TimeBasedRingBuffer::new(2, 10, 0, 100).unwrap();
    ring.insert(1, 13).unwrap();
    assert_eq!(ring.current(), 0);
    ring.insert(2, 19).unwrap();
    assert_eq!(ring.current(), 0);
    ring.insert(3, 20).unwrap();
    assert_eq!(ring.current(), 1);
    ring.insert(4, 9).unwrap();
    assert_eq!(ring.current(), 1);
    assert_eq!(ring.total_count(), 4);
}

#[test]
fn rejected_insert_still_advances_time() {
    let mut ring = TimeBasedRingBuffer::new(2, 10, 0, 100).unwrap();
    ring.insert(50, 0).unwrap();
    assert_eq!(ring.insert(500, 10), Err(QuantileError::ValueOutOfRange));
    assert_eq!(ring.current(), 1);
    assert_eq!(ring.total_count(), 1);
    assert_eq!(ring.insert(500, 20), Err(QuantileError::ValueOutOfRange));
    assert_eq!(ring.current(), 0);
    assert_eq!(ring.total_count(), 0);
}

#[test]
fn repeated_query_gives_the_same_answer() {
    let mut ring = TimeBasedRingBuffer::new(3, 5, 0, 20).unwrap();
    for t in 0..12u64 {
        ring.insert(t, t).unwrap();
    }
    let a = ring.estimate_quantile(3, 4);
    let b = ring.estimate_quantile(3, 4);
    assert_eq!(a, b);
    let mut h = QuantileEstimator::new(0, 20).unwrap();
    h.add_value(4).unwrap();
    h.add_value(9).unwrap();
    assert_eq!(h.estimate_quantile(1, 3), h.estimate_quantile(1, 3));
}

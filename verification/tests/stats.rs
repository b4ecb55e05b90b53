use benchman::BenchResult;

#[test]
fn test_count_and_mean_exact() {
    let mut b = BenchResult::new();
    assert_eq!(b.n(), 0);
    b.add_result(10);
    b.add_result(20);
    b.add_result(30);
    b.add_result(40);
    assert_eq!(b.n(), 4);
    assert_eq!(b.average(), 25);
}

#[test]
fn test_mean_is_order_independent() {
    let mut a = BenchResult::new();
    for v in [7u64, 1, 9, 100, 3] {
        a.add_result(v);
    }
    let mut b = BenchResult::new();
    for v in [3u64, 100, 9, 1, 7] {
        b.add_result(v);
    }
    assert_eq!(a.average(), b.average());
    assert_eq!(a.percentile(50), b.percentile(50));
    assert_eq!(a.percentile(100), b.percentile(100));
}

#[test]
fn test_mean_truncates() {
    let mut b = BenchResult::new();
    b.add_result(1);
    b.add_result(2);
    assert_eq!(b.average(), 1);
}

#[test]
fn test_percentile_rank_semantics() {
    // Four samples: p = 50 picks the 2nd-smallest, not an interpolation.
    let mut b = BenchResult::new();
    for v in [5u64, 1, 9, 3] {
        b.add_result(v);
    }
    assert_eq!(b.percentile(50), 3);
    assert_eq!(b.percentile(25), 1);
    assert_eq!(b.percentile(75), 5);
    assert_eq!(b.percentile(100), 9);
}

#[test]
fn test_percentile_100_is_max() {
    let mut b = BenchResult::new();
    for v in [12u64, 7, 7, 200, 3, 150] {
        b.add_result(v);
    }
    assert_eq!(b.percentile(100), 200);
}

#[test]
fn test_percentile_monotonic() {
    let mut b = BenchResult::new();
    for v in [8u64, 2, 5, 13, 1, 1, 21, 34, 3, 5] {
        b.add_result(v);
    }
    let mut last = 0u64;
    for p in 1..=100u64 {
        let v = b.percentile(p);
        assert!(v >= last);
        last = v;
    }
}

#[test]
fn test_single_sample_percentiles() {
    let mut b = BenchResult::new();
    b.add_result(42);
    assert_eq!(b.percentile(1), 42);
    assert_eq!(b.percentile(50), 42);
    assert_eq!(b.percentile(99), 42);
    assert_eq!(b.percentile(100), 42);
    assert_eq!(b.average(), 42);
}

#[test]
fn test_zero_duration_round_trip() {
    // A recorded elapsed time of exactly zero must not break the statistics.
    let mut b = BenchResult::new();
    b.add_result(0);
    assert_eq!(b.n(), 1);
    assert_eq!(b.average(), 0);
    assert_eq!(b.percentile(50), 0);
    assert_eq!(b.percentile(100), 0);
}

#[test]
fn test_large_values_no_overflow() {
    let mut b = BenchResult::new();
    b.add_result(u64::MAX);
    b.add_result(u64::MAX);
    assert_eq!(b.average(), u64::MAX);
    assert_eq!(b.percentile(100), u64::MAX);
}

#[test]
fn test_render_stats_exact_text() {
    let mut b = BenchResult::new();
    b.add_result(100);
    assert_eq!(
        b.render_stats(),
        "[ave.] 100ns\n100ns (>50%), 100ns (>95%), 100ns (>99%)\n"
    );
}

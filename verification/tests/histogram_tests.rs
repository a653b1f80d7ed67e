use nf_feed::engine::histogram::StaticHistogram;

/// The histogram's percentile `p` (in percent), as the engine reports it.
fn percentile(h: &StaticHistogram, p: f64) -> u64 {
    if h.count() == 0 {
        return 0;
    }
    let target = ((h.count() as f64) * (p / 100.0)).ceil() as u64;
    h.percentile_at(target)
}

#[test]
fn test_static_histogram_percentiles() {
    let mut h = StaticHistogram::new();
    for i in 1..=1000 {
        h.record(i);
    }
    assert_eq!(h.count(), 1000);
    assert_eq!(h.min(), 1);
    assert_eq!(h.max(), 1000);
    assert!((percentile(&h, 50.0) as i64 - 500).abs() <= 5);
    assert!((percentile(&h, 99.0) as i64 - 990).abs() <= 10);
}

#[test]
fn histogram_buckets_and_edges() {
    let mut h = StaticHistogram::default();
    assert_eq!(h.min(), 0);
    assert_eq!(h.max(), 0);
    assert_eq!(h.percentile_at(1), 0);
    assert_eq!(StaticHistogram::bucket_index(5), 5);
    assert_eq!(StaticHistogram::bucket_index(1024), 1024);
    assert_eq!(StaticHistogram::bucket_index(2047), 1024 + 63);
    assert_eq!(StaticHistogram::bucket_index(1 << 26), 2048);
    h.record(5000);
    h.record(1 << 30);
    assert_eq!(h.count(), 2);
    assert_eq!(h.sum(), 5000 + (1 << 30));
    assert_eq!(h.min(), 5000);
    assert_eq!(h.max(), 1 << 30);
    // 5000 falls in the band of 4096 with step 64: sub-bucket 14.
    assert_eq!(h.percentile_at(1), 4096 + 14 * 64);
    // The anomaly bucket reports the maximum.
    assert_eq!(h.percentile_at(2), 1 << 30);
    assert_eq!(h.percentile_at(3), 1 << 30);
    h.clear();
    assert_eq!(h.count(), 0);
    assert_eq!(h.percentile_at(1), 0);
}

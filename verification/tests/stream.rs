use stream_analytics::{StreamAggregator, WindowStamp};

#[test]
fn test_stream_aggregator() {
    let mut agg = StreamAggregator::new(1000, 500);

    for i in 0..10 {
        let timestamp = i * 100;
        let value = i as f64;
        let _ = agg.process(timestamp, value.to_bits());
    }

    assert!(agg.buffer_size() > 0);
}

#[test]
fn stream_keeps_samples_inside_the_window() {
    let mut agg = StreamAggregator::new(1000, 500);
    for t in 0..10i64 {
        let step = agg.process(t * 100, t as u64);
        assert!(step.evicted.is_empty());
    }
    assert_eq!(agg.buffer_size(), 10);
}

#[test]
fn stream_reports_on_slide_steps() {
    let mut agg = StreamAggregator::new(1000, 500);
    // the first sample sets the base and reports nothing
    assert_eq!(agg.process(100, 0).emitted, None);
    assert_eq!(agg.process(599, 1).emitted, None);
    assert_eq!(
        agg.process(600, 2).emitted,
        Some(WindowStamp { window_start: -400, window_end: 600, count: 3 })
    );
    assert_eq!(agg.process(1099, 3).emitted, None);
    let step = agg.process(1101, 4);
    // cutoff 101: the sample at 100 leaves
    assert_eq!(step.evicted, vec![(100, 0)]);
    assert_eq!(
        step.emitted,
        Some(WindowStamp { window_start: 101, window_end: 1101, count: 4 })
    );
    assert_eq!(agg.buffer_size(), 4);
}

#[test]
fn stream_evicts_only_from_the_front() {
    let mut agg = StreamAggregator::new(100, 1000);
    agg.process(500, 1);
    agg.process(10, 2);
    // cutoff 450: the front (500) stays, so the stale sample behind it stays too
    let step = agg.process(550, 3);
    assert!(step.evicted.is_empty());
    assert_eq!(agg.buffer_size(), 3);
    // cutoff 600: the front leaves, then the stale one, then the next
    let step = agg.process(700, 4);
    assert_eq!(step.evicted, vec![(500, 1), (10, 2), (550, 3)]);
    assert_eq!(agg.buffer_size(), 1);
}

#[test]
fn stream_sample_on_the_cutoff_stays() {
    let mut agg = StreamAggregator::new(100, 1000);
    agg.process(100, 1);
    let step = agg.process(200, 2);
    assert!(step.evicted.is_empty());
    let step = agg.process(201, 3);
    assert_eq!(step.evicted, vec![(100, 1)]);
}

#[test]
fn stream_flush_empties_the_buffer() {
    let mut agg = StreamAggregator::new(1000, 500);
    agg.process(100, 1);
    agg.process(200, 2);
    assert_eq!(agg.flush(), WindowStamp { window_start: 0, window_end: 0, count: 2 });
    assert_eq!(agg.buffer_size(), 0);
    assert_eq!(agg.flush(), WindowStamp { window_start: 0, window_end: 0, count: 0 });
    // the time of the last report is kept
    assert_eq!(
        agg.process(700, 3).emitted,
        Some(WindowStamp { window_start: -300, window_end: 700, count: 1 })
    );
}

#[test]
fn stream_can_process_guards_the_machine_range() {
    let agg = StreamAggregator::new(1000, 500);
    assert!(agg.can_process(0));
    assert!(agg.can_process(i64::MAX));
    assert!(!agg.can_process(i64::MIN));
    assert!(agg.can_process(i64::MIN + 1000));
}

use stream_analytics::{
    Admission, AggregatorError, DataPoint, DimensionKey, MultiDimensionAggregator, WindowConfig,
    WindowStamp,
};

#[test]
fn test_multi_dimension_aggregator() {
    let config = WindowConfig::tumbling(1000);
    let mut agg = MultiDimensionAggregator::new(config);

    let point1 = DataPoint::new(100, 1.0f64.to_bits()).with_tag("device", "agv_001");
    let point2 = DataPoint::new(200, 2.0f64.to_bits()).with_tag("device", "agv_001");
    let point3 = DataPoint::new(300, 3.0f64.to_bits()).with_tag("device", "agv_002");

    let _ = agg.add_point(&point1);
    let _ = agg.add_point(&point2);
    let _ = agg.add_point(&point3);

    let dimensions = agg.get_dimensions();
    assert_eq!(dimensions.len(), 2);
}

#[test]
fn streams_of_different_keys_are_independent() {
    let mut agg = MultiDimensionAggregator::new(WindowConfig::tumbling(1000));
    let a = DimensionKey::new().with_dimension("device", "a");
    let b = DimensionKey::new().with_dimension("device", "b");
    for t in 0..5i64 {
        let r = agg.add_point(&DataPoint::new(t * 10, 0).with_tag("device", "a"));
        assert!(r.is_ok());
    }
    let r = agg.add_point(&DataPoint::new(5000, 0).with_tag("device", "b"));
    assert_eq!(
        r.unwrap(),
        Admission::Admitted { window_start: 5000, window_end: 6000, created: true, evicted: vec![] }
    );
    let mut keys = agg.get_dimensions();
    keys.sort_by(|x, y| x.dimensions().cmp(y.dimensions()));
    assert_eq!(keys, vec![a.clone(), b.clone()]);
    assert_eq!(
        agg.get_aggregate(&a),
        Some(WindowStamp { window_start: 0, window_end: 1000, count: 5 })
    );
    assert_eq!(
        agg.get_aggregate(&b),
        Some(WindowStamp { window_start: 5000, window_end: 6000, count: 1 })
    );
    assert_eq!(agg.get_aggregate(&DimensionKey::new()), None);
}

#[test]
fn tags_in_any_order_reach_one_stream() {
    let mut agg = MultiDimensionAggregator::new(WindowConfig::tumbling(1000));
    let first = DataPoint::new(1, 0).with_tag("device", "agv_001").with_tag("sensor", "temp");
    let second = DataPoint::new(2, 0).with_tag("sensor", "temp").with_tag("device", "agv_001");
    assert!(agg.add_point(&first).is_ok());
    assert!(agg.add_point(&second).is_ok());
    assert_eq!(agg.get_dimensions().len(), 1);
    let key = DimensionKey::new().with_dimension("sensor", "temp").with_dimension("device", "agv_001");
    assert_eq!(agg.get_aggregate(&key).unwrap().count, 2);
}

#[test]
fn untagged_samples_share_the_empty_key() {
    let mut agg = MultiDimensionAggregator::new(WindowConfig::tumbling(1000));
    assert!(agg.add_point(&DataPoint::new(1, 0)).is_ok());
    assert!(agg.add_point(&DataPoint::new(1500, 0)).is_ok());
    assert_eq!(agg.get_dimensions(), vec![DimensionKey::new()]);
    let all = agg.get_all_aggregates();
    assert_eq!(all.len(), 1);
    assert_eq!(all[0].0, DimensionKey::new());
    assert_eq!(
        all[0].1,
        vec![
            WindowStamp { window_start: 0, window_end: 1000, count: 1 },
            WindowStamp { window_start: 1000, window_end: 2000, count: 1 },
        ]
    );
}

#[test]
fn with_tag_replaces_a_tag_of_the_same_name() {
    let p = DataPoint::new(7, 9).with_tag("device", "a").with_tag("device", "b");
    assert_eq!(p.timestamp, 7);
    assert_eq!(p.value, 9);
    assert_eq!(p.tags.len(), 1);
    assert_eq!(p.tags.get("device").map(|s| s.as_str()), Some("b"));
    assert!(DataPoint::new(0, 0).tags.is_empty());
}

#[test]
fn add_points_is_add_point_in_sequence() {
    let points = vec![
        DataPoint::new(100, 1).with_tag("device", "a"),
        DataPoint::new(200, 2).with_tag("device", "b"),
        DataPoint::new(1100, 3).with_tag("device", "a"),
    ];
    let mut batch = MultiDimensionAggregator::new(WindowConfig::tumbling(1000));
    let reports = batch.add_points(&points);
    assert_eq!(reports.len(), 3);
    assert!(reports.iter().all(|r| r.is_ok()));
    let a = DimensionKey::new().with_dimension("device", "a");
    let b = DimensionKey::new().with_dimension("device", "b");
    assert_eq!(
        batch.get_aggregate(&a),
        Some(WindowStamp { window_start: 1000, window_end: 2000, count: 1 })
    );
    assert_eq!(
        batch.get_aggregate(&b),
        Some(WindowStamp { window_start: 0, window_end: 1000, count: 1 })
    );
}

#[test]
fn reset_forgets_every_stream() {
    let mut agg = MultiDimensionAggregator::new(WindowConfig::tumbling(1000));
    assert!(agg.add_point(&DataPoint::new(1, 0).with_tag("device", "a")).is_ok());
    agg.reset();
    assert!(agg.get_dimensions().is_empty());
    assert!(agg.get_all_aggregates().is_empty());
    assert_eq!(agg.get_aggregate(&DimensionKey::new().with_dimension("device", "a")), None);
}

#[test]
fn bad_configuration_and_bad_timestamp_are_reported() {
    let mut bad = MultiDimensionAggregator::new(WindowConfig::tumbling(0));
    assert!(matches!(
        bad.add_point(&DataPoint::new(1, 0)),
        Err(AggregatorError::InvalidWindowConfig(_))
    ));
    assert!(bad.get_dimensions().is_empty());

    let mut agg = MultiDimensionAggregator::new(WindowConfig::tumbling(1000));
    assert!(matches!(
        agg.add_point(&DataPoint::new(i64::MAX, 0)),
        Err(AggregatorError::InvalidTimestamp(i64::MAX))
    ));
    assert!(agg.get_dimensions().is_empty());
    assert!(agg.add_point(&DataPoint::new(5, 0)).is_ok());
    assert!(matches!(
        agg.add_point(&DataPoint::new(i64::MIN, 0)),
        Err(AggregatorError::InvalidTimestamp(i64::MIN))
    ));
    assert_eq!(agg.get_aggregate(&DimensionKey::new()).unwrap().count, 1);
}

#[test]
fn a_new_aggregator_has_no_streams() {
    let agg = MultiDimensionAggregator::new(WindowConfig::tumbling(1000));
    assert!(agg.get_dimensions().is_empty());
    assert!(agg.get_all_aggregates().is_empty());
    assert_eq!(agg.get_aggregate(&DimensionKey::new()), None);
}

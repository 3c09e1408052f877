use stream_analytics::pipeline::AggregationPipeline;
use stream_analytics::{
    AggregationType, AggregatorError, DataPoint, DimensionKey, WindowBatch, WindowConfig,
};

type Pipeline = AggregationPipeline<
    fn(&DataPoint) -> bool,
    fn(&DataPoint) -> DataPoint,
    fn(&DataPoint) -> DimensionKey,
>;

fn point(timestamp: i64, value: u64, device: &str) -> DataPoint {
    DataPoint::new(timestamp, value).with_tag("device", device)
}

fn batch(window_start: i64, window_end: i64, samples: &[(i64, u64)]) -> WindowBatch {
    WindowBatch { window_start, window_end, samples: samples.to_vec() }
}

fn is_even(p: &DataPoint) -> bool {
    p.value % 2 == 0
}

fn early(p: &DataPoint) -> bool {
    p.timestamp < 1000
}

fn doubled(p: &DataPoint) -> DataPoint {
    DataPoint { timestamp: p.timestamp, value: p.value * 2, tags: p.tags.clone() }
}

fn by_tags(p: &DataPoint) -> DimensionKey {
    DimensionKey::from_tags(&p.tags)
}

fn sample_points() -> Vec<DataPoint> {
    vec![
        point(100, 1, "b"),
        point(200, 2, "a"),
        point(1100, 3, "b"),
        point(1200, 4, "a"),
        point(2300, 6, "b"),
    ]
}

#[test]
fn empty_pipeline_has_no_results() {
    assert_eq!(Pipeline::new().execute(sample_points()), Ok(vec![]));
    assert_eq!(Pipeline::default().execute(vec![]), Ok(vec![]));
}

#[test]
fn aggregate_adds_one_batch_of_all_samples() {
    let pipeline = Pipeline::new().aggregate(AggregationType::Mean);
    assert_eq!(
        pipeline.execute(sample_points()),
        Ok(vec![batch(0, 0, &[(100, 1), (200, 2), (1100, 3), (1200, 4), (2300, 6)])])
    );
    let pipeline = Pipeline::new().aggregate(AggregationType::Mean);
    assert_eq!(pipeline.execute(vec![]), Ok(vec![batch(0, 0, &[])]));
}

#[test]
fn filter_and_map_change_the_samples_in_flight() {
    let pipeline = Pipeline::new()
        .aggregate(AggregationType::Count)
        .filter(is_even)
        .aggregate(AggregationType::Count)
        .map(doubled)
        .aggregate(AggregationType::Sum);
    assert_eq!(
        pipeline.execute(sample_points()),
        Ok(vec![
            batch(0, 0, &[(100, 1), (200, 2), (1100, 3), (1200, 4), (2300, 6)]),
            batch(0, 0, &[(200, 2), (1200, 4), (2300, 6)]),
            batch(0, 0, &[(200, 4), (1200, 8), (2300, 12)]),
        ])
    );
}

#[test]
fn window_replaces_the_pending_results() {
    let pipeline = Pipeline::new()
        .aggregate(AggregationType::Count)
        .window(WindowConfig::tumbling(1000))
        .filter(early)
        .aggregate(AggregationType::Count);
    assert_eq!(
        pipeline.execute(sample_points()),
        Ok(vec![
            batch(0, 1000, &[(100, 1), (200, 2)]),
            batch(1000, 2000, &[(1100, 3), (1200, 4)]),
            batch(2000, 3000, &[(2300, 6)]),
            batch(0, 0, &[(100, 1), (200, 2)]),
        ])
    );
}

#[test]
fn group_by_runs_the_rest_on_each_part_in_key_order() {
    let pipeline = Pipeline::new()
        .aggregate(AggregationType::Count)
        .group_by(by_tags)
        .window(WindowConfig::tumbling(1000));
    assert_eq!(
        pipeline.execute(sample_points()),
        Ok(vec![
            batch(0, 0, &[(100, 1), (200, 2), (1100, 3), (1200, 4), (2300, 6)]),
            // device a
            batch(0, 1000, &[(200, 2)]),
            batch(1000, 2000, &[(1200, 4)]),
            // device b
            batch(0, 1000, &[(100, 1)]),
            batch(1000, 2000, &[(1100, 3)]),
            batch(2000, 3000, &[(2300, 6)]),
        ])
    );
}

#[test]
fn group_by_as_last_stage_adds_nothing() {
    let pipeline = Pipeline::new().aggregate(AggregationType::Count).group_by(by_tags);
    assert_eq!(
        pipeline.execute(sample_points()),
        Ok(vec![batch(0, 0, &[(100, 1), (200, 2), (1100, 3), (1200, 4), (2300, 6)])])
    );
}

#[test]
fn nested_groupings_and_transforms_inside_a_part() {
    let pipeline = Pipeline::new()
        .group_by(by_tags)
        .map(doubled)
        .filter(early)
        .aggregate(AggregationType::Sum);
    assert_eq!(
        pipeline.execute(sample_points()),
        Ok(vec![batch(0, 0, &[(200, 4)]), batch(0, 0, &[(100, 2)])])
    );
}

#[test]
fn a_window_stage_that_cannot_route_ends_the_run() {
    let pipeline = Pipeline::new().window(WindowConfig::tumbling(0)).aggregate(AggregationType::Sum);
    assert!(matches!(
        pipeline.execute(sample_points()),
        Err(AggregatorError::InvalidWindowConfig(_))
    ));
    let pipeline = Pipeline::new().group_by(by_tags).window(WindowConfig::tumbling(1000));
    let mut points = sample_points();
    points.push(point(i64::MAX, 9, "b"));
    assert_eq!(pipeline.execute(points), Err(AggregatorError::InvalidTimestamp(i64::MAX)));
}

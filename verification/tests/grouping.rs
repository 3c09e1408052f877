use stream_analytics::grouping::group_by_key;
use stream_analytics::window::{window_batches, WindowBatch};
use stream_analytics::{AggregatorError, DimensionKey, WindowConfig};

fn device(name: &str) -> DimensionKey {
    DimensionKey::new().with_dimension("device", name)
}

#[test]
fn keys_are_ordered_pair_by_pair() {
    let empty = DimensionKey::new();
    let a = device("a");
    let b = device("b");
    let a_temp = device("a").with_dimension("sensor", "temp");
    let zone = DimensionKey::new().with_dimension("zone", "x");
    assert!(empty.precedes(&empty));
    assert!(empty.precedes(&a));
    assert!(!a.precedes(&empty));
    assert!(a.precedes(&a));
    assert!(a.precedes(&b));
    assert!(!b.precedes(&a));
    // a key that is the front of another comes first
    assert!(a.precedes(&a_temp));
    assert!(!a_temp.precedes(&a));
    // the first pair that differs decides
    assert!(a_temp.precedes(&b));
    assert!(!b.precedes(&a_temp));
    // names are compared before values
    assert!(b.precedes(&zone));
    assert!(!zone.precedes(&b));
}

#[test]
fn groups_come_in_key_order_with_places_in_arrival_order() {
    let keys = vec![device("b"), device("a"), device("b"), DimensionKey::new(), device("a")];
    assert_eq!(
        group_by_key(&keys),
        vec![
            (DimensionKey::new(), vec![3]),
            (device("a"), vec![1, 4]),
            (device("b"), vec![0, 2]),
        ]
    );
    assert_eq!(group_by_key(&vec![]), vec![]);
    assert_eq!(group_by_key(&vec![device("x")]), vec![(device("x"), vec![0])]);
}

#[test]
fn every_place_lands_in_one_group() {
    let names = ["c", "a", "b", "a", "c", "c", "b", "a"];
    let keys: Vec<DimensionKey> = names.iter().map(|n| device(n)).collect();
    let groups = group_by_key(&keys);
    let mut seen: Vec<usize> = groups.iter().flat_map(|g| g.1.clone()).collect();
    seen.sort();
    assert_eq!(seen, (0..names.len()).collect::<Vec<usize>>());
    for (key, places) in &groups {
        for p in places {
            assert_eq!(&keys[*p], key);
        }
    }
}

#[test]
fn window_batches_route_a_whole_sequence() {
    let samples = vec![(100, 1), (1100, 2), (200, 3), (2500, 4)];
    assert_eq!(
        window_batches(WindowConfig::tumbling(1000), &samples),
        Ok(vec![
            WindowBatch { window_start: 0, window_end: 1000, samples: vec![(100, 1), (200, 3)] },
            WindowBatch { window_start: 1000, window_end: 2000, samples: vec![(1100, 2)] },
            WindowBatch { window_start: 2000, window_end: 3000, samples: vec![(2500, 4)] },
        ])
    );
    assert_eq!(window_batches(WindowConfig::tumbling(1000), &vec![]), Ok(vec![]));
}

#[test]
fn window_batches_report_what_they_cannot_place() {
    assert!(matches!(
        window_batches(WindowConfig::sliding(1000, -1), &vec![(1, 1)]),
        Err(AggregatorError::InvalidWindowConfig(_))
    ));
    assert!(matches!(
        window_batches(WindowConfig::tumbling(0), &vec![]),
        Err(AggregatorError::InvalidWindowConfig(_))
    ));
    assert!(matches!(
        window_batches(WindowConfig::tumbling(1000), &vec![(1, 1), (i64::MAX, 2), (i64::MIN, 3)]),
        Err(AggregatorError::InvalidTimestamp(i64::MAX))
    ));
}

use stream_analytics::order::{
    ensure_length, first_maximum, first_reaching, median, median_filter, quartiles, sorted,
    sorted_range, zero_crossings, Quartiles, Sign,
};
use stream_analytics::spectrum::{band_ranges, fft_len, spectrum_bins, BAND_COUNT};
use stream_analytics::{AggregationType, DataQuality, SignalError};

// The order of floats that puts a not-a-number last.
fn key(x: f64) -> i64 {
    let bits = x.to_bits() as i64;
    bits ^ ((((bits >> 63) as u64) >> 1) as i64)
}

fn unkey(k: i64) -> f64 {
    f64::from_bits((k ^ ((((k >> 63) as u64) >> 1) as i64)) as u64)
}

fn keys(xs: &[f64]) -> Vec<i64> {
    xs.iter().map(|x| key(*x)).collect()
}

fn values(ks: &[i64]) -> Vec<f64> {
    ks.iter().map(|k| unkey(*k)).collect()
}

#[test]
fn sorted_orders_keys() {
    assert_eq!(sorted(&vec![3, -1, 2, -1, 0]), vec![-1, -1, 0, 2, 3]);
    assert_eq!(sorted(&vec![]), Vec::<i64>::new());
    assert_eq!(sorted_range(&vec![9, 3, 1, 2, 0], 1, 4), vec![1, 2, 3]);
    assert_eq!(sorted_range(&vec![9, 3, 1], 2, 2), Vec::<i64>::new());
    let floats = [2.5, -1.0, f64::NAN, 0.0, f64::INFINITY];
    let back = values(&sorted(&keys(&floats)));
    assert_eq!(&back[..4], &[-1.0, 0.0, 2.5, f64::INFINITY]);
    assert!(back[4].is_nan());
}

#[test]
fn median_is_the_lower_middle() {
    assert_eq!(median(&vec![]), None);
    assert_eq!(median(&vec![5]), Some(5));
    assert_eq!(median(&vec![5, 1, 3]), Some(3));
    assert_eq!(median(&vec![4, 1, 3, 2]), Some(2));
    let history = [1.0, 1.0, 1.0, 1.0, 1.0, 1.0, 1.0, 1.0, 1.0, 10.0];
    assert_eq!(median(&keys(&history)).map(unkey), Some(1.0));
}

#[test]
fn quartiles_pick_by_index() {
    assert_eq!(
        quartiles(&vec![]),
        Err(SignalError::InsufficientLength { required: 1, actual: 0 })
    );
    assert_eq!(quartiles(&vec![7]), Ok(Quartiles { q1: 7, median: 7, q3: 7 }));
    // sorted: 1 2 3 4 5; n / 4 = 1, 3 n / 4 = 3
    assert_eq!(quartiles(&vec![5, 4, 3, 2, 1]), Ok(Quartiles { q1: 2, median: 3, q3: 4 }));
    // sorted: 1 1 2 2 2 3 3 4 4 5; n / 4 = 2, (n - 1) / 2 = 4, 3 n / 4 = 7
    let history = [1.0, 2.0, 3.0, 4.0, 5.0, 4.0, 3.0, 2.0, 1.0, 2.0];
    let q = quartiles(&keys(&history)).unwrap();
    assert_eq!((unkey(q.q1), unkey(q.median), unkey(q.q3)), (2.0, 2.0, 4.0));
}

#[test]
fn median_filter_clips_its_window() {
    let signal = vec![1, 9, 2, 8, 3];
    // windows: [1 9] [1 9 2] [9 2 8] [2 8 3] [8 3]; the key at half the length
    assert_eq!(median_filter(&signal, 3), Ok(vec![9, 2, 8, 3, 8]));
    assert_eq!(median_filter(&signal, 1), Ok(signal.clone()));
    assert_eq!(median_filter(&signal, 0), Ok(signal.clone()));
    // an even size reaches as far as the next odd one
    assert_eq!(median_filter(&signal, 2), Ok(vec![9, 2, 8, 3, 8]));
    assert_eq!(median_filter(&signal, 5), Ok(vec![2, 8, 3, 8, 3]));
    assert_eq!(
        median_filter(&signal, 6),
        Err(SignalError::InsufficientLength { required: 6, actual: 5 })
    );
    assert_eq!(median_filter(&vec![], 0), Ok(vec![]));
    assert_eq!(
        median_filter(&vec![], 1),
        Err(SignalError::InsufficientLength { required: 1, actual: 0 })
    );
}

#[test]
fn median_filter_removes_a_spike() {
    let signal = [1.0, 1.0, 1.0, 50.0, 1.0, 1.0, 1.0];
    let out = median_filter(&keys(&signal), 3).unwrap();
    assert_eq!(values(&out), vec![1.0; 7]);
}

#[test]
fn first_maximum_takes_the_lowest_index() {
    assert_eq!(first_maximum(&vec![]), None);
    assert_eq!(first_maximum(&vec![4]), Some(0));
    assert_eq!(first_maximum(&vec![1, 7, 3, 7, 2]), Some(1));
    assert_eq!(first_maximum(&vec![0, 0, 0]), Some(0));
    assert_eq!(first_maximum(&vec![-3, -1, -2]), Some(1));
}

#[test]
fn first_reaching_walks_a_running_total() {
    let totals = vec![1, 3, 6, 10];
    assert_eq!(first_reaching(&totals, 0), Some(0));
    assert_eq!(first_reaching(&totals, 1), Some(0));
    assert_eq!(first_reaching(&totals, 2), Some(1));
    assert_eq!(first_reaching(&totals, 6), Some(2));
    assert_eq!(first_reaching(&totals, 10), Some(3));
    assert_eq!(first_reaching(&totals, 11), None);
    assert_eq!(first_reaching(&vec![], 0), None);
}

#[test]
fn first_reaching_never_moves_back_as_the_target_rises() {
    let totals = vec![2, 2, 5, 9, 9, 14];
    let mut last = 0;
    for target in -3..=14 {
        let at = first_reaching(&totals, target).unwrap();
        assert!(at >= last);
        last = at;
    }
}

#[test]
fn zero_crossings_count_opposite_neighbours() {
    let (n, p, u) = (Sign::Negative, Sign::NonNegative, Sign::Unordered);
    assert_eq!(zero_crossings(&vec![]), 0);
    assert_eq!(zero_crossings(&vec![n]), 0);
    assert_eq!(zero_crossings(&vec![p, n]), 1);
    assert_eq!(zero_crossings(&vec![p, p, n, n, p, n]), 3);
    assert_eq!(zero_crossings(&vec![p, u, n]), 0);
    assert_eq!(zero_crossings(&vec![n, n, n]), 0);
}

#[test]
fn fft_len_is_the_next_power_of_two() {
    assert_eq!(fft_len(0), Some(1));
    assert_eq!(fft_len(1), Some(1));
    assert_eq!(fft_len(2), Some(2));
    assert_eq!(fft_len(3), Some(4));
    assert_eq!(fft_len(1000), Some(1024));
    assert_eq!(fft_len(1024), Some(1024));
    assert_eq!(fft_len(1025), Some(2048));
    assert_eq!(fft_len(usize::MAX / 2 + 1), Some(usize::MAX / 2 + 1));
    assert_eq!(fft_len(usize::MAX / 2 + 2), None);
    assert_eq!(fft_len(usize::MAX), None);
    assert_eq!(spectrum_bins(1024), 512);
    assert_eq!(spectrum_bins(1), 0);
}

#[test]
fn bands_lie_side_by_side() {
    assert_eq!(BAND_COUNT, 8);
    assert_eq!(
        band_ranges(512),
        vec![
            (0, 64),
            (64, 128),
            (128, 192),
            (192, 256),
            (256, 320),
            (320, 384),
            (384, 448),
            (448, 512)
        ]
    );
    assert_eq!(band_ranges(20)[7], (14, 16));
    assert_eq!(band_ranges(7), vec![(0, 0); 8]);
}

#[test]
fn ensure_length_compares_both_lengths() {
    assert_eq!(ensure_length(3, 3), Ok(()));
    assert_eq!(ensure_length(4, 0), Ok(()));
    assert_eq!(ensure_length(2, 3), Err(SignalError::InsufficientLength { required: 3, actual: 2 }));
}

#[test]
fn plain_marks_compare_by_variant() {
    let good = DataQuality::Good;
    let copy = good;
    assert_eq!(good, copy);
    assert_ne!(good, DataQuality::Bad);
    assert_ne!(DataQuality::Uncertain, DataQuality::Bad);
    assert_eq!(AggregationType::Percentile(95), AggregationType::Percentile(95));
    assert_ne!(AggregationType::Percentile(95), AggregationType::Percentile(50));
    assert_ne!(AggregationType::Median, AggregationType::Mean);
}

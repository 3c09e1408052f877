use rustfft::num_complex::Complex;
use rustfft::FftPlanner;
use stream_analytics::digest::{overfull, pick_reaching};
use stream_analytics::order::{first_maximum, sorted};
use stream_analytics::spectrum::{fft_len, spectrum_bins};
use stream_analytics::{TimeWindowAggregator, WindowConfig, WindowStamp};

// The order of floats that puts a not-a-number last.
fn key_of_float(x: f64) -> i64 {
    let bits = (x + 0.0).to_bits() as i64;
    bits ^ ((((bits >> 63) as u64) >> 1) as i64)
}

fn float_of_key(k: i64) -> f64 {
    f64::from_bits((k ^ ((((k >> 63) as u64) >> 1) as i64)) as u64)
}

// The percentile of a digest of (mean, weight) centroids: the centroids are
// put in order of mean, their weights summed up, and the walk left to the library.
fn percentile(centroids: &[(f64, f64)], p: f64) -> f64 {
    let total: f64 = centroids.iter().map(|c| c.1).sum();
    let mut by_mean: Vec<(f64, f64)> = centroids.to_vec();
    by_mean.sort_by_key(|c| key_of_float(c.0));
    let mut running = 0.0;
    let mut pairs = Vec::new();
    for (mean, weight) in by_mean {
        running += weight;
        pairs.push((key_of_float(mean), key_of_float(running)));
    }
    match pick_reaching(&pairs, key_of_float(total * p / 100.0)) {
        Some(k) => float_of_key(k),
        None => 0.0,
    }
}

#[test]
fn test_tdigest() {
    let centroids: Vec<(f64, f64)> = (1..=100).map(|i| (i as f64, 1.0)).collect();

    let p50 = percentile(&centroids, 50.0);
    assert!((p50 - 50.0).abs() < 5.0);

    let p90 = percentile(&centroids, 90.0);
    assert!((p90 - 90.0).abs() < 5.0);
}

#[test]
fn percentile_of_uniform_weights_is_exact() {
    let centroids: Vec<(f64, f64)> = (1..=100).map(|i| (i as f64, 1.0)).collect();
    assert_eq!(percentile(&centroids, 50.0), 50.0);
    assert_eq!(percentile(&centroids, 90.0), 90.0);
    assert!((percentile(&centroids, 50.0) - 50.5).abs() <= 5.0);
    assert!((percentile(&centroids, 90.0) - 90.5).abs() <= 5.0);
    assert_eq!(percentile(&centroids, 0.0), 1.0);
    assert_eq!(percentile(&centroids, 100.0), 100.0);
    assert_eq!(percentile(&[], 50.0), 0.0);
}

#[test]
fn percentile_never_falls_as_p_rises() {
    let centroids = [(4.0, 2.0), (-1.5, 0.5), (9.0, 3.0), (2.0, 1.0), (2.0, 4.0)];
    let mut last = f64::NEG_INFINITY;
    for p in 0..=100 {
        let at = percentile(&centroids, p as f64);
        assert!(at >= last);
        last = at;
    }
}

#[test]
fn pick_reaching_falls_back_to_the_last_pair() {
    assert_eq!(pick_reaching(&vec![], 0), None);
    assert_eq!(pick_reaching(&vec![(10, 1), (20, 2)], 3), Some(20));
    assert_eq!(pick_reaching(&vec![(10, 1), (20, 2)], 2), Some(20));
    assert_eq!(pick_reaching(&vec![(10, 1), (20, 2)], 1), Some(10));
    assert_eq!(pick_reaching(&vec![(10, 1), (20, 2)], i64::MIN), Some(10));
}

#[test]
fn test_fft() {
    let sample_rate = 1000.0;
    let signal: Vec<f64> = (0..1024)
        .map(|i| (2.0 * std::f64::consts::PI * 50.0 * i as f64 / 1000.0).sin())
        .collect();

    let n = fft_len(signal.len()).unwrap();
    assert_eq!(n, 1024);
    let mut buffer: Vec<Complex<f64>> = signal.iter().map(|&x| Complex::new(x, 0.0)).collect();
    buffer.resize(n, Complex::new(0.0, 0.0));
    FftPlanner::new().plan_fft_forward(n).process(&mut buffer);

    let bins = spectrum_bins(n);
    assert_eq!(bins, 512);
    let magnitudes: Vec<f64> = buffer[..bins].iter().map(|c| c.norm() * 2.0 / n as f64).collect();
    let keys: Vec<i64> = magnitudes.iter().map(|m| key_of_float(*m)).collect();
    let dominant_bin = first_maximum(&keys).unwrap();
    let dominant_frequency = dominant_bin as f64 * sample_rate / n as f64;
    // the dominant frequency should be close to 50 Hz
    assert!((dominant_frequency - 50.0).abs() < 5.0);
    assert_eq!(dominant_bin, 51);
}

#[test]
fn float_keys_keep_the_order_of_floats() {
    let floats = [
        f64::NEG_INFINITY,
        -2.5,
        -f64::MIN_POSITIVE,
        0.0,
        f64::MIN_POSITIVE,
        1.0,
        1.0e300,
        f64::INFINITY,
    ];
    for pair in floats.windows(2) {
        assert!(key_of_float(pair[0]) < key_of_float(pair[1]));
    }
    assert_eq!(key_of_float(-0.0), key_of_float(0.0));
    assert!(key_of_float(f64::NAN) > key_of_float(f64::INFINITY));
    for x in floats {
        assert_eq!(float_of_key(key_of_float(x)), x);
    }
    let mixed: Vec<i64> = [3.0, -1.0, 2.0].iter().map(|x| key_of_float(*x)).collect();
    let back: Vec<f64> = sorted(&mixed).iter().map(|k| float_of_key(*k)).collect();
    assert_eq!(back, vec![-1.0, 2.0, 3.0]);
}

#[test]
fn tumbling_window_scenario() {
    let mut agg = TimeWindowAggregator::new(WindowConfig::tumbling(1000));
    for (t, x) in [(100, 1.0f64), (200, 2.0), (300, 3.0)] {
        agg.add_value(t, x.to_bits());
    }
    assert_eq!(
        agg.get_all_aggregates(),
        vec![WindowStamp { window_start: 0, window_end: 1000, count: 3 }]
    );
    let xs: Vec<f64> = agg.window_samples(0).unwrap().iter().map(|s| f64::from_bits(s.1)).collect();
    let n = xs.len() as f64;
    let mean = xs.iter().sum::<f64>() / n;
    let variance = xs.iter().map(|x| (x - mean) * (x - mean)).sum::<f64>() / (n - 1.0);
    assert_eq!(mean, 2.0);
    assert_eq!(variance, 1.0);
    assert_eq!(xs.iter().cloned().fold(f64::INFINITY, f64::min), 1.0);
    assert_eq!(xs.iter().cloned().fold(f64::NEG_INFINITY, f64::max), 3.0);
}

#[test]
fn a_buffer_is_overfull_past_twice_the_limit() {
    assert!(!overfull(0, 0));
    assert!(overfull(1, 0));
    assert!(!overfull(200, 100));
    assert!(overfull(201, 100));
    assert!(!overfull(usize::MAX, usize::MAX));
    assert!(!overfull(usize::MAX, usize::MAX / 2 + 1));
    assert!(overfull(usize::MAX, usize::MAX / 2));
}

use rust_audio_processor::fft::{bit_reverse_permute, fft, fft_with_cache, ifft, TwiddleCache};
use rust_audio_processor::hann_window::apply_hann_window;
use rust_audio_processor::ConfigError;
use std::f32::consts::PI;

type Cx = (f32, f32);

fn root(k: usize, len: usize) -> Cx {
    let angle = (-2.0 * PI * k as f32) / len as f32;
    (angle.cos(), angle.sin())
}

fn butterfly(a: Cx, b: Cx, w: Cx) -> (Cx, Cx) {
    let t = (w.0 * b.0 - w.1 * b.1, w.0 * b.1 + w.1 * b.0);
    ((a.0 + t.0, a.1 + t.1), (a.0 - t.0, a.1 - t.1))
}

fn conjugate(c: Cx) -> Cx {
    (c.0, -c.1)
}

fn scale_down(c: Cx, n: usize) -> Cx {
    (c.0 / n as f32, c.1 / n as f32)
}

fn hann(c: Cx, i: usize, n: usize) -> Cx {
    let w = 0.5 * (1.0 - ((2.0 * PI * i as f32) / (n as f32 - 1.0)).cos());
    (c.0 * w, c.1 * w)
}

fn magnitude(c: Cx) -> f32 {
    (c.0 * c.0 + c.1 * c.1).sqrt()
}

type Gauss = (i64, i64);

/// Exact roots of unity for transforms of up to four points.
fn gauss_root(k: usize, len: usize) -> Gauss {
    match (k * 4 / len) % 4 {
        0 => (1, 0),
        1 => (0, -1),
        2 => (-1, 0),
        _ => (0, 1),
    }
}

fn gauss_butterfly(a: Gauss, b: Gauss, w: Gauss) -> (Gauss, Gauss) {
    let t = (w.0 * b.0 - w.1 * b.1, w.0 * b.1 + w.1 * b.0);
    ((a.0 + t.0, a.1 + t.1), (a.0 - t.0, a.1 - t.1))
}

#[test]
fn test_fft_impulse() {
    let mut input = vec![(1.0, 0.0), (0.0, 0.0), (0.0, 0.0), (0.0, 0.0)];
    fft(&mut input, &root, &butterfly).unwrap();
    for i in 0..4 {
        assert!((input[i].0 - 1.0).abs() < 1e-6, "Real part at {}: {}", i, input[i].0);
        assert!(input[i].1.abs() < 1e-6, "Imag part at {}: {}", i, input[i].1);
    }
}

#[test]
fn test_fft_dc() {
    let mut input = vec![(1.0, 0.0), (1.0, 0.0), (1.0, 0.0), (1.0, 0.0)];
    fft(&mut input, &root, &butterfly).unwrap();
    assert!((input[0].0 - 4.0).abs() < 1e-6);
    assert!(input[0].1.abs() < 1e-6);
    for i in 1..4 {
        assert!(magnitude(input[i]) < 1e-6, "Bin {} should be zero but got {}", i, magnitude(input[i]));
    }
}

#[test]
fn test_fft_roundtrip() {
    let original: Vec<Cx> = vec![(1.0, 0.5), (2.0, -1.0), (0.5, 2.0), (-1.0, 0.5)];
    let mut input = original.clone();
    fft(&mut input, &root, &butterfly).unwrap();
    ifft(&mut input, &root, &butterfly, &conjugate, &scale_down).unwrap();
    for i in 0..4 {
        assert!((input[i].0 - original[i].0).abs() < 1e-6);
        assert!((input[i].1 - original[i].1).abs() < 1e-6);
    }
}

#[test]
fn fft_roundtrip_on_sixteen_points() {
    let original: Vec<Cx> = (0..16).map(|i| ((i as f32 * 0.37).sin(), (i as f32 * 0.11).cos())).collect();
    let mut input = original.clone();
    fft(&mut input, &root, &butterfly).unwrap();
    ifft(&mut input, &root, &butterfly, &conjugate, &scale_down).unwrap();
    for i in 0..16 {
        assert!((input[i].0 - original[i].0).abs() < 1e-6);
        assert!((input[i].1 - original[i].1).abs() < 1e-6);
    }
}

#[test]
fn test_full_pipeline() {
    let mut signal = vec![(1.0, 0.0), (0.5, 0.0), (-0.5, 0.0), (-1.0, 0.0)];
    apply_hann_window(&mut signal, &hann);
    fft(&mut signal, &root, &butterfly).unwrap();
    let magnitudes: Vec<f32> = signal.iter().map(|c| magnitude(*c)).collect();
    assert!(magnitudes.iter().any(|&m| m > 0.0));
}

#[test]
fn fft_exact_on_gaussian_integers() {
    let mut input: Vec<Gauss> = vec![(1, 0), (2, 0), (3, 0), (4, 0)];
    fft(&mut input, &gauss_root, &gauss_butterfly).unwrap();
    assert_eq!(input, vec![(10, 0), (-2, 2), (-2, 0), (-2, -2)]);

    let mut two: Vec<Gauss> = vec![(3, 1), (1, -1)];
    fft(&mut two, &gauss_root, &gauss_butterfly).unwrap();
    assert_eq!(two, vec![(4, 0), (2, 2)]);

    let mut one: Vec<Gauss> = vec![(5, -3)];
    fft(&mut one, &gauss_root, &gauss_butterfly).unwrap();
    assert_eq!(one, vec![(5, -3)]);
}

#[test]
fn fft_rejects_sizes_that_are_not_powers_of_two() {
    let mut input: Vec<Gauss> = vec![(1, 0), (2, 0), (3, 0)];
    assert_eq!(fft(&mut input, &gauss_root, &gauss_butterfly), Err(ConfigError::SizeNotPowerOfTwo));
    assert_eq!(input, vec![(1, 0), (2, 0), (3, 0)]);

    let mut empty: Vec<Gauss> = Vec::new();
    assert_eq!(fft(&mut empty, &gauss_root, &gauss_butterfly), Err(ConfigError::SizeNotPowerOfTwo));

    let mut six: Vec<Cx> = vec![(1.0, 0.0); 6];
    assert_eq!(
        ifft(&mut six, &root, &butterfly, &conjugate, &scale_down),
        Err(ConfigError::SizeNotPowerOfTwo)
    );
    assert_eq!(six, vec![(1.0, 0.0); 6]);
}

#[test]
fn cached_path_matches_one_shot_path() {
    let samples: Vec<Cx> = (0..8).map(|i| ((i as f32 * 0.9).cos(), 0.25 * i as f32)).collect();
    let cache = TwiddleCache::new(8, &root).unwrap();
    let mut cached = samples.clone();
    fft_with_cache(&mut cached, &cache, &butterfly);
    let mut one_shot = samples.clone();
    fft(&mut one_shot, &root, &butterfly).unwrap();
    for i in 0..8 {
        assert!((cached[i].0 - one_shot[i].0).abs() < 1e-6);
        assert!((cached[i].1 - one_shot[i].1).abs() < 1e-6);
    }
}

#[test]
fn twiddle_cache_tables_are_unit_roots() {
    let cache = TwiddleCache::new(8, &root).unwrap();
    assert_eq!(cache.fft_size(), 8);
    assert_eq!(cache.stages(), 3);
    for stage in 0..3 {
        let table = cache.stage_twiddles(stage);
        assert_eq!(table.len(), 1 << stage);
        assert!((table[0].0 - 1.0).abs() < 1e-6);
        assert!(table[0].1.abs() < 1e-6);
        for w in table {
            assert!((magnitude(*w) - 1.0).abs() < 1e-6);
        }
    }
    let table = cache.stage_twiddles(1);
    assert!(table[1].0.abs() < 1e-6);
    assert!((table[1].1 + 1.0).abs() < 1e-6);
    assert!(TwiddleCache::new(12, &root).is_err());
    assert_eq!(TwiddleCache::new(1, &root).unwrap().stages(), 0);
}

#[test]
fn bit_reverse_permute_reorders_by_reversed_index() {
    let mut v: Vec<u32> = (0..8).collect();
    bit_reverse_permute(&mut v, 3);
    assert_eq!(v, vec![0, 4, 2, 6, 1, 5, 3, 7]);
    let mut w: Vec<u32> = (0..16).collect();
    bit_reverse_permute(&mut w, 4);
    assert_eq!(w, vec![0, 8, 4, 12, 2, 10, 6, 14, 1, 9, 5, 13, 3, 11, 7, 15]);
}

fn hann_coefficients(size: usize) -> Vec<f32> {
    let mut ones: Vec<Cx> = vec![(1.0, 0.0); size];
    apply_hann_window(&mut ones, &hann);
    ones.iter().map(|c| c.0).collect()
}

#[test]
fn test_hann_window_symmetry() {
    let window = hann_coefficients(10);
    for i in 0..window.len() / 2 {
        let symmetric_idx = window.len() - 1 - i;
        assert!((window[i] - window[symmetric_idx]).abs() < 1e-6);
    }
}

#[test]
fn test_hann_window_endpoints() {
    let window = hann_coefficients(10);
    assert!(window[0].abs() < 1e-6);
    assert!(window[window.len() - 1].abs() < 1e-6);
}

#[test]
fn test_apply_hann_window_real() {
    let mut signal: Vec<f32> = vec![1.0, 2.0, 3.0, 4.0];
    let original = signal.clone();
    apply_hann_window(&mut signal, &|s: f32, i: usize, n: usize| hann((s, 0.0), i, n).0);
    assert_ne!(signal, original);
    assert!(signal[0].abs() < 1e-6);
    assert!(signal[signal.len() - 1].abs() < 1e-6);
}

#[test]
fn hann_window_scales_both_parts() {
    let mut signal: Vec<Cx> = vec![(2.0, -2.0); 5];
    apply_hann_window(&mut signal, &hann);
    assert!((signal[2].0 - 2.0).abs() < 1e-6);
    assert!((signal[2].1 + 2.0).abs() < 1e-6);
    assert!((signal[1].0 - 1.0).abs() < 1e-6);
    assert!((signal[1].1 + 1.0).abs() < 1e-6);
}

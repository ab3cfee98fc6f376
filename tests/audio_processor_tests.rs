use rust_audio_processor::{ConfigError, SpectrogramProcessor};
use std::f32::consts::PI;

type Cx = (f32, f32);

fn root(k: usize, len: usize) -> Cx {
    let angle = (-2.0 * PI * k as f32) / len as f32;
    (angle.cos(), angle.sin())
}

fn butterfly(a: Cx, b: Cx, w: Cx) -> (Cx, Cx) {
    let t = (w.0 * b.0 - w.1 * b.1, w.0 * b.1 + w.1 * b.0);
    ((a.0 + t.0, a.1 + t.1), (a.0 - t.0, a.1 - t.1))
}

fn lift(s: f32) -> Cx {
    (s, 0.0)
}

fn hann(c: Cx, i: usize, n: usize) -> Cx {
    let w = 0.5 * (1.0 - ((2.0 * PI * i as f32) / (n as f32 - 1.0)).cos());
    (c.0 * w, c.1 * w)
}

fn magnitude(c: Cx) -> f32 {
    (c.0 * c.0 + c.1 * c.1).sqrt()
}

fn processor(fft_size: usize) -> SpectrogramProcessor<Cx> {
    SpectrogramProcessor::new(fft_size, (0.0, 0.0), &root).unwrap()
}

fn hop_size(fft_size: usize, overlap: f32) -> usize {
    ((fft_size as f32) * (1.0 - overlap)) as usize
}

fn slow_sine(len: usize) -> Vec<f32> {
    (0..len).map(|i| (2.0 * PI * i as f32 / 32.0).sin()).collect()
}

#[test]
fn test_spectrogram_processor_creation() {
    let processor = processor(1024);
    assert_eq!(processor.fft_size(), 1024);
}

#[test]
fn test_process_window() {
    let mut processor = processor(8);
    let mut test_signal = Vec::new();
    for i in 0..8 {
        let sample = (2.0 * PI * i as f32 / 8.0).sin();
        test_signal.push(sample);
    }
    let result = processor.process_window(&test_signal, &lift, &hann, &butterfly, &magnitude);
    assert_eq!(result.len(), 4);
    let total_energy: f32 = result.iter().sum();
    assert!(total_energy > 0.0);
}

#[test]
fn process_window_rejects_wrong_length() {
    let mut processor = processor(8);
    let seven = vec![0.5f32; 7];
    assert!(processor.process_window(&seven, &lift, &hann, &butterfly, &magnitude).is_empty());
    let nine = vec![0.5f32; 9];
    assert!(processor.process_window(&nine, &lift, &hann, &butterfly, &magnitude).is_empty());
    // The processor is still usable after a rejected window.
    let eight = vec![0.5f32; 8];
    assert_eq!(processor.process_window(&eight, &lift, &hann, &butterfly, &magnitude).len(), 4);
}

#[test]
fn process_window_of_constant_signal_peaks_at_dc() {
    let mut processor = processor(8);
    let ones = vec![1.0f32; 8];
    let result = processor.process_window(&ones, &lift, &hann, &butterfly, &magnitude);
    // The Hann coefficients of eight points sum to 3.5.
    assert!((result[0] - 3.5).abs() < 1e-5);
    for bin in 1..4 {
        assert!(result[0] > result[bin]);
    }
}

#[test]
fn test_compute_spectrogram() {
    let mut processor = processor(8);
    let test_signal = slow_sine(32);
    let result = processor.compute_spectrogram(&test_signal, hop_size(8, 0.5), &lift, &hann, &butterfly, &magnitude);
    assert!(result.len() > 4);
    assert_eq!(result.len() % 4, 0);
}

#[test]
fn compute_spectrogram_window_count() {
    let mut processor = processor(8);
    let test_signal = slow_sine(32);
    let hop = hop_size(8, 0.5);
    assert_eq!(hop, 4);
    let result = processor.compute_spectrogram(&test_signal, hop, &lift, &hann, &butterfly, &magnitude);
    assert_eq!(result.len(), 28);
    // Row 2 is the spectrum of samples 8..16.
    let row = processor.process_window(&test_signal[8..16], &lift, &hann, &butterfly, &magnitude);
    assert_eq!(&result[8..12], &row[..]);
    // Trailing samples that do not fill a window are dropped.
    let longer = slow_sine(35);
    let result = processor.compute_spectrogram(&longer, hop, &lift, &hann, &butterfly, &magnitude);
    assert_eq!(result.len(), 28);
    let exact = slow_sine(8);
    let result = processor.compute_spectrogram(&exact, hop, &lift, &hann, &butterfly, &magnitude);
    assert_eq!(result.len(), 4);
}

#[test]
fn test_process_windows_batch() {
    let mut processor = processor(8);
    let test_signal = slow_sine(32);
    let (data, num_windows, freq_bins) =
        processor.process_windows(&test_signal, hop_size(8, 0.5), &lift, &hann, &butterfly, &magnitude);
    assert_eq!(freq_bins, 4);
    assert_eq!(data.len(), num_windows * freq_bins);
    assert!(num_windows > 0);
}

#[test]
fn test_process_windows_with_strides() {
    let mut processor = processor(8).with_strides(2, 2).unwrap();
    let test_signal = slow_sine(32);
    let (data, num_windows, freq_bins) =
        processor.process_windows(&test_signal, hop_size(8, 0.5), &lift, &hann, &butterfly, &magnitude);
    assert_eq!(processor.time_stride(), 2);
    assert_eq!(processor.freq_stride(), 2);
    assert!(num_windows > 0);
    assert_eq!(freq_bins, 2);
    assert_eq!(data.len(), num_windows * freq_bins);
}

#[test]
fn strided_batch_keeps_every_other_window_and_bin() {
    let test_signal = slow_sine(32);
    let mut full = processor(8);
    let (all, all_windows, all_bins) = full.process_windows(&test_signal, 4, &lift, &hann, &butterfly, &magnitude);
    assert_eq!((all.len(), all_windows, all_bins), (28, 7, 4));
    let mut strided = processor(8).with_strides(2, 2).unwrap();
    let (kept, windows, bins) = strided.process_windows(&test_signal, 4, &lift, &hann, &butterfly, &magnitude);
    assert_eq!((kept.len(), windows, bins), (8, 4, 2));
    for w in 0..4 {
        for b in 0..2 {
            assert_eq!(kept[w * 2 + b], all[(2 * w) * 4 + 2 * b]);
        }
    }
    let mut coarse = processor(8).with_strides(3, 3).unwrap();
    let (data, windows, bins) = coarse.process_windows(&test_signal, 4, &lift, &hann, &butterfly, &magnitude);
    assert_eq!((data.len(), windows, bins), (6, 3, 2));
}

#[test]
fn process_windows_on_short_input() {
    let mut processor = processor(8).with_strides(2, 2).unwrap();
    let (data, windows, bins) = processor.process_windows(&[0.0f32; 5], 4, &lift, &hann, &butterfly, &magnitude);
    assert!(data.is_empty());
    assert_eq!(windows, 0);
    assert_eq!(bins, 4);
}

#[test]
fn test_invalid_fft_size() {
    let result = SpectrogramProcessor::new(7, (0.0f32, 0.0f32), &root);
    assert!(result.is_err());
}

#[test]
fn configuration_errors() {
    assert_eq!(SpectrogramProcessor::new(0, (0.0f32, 0.0f32), &root).err(), Some(ConfigError::SizeNotPowerOfTwo));
    assert_eq!(processor(8).with_strides(0, 1).err(), Some(ConfigError::StrideBelowOne));
    let mut p = processor(8);
    assert_eq!(p.set_strides(3, 0), Err(ConfigError::StrideBelowOne));
    assert_eq!((p.time_stride(), p.freq_stride()), (1, 1));
    assert_eq!(p.set_strides(3, 2), Ok(()));
    assert_eq!((p.time_stride(), p.freq_stride()), (3, 2));
}

#[test]
fn test_empty_audio_data() {
    let mut processor = processor(8);
    let empty_data: Vec<f32> = vec![];
    let result = processor.compute_spectrogram(&empty_data, hop_size(8, 0.5), &lift, &hann, &butterfly, &magnitude);
    assert!(result.is_empty());
}

//! A spectrogram engine built around an iterative radix-2 FFT.
//!
//! The index arithmetic of the transform (bit reversal, stage layout,
//! butterfly schedule) and the windowing and decimation of a spectrogram are
//! verified here for any element type. The arithmetic on samples is handed in
//! as closures, so the same verified code runs over any numeric type.
pub mod utils;
pub mod fft;
pub mod hann_window;
pub mod audio_processor;

pub use audio_processor::SpectrogramProcessor;
pub use utils::{bit_reverse, ConfigError};

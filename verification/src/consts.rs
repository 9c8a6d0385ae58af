//! The fixed sizes of the analysis and synthesis grids.

use vstd::prelude::*;

verus! {

/// Samples per second of every waveform.
pub const SAMPLE_RATE: u32 = 44100;

/// Samples per analysis window.
pub const FFT_SIZE: usize = 2048;

/// Sample advance between frames of the synthesis grid.
pub const HOP_SIZE: usize = 512;

/// Sample advance between frames of the analysis grid.
pub const ORIGIN_HOP_SIZE: usize = 128;

/// Rows of a mel spectrogram.
pub const MEL_BINS: usize = 128;

/// Frames in one segment of the separation model.
pub const SEGMENT_FRAMES: usize = 32;

/// The separation model takes a number of frames that is a multiple of this.
pub const FRAME_MULTIPLE: usize = 16;

} // verus!

//! Verified core of a music-visualisation game: audio framing, decoding
//! bookkeeping, the file picker's listing rules, mesh index generation and
//! the game's state transitions.

use vstd::prelude::*;

pub mod decoding;
pub mod entry_order;
pub mod file_picker;
pub mod framing;
pub mod game_state;
pub mod mesh;
pub mod path;
pub mod report;
pub mod scene;
pub mod stft;
pub mod track;

verus! {

/// Sample rate, in Hz, that every decoded track is resampled to.
pub const SAMPLE_RATE: u32 = 44_100;

/// Number of samples in one analysis window.
pub const WINDOW_SIZE: usize = 2048;

/// Number of samples between the starts of two consecutive analysis windows.
pub const HOP_SIZE: usize = 512;

/// Number of samples handed to the resampler at once.
pub const RESAMPLE_CHUNK_SIZE: usize = 4096;

} // verus!

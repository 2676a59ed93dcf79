//! The shape of the short-time Fourier transform: its window, its hop and
//! the number of frequency bins it yields.

use vstd::prelude::*;

use crate::framing::{frame_windows, is_frame_count, window_bounds, windows_fit};

verus! {

/// Window and hop of a short-time Fourier transform over real samples.
#[derive(Debug, Clone, Copy, PartialEq, Eq)]
pub struct Stft {
    window_size: usize,
    hop_size: usize,
}

impl Stft {
    /// The window, in samples.
    pub closed spec fn window(self) -> nat {
        self.window_size as nat
    }

    /// The hop, in samples.
    pub closed spec fn hop(self) -> nat {
        self.hop_size as nat
    }

    /// A transform over windows of `window_size` samples that start every
    /// `hop_size` samples.
    pub fn new(window_size: usize, hop_size: usize) -> (r: Stft)
        ensures
            r.window() == window_size,
            r.hop() == hop_size,
    {
        Stft { window_size, hop_size }
    }

    pub fn window_size(&self) -> (r: usize)
        ensures
            r == self.window(),
    {
        self.window_size
    }

    pub fn hop_size(&self) -> (r: usize)
        ensures
            r == self.hop(),
    {
        self.hop_size
    }

    /// Number of frequency bins of the transform of one real window: half
    /// the window plus one.
    pub fn num_bins(&self) -> (r: usize)
        ensures
            r == self.window() / 2 + 1,
    {
        self.window_size / 2 + 1
    }

    /// The windows that analysing a signal of `len` samples reads.
    pub fn frames(&self, len: usize) -> (r: Vec<(usize, usize)>)
        requires
            len == 0 || self.hop() > 0,
            windows_fit(len as nat, self.window(), self.hop()),
        ensures
            is_frame_count(r.len() as nat, len as nat, self.hop()),
            forall|k: int|
                0 <= k < r.len() ==> #[trigger] r@[k] == window_bounds(
                    k as nat,
                    len as nat,
                    self.window(),
                    self.hop(),
                ),
    {
        frame_windows(len, self.window_size, self.hop_size)
    }
}

} // verus!

//! How a signal is cut into analysis windows, resampler chunks and
//! neighbourhoods.

use vstd::arithmetic::div_mod::lemma_fundamental_div_mod;
use vstd::prelude::*;

verus! {

/// Start of the `k`-th window when windows start every `hop` samples.
pub open spec fn frame_start(k: nat, hop: nat) -> nat {
    k * hop
}

/// `n` is the number of windows that start inside a signal of `len`
/// samples: the smallest `n` with `n * hop >= len`.
pub open spec fn is_frame_count(n: nat, len: nat, hop: nat) -> bool {
    &&& frame_start(n, hop) >= len
    &&& n == 0 || frame_start((n - 1) as nat, hop) < len
}

/// The arithmetic of walking the windows stays within `usize`: every start
/// that lies inside the signal, plus the step and plus the window, fits.
pub open spec fn windows_fit(len: nat, window: nat, hop: nat) -> bool {
    forall|k: nat|
        #[trigger] frame_start(k, hop) < len ==> frame_start(k, hop) + hop <= usize::MAX
            && frame_start(k, hop) + window <= usize::MAX
}

/// The `k`-th window: it starts at `k * hop` and ends `window` samples later,
/// or at the end of the signal, whichever comes first.
pub open spec fn window_bounds(k: nat, len: nat, window: nat, hop: nat) -> (usize, usize) {
    let s = frame_start(k, hop);
    (s as usize, (if s + window <= len { s + window } else { len }) as usize)
}

proof fn lemma_frame_start_step(k: nat, hop: nat)
    ensures
        frame_start(k + 1, hop) == frame_start(k, hop) + hop,
{
    assert((k + 1) * hop == k * hop + hop) by (nonlinear_arith);
}

/// Cuts a signal of `len` samples into windows of `window` samples that
/// start every `hop` samples, as the analysis and the resampler walk it:
/// one window per start inside the signal, the last ones cut short at the
/// end of the signal.
pub fn frame_windows(len: usize, window: usize, hop: usize) -> (r: Vec<(usize, usize)>)
    requires
        len == 0 || hop > 0,
        windows_fit(len as nat, window as nat, hop as nat),
    ensures
        is_frame_count(r.len() as nat, len as nat, hop as nat),
        forall|k: int|
            0 <= k < r.len() ==> #[trigger] r@[k] == window_bounds(
                k as nat,
                len as nat,
                window as nat,
                hop as nat,
            ),
{
    let mut r: Vec<(usize, usize)> = Vec::new();
    let mut start: usize = 0;
    assert(frame_start(0, hop as nat) == 0) by (nonlinear_arith);
    while start < len
        invariant
            len == 0 || hop > 0,
            windows_fit(len as nat, window as nat, hop as nat),
            start as nat == frame_start(r.len() as nat, hop as nat),
            r.len() == 0 || frame_start((r.len() - 1) as nat, hop as nat) < len,
            forall|k: int|
                0 <= k < r.len() ==> #[trigger] r@[k] == window_bounds(
                    k as nat,
                    len as nat,
                    window as nat,
                    hop as nat,
                ),
        decreases len + hop - start,
    {
        proof {
            let k = r.len() as nat;
            assert(frame_start(k, hop as nat) < len);
            lemma_frame_start_step(k, hop as nat);
        }
        let end = if start + window <= len {
            start + window
        } else {
            len
        };
        r.push((start, end));
        start = start + hop;
    }
    r
}

/// Copies `size` samples of `signal` starting at `start`, and fills the
/// places past the end of the signal with `fill`.
pub fn padded_window<T: Copy>(signal: &[T], start: usize, size: usize, fill: T) -> (r: Vec<T>)
    requires
        start + size <= usize::MAX + 1,
    ensures
        r.len() == size,
        forall|i: int|
            0 <= i < size ==> #[trigger] r@[i] == if start + i < signal@.len() {
                signal@[start + i]
            } else {
                fill
            },
{
    let mut r: Vec<T> = Vec::with_capacity(size);
    let mut i: usize = 0;
    while i < size
        invariant
            start + size <= usize::MAX + 1,
            i <= size,
            r.len() == i,
            forall|j: int|
                0 <= j < i ==> #[trigger] r@[j] == if start + j < signal@.len() {
                    signal@[start + j]
                } else {
                    fill
                },
        decreases size - i,
    {
        let pos = start + i;
        if pos < signal.len() {
            r.push(signal[pos]);
        } else {
            r.push(fill);
        }
        i = i + 1;
    }
    r
}

/// The neighbourhood over which the beat tracker averages a novelty value:
/// from `window` samples before `i` to `window` samples after it, held
/// inside a signal of `len` samples. Both ends are included.
pub fn local_mean_bounds(i: usize, window: usize, len: usize) -> (r: (usize, usize))
    requires
        i < len,
        i + window <= usize::MAX,
    ensures
        r.0 == if i >= window { (i - window) as usize } else { 0 },
        r.1 == if i + window <= len - 1 { (i + window) as usize } else { (len - 1) as usize },
        r.0 <= i <= r.1 < len,
{
    let start = i.saturating_sub(window);
    let last = len - 1;
    let end = if i + window <= last { i + window } else { last };
    (start, end)
}

/// The positions that one phase of the beat-alignment search visits:
/// `offset`, `offset + step`, `offset + 2 * step`, ... while inside a signal
/// of `len` samples.
pub fn phase_positions(offset: usize, step: usize, len: usize) -> (r: Vec<usize>)
    requires
        step > 0,
        forall|k: nat|
            offset + #[trigger] frame_start(k, step as nat) < len ==> offset + frame_start(
                k,
                step as nat,
            ) + step <= usize::MAX,
    ensures
        forall|k: int| 0 <= k < r.len() ==> #[trigger] r@[k] == offset + frame_start(k as nat, step as nat),
        offset + frame_start(r.len() as nat, step as nat) >= len,
        r.len() == 0 || offset + frame_start((r.len() - 1) as nat, step as nat) < len,
{
    let mut r: Vec<usize> = Vec::new();
    let mut pos = offset;
    assert(frame_start(0, step as nat) == 0) by (nonlinear_arith);
    while pos < len
        invariant
            step > 0,
            forall|k: nat|
                offset + #[trigger] frame_start(k, step as nat) < len ==> offset + frame_start(
                    k,
                    step as nat,
                ) + step <= usize::MAX,
            pos == offset + frame_start(r.len() as nat, step as nat),
            r.len() == 0 || offset + frame_start((r.len() - 1) as nat, step as nat) < len,
            forall|k: int| 0 <= k < r.len() ==> #[trigger] r@[k] == offset + frame_start(k as nat, step as nat),
        decreases len + step - pos,
    {
        proof {
            let k = r.len() as nat;
            assert(offset + frame_start(k, step as nat) < len);
            lemma_frame_start_step(k, step as nat);
        }
        r.push(pos);
        pos = pos + step;
    }
    r
}

/// A window that starts inside the signal ends inside it, after its start,
/// and spans at most `window` samples; the next one starts `hop` later.
pub proof fn lemma_window_inside(k: nat, len: nat, window: nat, hop: nat)
    requires
        frame_start(k, hop) < len,
        len <= usize::MAX,
    ensures
        window_bounds(k, len, window, hop).0 < len,
        window_bounds(k, len, window, hop).0 <= window_bounds(k, len, window, hop).1 <= len,
        window_bounds(k, len, window, hop).1 - window_bounds(k, len, window, hop).0 <= window,
        frame_start(k + 1, hop) == frame_start(k, hop) + hop,
{
    lemma_frame_start_step(k, hop);
}

/// When the window is at least as long as the hop, the windows cover the
/// whole signal: every sample lies in one of them.
pub proof fn lemma_windows_cover(x: nat, len: nat, window: nat, hop: nat, n: nat)
    requires
        hop > 0,
        window >= hop,
        x < len,
        len <= usize::MAX,
        is_frame_count(n, len, hop),
    ensures
        exists|k: nat|
            k < n && (#[trigger] window_bounds(k, len, window, hop)).0 <= x < window_bounds(
                k,
                len,
                window,
                hop,
            ).1,
{
    let k = x / hop;
    lemma_fundamental_div_mod(x as int, hop as int);
    assert(hop * k == k * hop) by (nonlinear_arith);
    assert(0 <= x % hop < hop) by (nonlinear_arith)
        requires
            hop > 0,
    ;
    assert(k * hop <= x < k * hop + hop);
    if k >= n {
        assert(k * hop >= n * hop) by (nonlinear_arith)
            requires
                k >= n,
                hop > 0,
        ;
    }
    assert(window_bounds(k, len, window, hop).0 <= x < window_bounds(k, len, window, hop).1);
}

} // verus!

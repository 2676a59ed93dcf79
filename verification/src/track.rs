//! Integer decisions of the track generator: when the curve flips
//! direction, how far back a rise to clear an earlier stretch of track is
//! spread, and which earlier points are checked for overlap.

use vstd::prelude::*;

verus! {

/// The beat lengths, in beats, from which the generator draws how long the
/// track keeps turning one way.
pub fn beat_intervals() -> (r: Vec<i32>)
    ensures
        r@ == seq![1i32, 2i32, 2i32, 3i32, 3i32, 4i32, 4i32],
{
    let mut r: Vec<i32> = Vec::new();
    r.push(1);
    r.push(2);
    r.push(2);
    r.push(3);
    r.push(3);
    r.push(4);
    r.push(4);
    r
}

/// Whether the turn (or climb) direction flips at this frame: when a new
/// beat has just started, it is not the first one, and it is a multiple of
/// the current flip interval.
pub fn flip_due(beat_changed: bool, beat_index: i32, interval: i32) -> (r: bool)
    requires
        interval != 0,
    ensures
        r == (beat_changed && beat_index > 0 && beat_index % interval == 0),
{
    beat_changed && beat_index > 0 && beat_index % interval == 0
}

/// How many of the last points are lifted to clear an earlier stretch of
/// track, and where the lifted run starts: the desired number of steps, at
/// least one and at most `max_steps`, but no more than there are points.
pub fn backtrack_window(points_len: usize, desired_steps: usize, max_steps: usize) -> (r: (
    usize,
    usize,
))
    requires
        max_steps >= 1,
    ensures
        ({
            let steps = if desired_steps < 1 {
                1
            } else if desired_steps > max_steps {
                max_steps as int
            } else {
                desired_steps as int
            };
            let available = if points_len <= steps { points_len as int } else { steps };
            r.1 == available && r.0 == points_len - available
        }),
{
    let steps = if desired_steps < 1 {
        1
    } else if desired_steps > max_steps {
        max_steps
    } else {
        desired_steps
    };
    let available = if points_len <= steps { points_len } else { steps };
    (points_len - available, available)
}

/// How many of the earlier points the overlap check looks at: all but the
/// `ignore_recent` most recent ones, or none when there are no more than
/// that.
pub fn overlap_search_end(points_len: usize, ignore_recent: usize) -> (r: Option<usize>)
    ensures
        points_len <= ignore_recent ==> r is None,
        points_len > ignore_recent ==> r == Some((points_len - ignore_recent) as usize),
{
    if points_len <= ignore_recent {
        None
    } else {
        Some(points_len - ignore_recent)
    }
}

} // verus!

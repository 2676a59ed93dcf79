//! Where the scenery of the track goes: streetlights, pillars, cat's eyes
//! and guard rails are placed by the index of the track point they stand at.

use vstd::prelude::*;

verus! {

/// Marks everything that belongs to the playback scene, so that leaving the
/// screen can remove it all.
#[derive(Debug, Clone, Copy, PartialEq, Eq)]
pub struct MainScene;

/// Side of the track, relative to its direction of travel.
#[derive(Debug, Clone, Copy, PartialEq, Eq)]
pub enum Side {
    /// Along the track's right vector.
    Right,
    /// Against the track's right vector.
    Left,
}

/// Streetlights stand at every fourth point of the evenly spaced track,
/// alternating between the right and the left side.
pub fn streetlight_side(i: usize) -> (r: Option<Side>)
    ensures
        r == if i % 4 != 0 {
            None
        } else if i % 8 == 0 {
            Some(Side::Right)
        } else {
            Some(Side::Left)
        },
{
    if i % 4 != 0 {
        None
    } else if i % 8 == 0 {
        Some(Side::Right)
    } else {
        Some(Side::Left)
    }
}

/// A pillar holds up the track under every other streetlight, unless the
/// track runs above an earlier stretch of itself there.
pub fn has_pillar(i: usize, above_other_track: bool) -> (r: bool)
    ensures
        r == (i % 4 == 0 && !above_other_track && i % 8 == 0),
{
    i % 4 == 0 && !above_other_track && i % 8 == 0
}

/// Which pair of cat's eyes sits at a track point.
#[derive(Debug, Clone, Copy, PartialEq, Eq)]
pub enum CateyeRow {
    /// The pair between the lanes.
    Inner,
    /// The pair at the edges of the road.
    Outer,
}

/// Cat's eyes start after the first 30 points of the evenly spaced track;
/// every 40 points there is an inner pair, and 20 points after it an outer
/// pair.
pub fn cateye_row(i: usize) -> (r: Option<CateyeRow>)
    requires
        i + 30 <= usize::MAX,
    ensures
        r == if i < 30 {
            None
        } else if (10 + i) % 40 == 0 {
            Some(CateyeRow::Inner)
        } else if (30 + i) % 40 == 0 {
            Some(CateyeRow::Outer)
        } else {
            None
        },
{
    if i < 30 {
        None
    } else if (10 + i) % 40 == 0 {
        Some(CateyeRow::Inner)
    } else if (30 + i) % 40 == 0 {
        Some(CateyeRow::Outer)
    } else {
        None
    }
}

/// Of the meshes of one guard rail, the even ones are the lit bands, each
/// numbered by its order; the odd ones are plain concrete.
pub fn guard_rail_band(i: usize) -> (r: Option<usize>)
    ensures
        r == if i % 2 == 0 {
            Some((i / 2) as usize)
        } else {
            None::<usize>
        },
{
    if i % 2 == 0 {
        Some(i / 2)
    } else {
        None
    }
}

/// The three materials of the lit bands take turns.
pub fn rail_material_index(band: usize) -> (r: usize)
    ensures
        r == band % 3,
        r < 3,
{
    band % 3
}

} // verus!

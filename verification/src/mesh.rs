//! Index bookkeeping of the track meshes: how a profile swept along the
//! track is stitched into triangles, where the dashes of a lane line fall,
//! how dash meshes are merged, and which track points a spline sample reads.

use vstd::prelude::*;

use crate::framing::{frame_start, is_frame_count, window_bounds};

verus! {

// ---------------------------------------------------------------------------
// Triangle strips
// ---------------------------------------------------------------------------

/// Vertex `t` (0 to 5) of the two triangles that join profile vertex `j` of
/// ring `i` to the next ring, when every ring has `s` vertices: the
/// triangles are (a, b, c) and (b, d, c), where a is vertex `j` of ring `i`,
/// b the next vertex of that ring, c and d the same two vertices of ring
/// `i + 1`.
pub open spec fn quad_corner(i: int, j: int, s: int, t: int) -> int {
    let a = i * s + j;
    if t == 0 {
        a
    } else if t == 1 {
        a + 1
    } else if t == 2 {
        a + s
    } else if t == 3 {
        a + 1
    } else if t == 4 {
        a + s + 1
    } else {
        a + s
    }
}

/// Place in the index buffer of corner `t` of the quad at ring `i`, profile
/// vertex `j`, when every ring has `s` vertices: quads are laid out ring by
/// ring, six indices each.
pub open spec fn quad_slot(i: int, j: int, s: int, t: int) -> int {
    6 * (i * (s - 1) + j) + t
}

proof fn lemma_quad_before(i0: int, j0: int, i: int, s: int)
    requires
        0 <= i0 < i,
        0 <= j0 < s - 1,
    ensures
        i0 * (s - 1) + j0 < i * (s - 1),
{
    assert(i0 * (s - 1) + (s - 1) <= i * (s - 1)) by (nonlinear_arith)
        requires
            i0 + 1 <= i,
            0 <= s - 1,
    ;
}

proof fn lemma_corner_bound(i: int, j: int, rows: int, s: int)
    requires
        0 <= i <= rows - 2,
        0 <= j <= s - 2,
    ensures
        0 <= i * s + j,
        i * s + j + s + 1 <= rows * s - 1,
{
    assert(0 <= i * s) by (nonlinear_arith)
        requires
            0 <= i,
            0 <= s,
    ;
    assert(i * s + s <= (rows - 1) * s) by (nonlinear_arith)
        requires
            i + 1 <= rows - 1,
            0 <= s,
    ;
    assert((rows - 1) * s == rows * s - s) by (nonlinear_arith);
}

/// Every quad is stitched the same way, whatever its ring: with
/// `a = i * s + j`, its six indices are `a, a + 1, a + s` (the first
/// triangle) and `a + 1, a + s + 1, a + s` (the second), so all triangles
/// share one winding; and the quads of the index buffer follow one another
/// ring by ring, six places each.
pub proof fn lemma_strip_quad_layout(i: int, j: int, s: int)
    ensures
        quad_corner(i, j, s, 0) == i * s + j,
        quad_corner(i, j, s, 1) == i * s + j + 1,
        quad_corner(i, j, s, 2) == i * s + j + s,
        quad_corner(i, j, s, 3) == i * s + j + 1,
        quad_corner(i, j, s, 4) == i * s + j + s + 1,
        quad_corner(i, j, s, 5) == i * s + j + s,
        forall|t: int| 0 <= t < 6 ==> #[trigger] quad_slot(i, j, s, t) == 6 * (i * (s - 1) + j) + t,
{
}

/// The quads of ring `i + 1` are those of ring `i` moved up by one ring of
/// `s` vertices: each triangle keeps its winding from ring to ring.
pub proof fn lemma_strip_rings_alike(i: int, j: int, s: int, t: int)
    ensures
        quad_corner(i + 1, j, s, t) == quad_corner(i, j, s, t) + s,
{
    assert((i + 1) * s == i * s + s) by (nonlinear_arith);
}

/// The triangle indices that stitch `rows` rings of `shape_len` vertices
/// each, laid out ring after ring, into a surface: for each pair of
/// neighbouring rings and each pair of neighbouring profile vertices, two
/// triangles.
pub fn triangle_strip_indices(rows: usize, shape_len: usize) -> (r: Vec<u32>)
    requires
        rows >= 1,
        rows == 1 || shape_len >= 1,
        rows * shape_len <= u32::MAX + 1,
    ensures
        r.len() == 6 * (rows - 1) * (shape_len - 1),
        forall|i: int, j: int, t: int|
            0 <= i < rows - 1 && 0 <= j < shape_len - 1 && 0 <= t < 6 ==> #[trigger] r@[quad_slot(
                i,
                j,
                shape_len as int,
                t,
            )] as int == quad_corner(i, j, shape_len as int, t),
{
    let ghost s = shape_len as int;
    let mut r: Vec<u32> = Vec::new();
    let mut i: usize = 0;
    assert(0 * (s - 1) == 0) by (nonlinear_arith);
    while i < rows - 1
        invariant
            rows >= 1,
            rows == 1 || shape_len >= 1,
            s == shape_len,
            rows * shape_len <= u32::MAX + 1,
            i <= rows - 1,
            r.len() == 6 * (i * (s - 1)),
            forall|i0: int, j0: int, t: int|
                0 <= i0 < i && 0 <= j0 < s - 1 && 0 <= t < 6 ==> #[trigger] r@[quad_slot(
                    i0,
                    j0,
                    s,
                    t,
                )] as int == quad_corner(i0, j0, s, t),
        decreases rows - 1 - i,
    {
        proof {
            assert(shape_len <= u32::MAX) by (nonlinear_arith)
                requires
                    rows >= 2,
                    rows * shape_len <= u32::MAX + 1,
            ;
            if shape_len >= 2 {
                lemma_corner_bound(i as int, 0, rows as int, s);
            }
        }
        let mut j: usize = 0;
        while j < shape_len - 1
            invariant
                rows >= 2,
                shape_len >= 1,
                shape_len <= u32::MAX,
                s == shape_len,
                rows * shape_len <= u32::MAX + 1,
                i < rows - 1,
                j <= shape_len - 1,
                r.len() == 6 * (i * (s - 1) + j),
                forall|i0: int, j0: int, t: int|
                    0 <= i0 < i && 0 <= j0 < s - 1 && 0 <= t < 6 ==> #[trigger] r@[quad_slot(
                        i0,
                        j0,
                        s,
                        t,
                    )] as int == quad_corner(i0, j0, s, t),
                forall|j0: int, t: int|
                    0 <= j0 < j && 0 <= t < 6 ==> #[trigger] r@[quad_slot(i as int, j0, s, t)] as int
                        == quad_corner(i as int, j0, s, t),
            decreases shape_len - 1 - j,
        {
            proof {
                lemma_corner_bound(i as int, j as int, rows as int, s);
            }
            let row = i * shape_len;
            let a = (row + j) as u32;
            let b = a + 1;
            let c = a + shape_len as u32;
            let d = c + 1;
            let ghost before = r@;
            r.push(a);
            r.push(b);
            r.push(c);
            r.push(b);
            r.push(d);
            r.push(c);
            proof {
                let q = i * (s - 1) + j;
                assert(r@.subrange(0, 6 * q) =~= before);
                assert forall|i0: int, j0: int, t: int|
                    0 <= i0 < i && 0 <= j0 < s - 1 && 0 <= t < 6 implies #[trigger] r@[quad_slot(
                        i0,
                        j0,
                        s,
                        t,
                    )] as int == quad_corner(i0, j0, s, t) by {
                    lemma_quad_before(i0, j0, i as int, s);
                    assert(r@[quad_slot(i0, j0, s, t)] == before[quad_slot(i0, j0, s, t)]);
                }
                assert forall|j0: int, t: int|
                    0 <= j0 < j + 1 && 0 <= t < 6 implies #[trigger] r@[quad_slot(
                        i as int,
                        j0,
                        s,
                        t,
                    )] as int == quad_corner(i as int, j0, s, t) by {
                    if j0 < j {
                        assert(r@[quad_slot(i as int, j0, s, t)] == before[quad_slot(
                            i as int,
                            j0,
                            s,
                            t,
                        )]);
                    }
                }
            }
            j = j + 1;
        }
        proof {
            assert((i + 1) * (s - 1) == i * (s - 1) + (s - 1)) by (nonlinear_arith);
        }
        i = i + 1;
    }
    proof {
        assert(6 * ((rows - 1) * (s - 1)) == 6 * (rows - 1) * (s - 1)) by (nonlinear_arith);
    }
    r
}

/// Every index of a strip names a vertex of the swept surface: it lies below
/// the number of vertices, `rows * s`.
pub proof fn lemma_strip_indices_in_range(rows: int, s: int, i: int, j: int, t: int)
    requires
        rows >= 1,
        s >= 1,
        0 <= i < rows - 1,
        0 <= j < s - 1,
        0 <= t < 6,
    ensures
        0 <= quad_corner(i, j, s, t) < rows * s,
{
    lemma_corner_bound(i, j, rows, s);
}

// ---------------------------------------------------------------------------
// Lane line dashes
// ---------------------------------------------------------------------------

/// The dashes among the first `n` candidate windows: a window of `d` track
/// points starts every `p` points, and it becomes a dash when it still spans
/// at least two points after being cut at the end of the track.
pub open spec fn dash_windows(n: nat, len: nat, d: nat, p: nat) -> Seq<(usize, usize)>
    decreases n,
{
    if n == 0 {
        seq![]
    } else {
        let rest = dash_windows((n - 1) as nat, len, d, p);
        let w = window_bounds((n - 1) as nat, len, d, p);
        if w.1 - w.0 >= 2 {
            rest.push(w)
        } else {
            rest
        }
    }
}

/// Every dash that starts on the track can be measured without leaving
/// `usize`.
pub open spec fn dashes_fit(len: nat, d: nat, p: nat) -> bool {
    forall|k: nat| #[trigger] frame_start(k, p) < len ==> frame_start(k, p) + d <= usize::MAX
}

proof fn lemma_frame_start_next(k: nat, p: nat)
    ensures
        frame_start(k + 1, p) == frame_start(k, p) + p,
{
    assert((k + 1) * p == k * p + p) by (nonlinear_arith);
}

/// The track point ranges of the dashes of a lane line along a track of
/// `len` points: a dash spans `dash_length` points and is followed by a gap
/// of `dash_spacing` points; a dash cut short at the end of the track is kept
/// only if it still spans two points.
pub fn dash_ranges(len: usize, dash_length: usize, dash_spacing: usize) -> (r: Vec<(usize, usize)>)
    requires
        dash_length > 0,
        dash_length + dash_spacing <= usize::MAX,
        dashes_fit(len as nat, dash_length as nat, (dash_length + dash_spacing) as nat),
    ensures
        exists|n: nat|
            is_frame_count(n, len as nat, (dash_length + dash_spacing) as nat) && r@
                == #[trigger] dash_windows(n, len as nat, dash_length as nat, (dash_length + dash_spacing) as nat),
{
    let period = dash_length + dash_spacing;
    let ghost p = period as nat;
    let ghost d = dash_length as nat;
    let mut r: Vec<(usize, usize)> = Vec::new();
    let mut start: usize = 0;
    let ghost mut k: nat = 0;
    assert(frame_start(0, p) == 0) by (nonlinear_arith);
    while start < len
        invariant
            period == dash_length + dash_spacing,
            p == period,
            d == dash_length,
            p >= 1,
            dashes_fit(len as nat, d, p),
            start as nat == if frame_start(k, p) <= usize::MAX {
                frame_start(k, p)
            } else {
                usize::MAX as nat
            },
            k == 0 || frame_start((k - 1) as nat, p) < len,
            r@ == dash_windows(k, len as nat, d, p),
        decreases usize::MAX - start,
    {
        proof {
            assert(frame_start(k, p) < len);
            lemma_frame_start_next(k, p);
        }
        let end = if start + dash_length <= len {
            start + dash_length
        } else {
            len
        };
        if end - start >= 2 {
            r.push((start, end));
        }
        start = start.saturating_add(period);
        proof {
            k = k + 1;
        }
    }
    r
}

proof fn lemma_frame_start_monotone(a: nat, b: nat, p: nat)
    requires
        a <= b,
    ensures
        frame_start(a, p) <= frame_start(b, p),
{
    assert(a * p <= b * p) by (nonlinear_arith)
        requires
            a <= b,
    ;
}

/// The dashes of a lane line lie on the track, each spans at least two and
/// at most `d` points, and they follow one another without overlapping.
pub proof fn lemma_dashes_well_formed(n: nat, len: nat, d: nat, p: nat)
    requires
        p >= d,
        len <= usize::MAX,
        n == 0 || frame_start((n - 1) as nat, p) < len,
    ensures
        forall|i: int|
            0 <= i < dash_windows(n, len, d, p).len() ==> {
                let w = #[trigger] dash_windows(n, len, d, p)[i];
                &&& w.0 + 2 <= w.1
                &&& w.1 <= len
                &&& w.1 - w.0 <= d
                &&& w.1 <= frame_start(n, p)
            },
        forall|i: int, j: int|
            0 <= i < j < dash_windows(n, len, d, p).len() ==> (#[trigger] dash_windows(
                n,
                len,
                d,
                p,
            )[i]).1 <= (#[trigger] dash_windows(n, len, d, p)[j]).0,
    decreases n,
{
    if n > 0 {
        let m = (n - 1) as nat;
        if m > 0 {
            lemma_frame_start_monotone((m - 1) as nat, m, p);
        }
        lemma_dashes_well_formed(m, len, d, p);
        lemma_frame_start_next(m, p);
        lemma_frame_start_monotone(m, n, p);
        let rest = dash_windows(m, len, d, p);
        let w = window_bounds(m, len, d, p);
        let all = dash_windows(n, len, d, p);
        assert forall|i: int| 0 <= i < all.len() implies {
            let v = #[trigger] all[i];
            &&& v.0 + 2 <= v.1
            &&& v.1 <= len
            &&& v.1 - v.0 <= d
            &&& v.1 <= frame_start(n, p)
        } by {
            if i < rest.len() {
                assert(all[i] == rest[i]);
            } else {
                assert(all[i] == w);
            }
        }
        assert forall|i: int, j: int| 0 <= i < j < all.len() implies (#[trigger] all[i]).1 <= (
        #[trigger] all[j]).0 by {
            assert(all[i] == rest[i]);
            if j < rest.len() {
                assert(all[j] == rest[j]);
            } else {
                assert(all[j] == w);
                assert(rest[i].1 <= frame_start(m, p));
            }
        }
    }
}

/// Appends the indices of one dash mesh to the merged index buffer, shifted
/// by the number of vertices already merged.
pub fn append_offset_indices(dst: &mut Vec<u32>, src: &Vec<u32>, offset: u32)
    requires
        forall|i: int| 0 <= i < src.len() ==> #[trigger] src@[i] + offset <= u32::MAX,
    ensures
        final(dst).len() == old(dst).len() + src.len(),
        final(dst)@.subrange(0, old(dst).len() as int) == old(dst)@,
        forall|i: int|
            0 <= i < src.len() ==> final(dst)@[old(dst).len() + i] == #[trigger] src@[i] + offset,
{
    let ghost start = dst@;
    let mut i: usize = 0;
    while i < src.len()
        invariant
            i <= src.len(),
            forall|m: int| 0 <= m < src.len() ==> #[trigger] src@[m] + offset <= u32::MAX,
            dst.len() == start.len() + i,
            dst@.subrange(0, start.len() as int) == start,
            forall|m: int| 0 <= m < i ==> dst@[start.len() + m] == #[trigger] src@[m] + offset,
        decreases src.len() - i,
    {
        let ghost before = dst@;
        dst.push(src[i] + offset);
        proof {
            assert(dst@.subrange(0, start.len() as int) =~= before.subrange(0, start.len() as int));
        }
        i = i + 1;
    }
}

// ---------------------------------------------------------------------------
// Spline sampling
// ---------------------------------------------------------------------------

/// The four track points that a Catmull-Rom sample at segment `i` reads:
/// the points at `i - 1`, `i`, `i + 1` and `i + 2`, each held inside the
/// track.
pub fn catmull_rom_indices(i: usize, len: usize) -> (r: (usize, usize, usize, usize))
    requires
        len > 0,
        i + 2 <= usize::MAX,
    ensures
        r.0 == if i == 0 { 0 } else if i - 1 <= len - 1 { (i - 1) as usize } else { (len - 1) as usize },
        r.1 == if i <= len - 1 { i } else { (len - 1) as usize },
        r.2 == if i + 1 <= len - 1 { (i + 1) as usize } else { (len - 1) as usize },
        r.3 == if i + 2 <= len - 1 { (i + 2) as usize } else { (len - 1) as usize },
        r.0 <= r.1 <= r.2 <= r.3 < len,
{
    let last = len - 1;
    let prev = if i == 0 { 0 } else { i - 1 };
    let i0 = if prev <= last { prev } else { last };
    let i1 = if i <= last { i } else { last };
    let i2 = if i + 1 <= last { i + 1 } else { last };
    let i3 = if i + 2 <= last { i + 2 } else { last };
    (i0, i1, i2, i3)
}

} // verus!

//! General properties of the visibility computation, stated and proved
//! over the declarative description that every computation of the library
//! is proved to satisfy.

use vstd::prelude::*;

verus! {

use crate::bresenham::{
    line_seq, iabs, walk, minor_offset, lemma_minor_offset_bounds, lemma_minor_offset_monotonic,
};
use crate::fov::{
    VisionMap, fov_visible, swept, promoted, ray_marks, dist2, axis_max, degenerate_window,
    on_perimeter,
};

/// The origin of a computation is always visible, whatever the radius and
/// the transparency data.
pub proof fn lemma_origin_always_visible<M: VisionMap>(map: &M, ox: int, oy: int, r: int)
    ensures
        fov_visible(map, ox, oy, r, ox, oy),
{
}

/// With a radius below one, exactly the origin is visible.
pub proof fn lemma_radius_below_one_sees_only_origin<M: VisionMap>(
    map: &M,
    ox: int,
    oy: int,
    r: int,
    cx: int,
    cy: int,
)
    requires
        r < 1,
    ensures
        fov_visible(map, ox, oy, r, cx, cy) <==> (cx == ox && cy == oy),
{
}

/// A single opaque wall cell directly between the origin and a farther
/// transparent cell on the same row hides that farther cell, while the
/// wall itself is visible whenever it lies within the radius: no digital
/// ray reaches the farther cell without passing through the wall first.
pub proof fn lemma_row_occlusion<M: VisionMap>(
    map: &M,
    ox: int,
    oy: int,
    r: int,
    wx: int,
    cx: int,
)
    requires
        r >= 1,
        0 <= ox < map.spec_width(),
        0 <= oy < map.spec_height(),
        !degenerate_window(map.spec_width(), map.spec_height(), ox, oy, r),
        ox < wx < cx,
        cx <= axis_max(map.spec_width(), ox, r),
        !map.spec_transparent(wx, oy),
        forall|k: int| ox < k < wx ==> map.spec_transparent(k, oy),
        map.spec_transparent(cx, oy),
    ensures
        !fov_visible(map, ox, oy, r, cx, oy),
        dist2(ox, oy, wx, oy) <= r * r ==> fov_visible(map, ox, oy, r, wx, oy),
{
    let w = map.spec_width();
    let h = map.spec_height();
    let maxx = axis_max(w, ox, r);
    // The farther cell is not swept: any ray through it runs along the row
    // and crosses the wall first.
    if swept(map, ox, oy, r, cx, oy) {
        assert(!(cx == ox && oy == oy && cx == ox));
        let (px, py) = choose|px: int, py: int|
            #[trigger] on_perimeter(w, h, ox, oy, r, px, py) && ray_marks(
                map, ox, oy, r * r, px, py, cx, oy,
            );
        let l = line_seq((ox, oy), (px, py));
        let n = l.len() as int;
        let j = choose|j: int|
            1 <= j < n && #[trigger] l[j] == (cx, oy) && (forall|k: int|
                1 <= k < j ==> map.spec_transparent((#[trigger] l[k]).0, l[k].1));
        let dx = px - ox;
        let dy = py - oy;
        let adx = iabs(dx);
        let ady = iabs(dy);
        if adx >= ady {
            if adx == 0 {
                assert(l[j] == (ox, oy));
                assert(false);
            } else {
                // x-major: the walk steps one column per cell, so the cell
                // at the wall's column comes first and lies on the row.
                assert(l[j] == (walk(ox, dx, j), walk(oy, dy, minor_offset(adx, ady, j))));
                lemma_minor_offset_bounds(adx, ady, j);
                assert(walk(ox, dx, j) == cx);
                assert(dx >= 0);
                assert(j == cx - ox);
                assert(minor_offset(adx, ady, j) == 0);
                let k = wx - ox;
                lemma_minor_offset_bounds(adx, ady, k);
                lemma_minor_offset_monotonic(adx, ady, k, j);
                assert(minor_offset(adx, ady, k) == 0);
                assert(l[k] == (wx, oy));
                assert(map.spec_transparent(wx, oy));
                assert(false);
            }
        } else {
            // y-major: the walk steps one row per cell, so only the origin
            // lies on the origin's row.
            assert(l[j] == (walk(ox, dx, minor_offset(ady, adx, j)), walk(oy, dy, j)));
            assert(walk(oy, dy, j) == oy);
            assert(j == 0);
            assert(false);
        }
    }
    // Not promoted either: the farther cell is transparent.
    assert(!promoted(map, ox, oy, r, cx, oy));
    // The wall is swept through the clear run of the row, whenever it lies
    // within the radius.
    if dist2(ox, oy, wx, oy) <= r * r {
        let p = (maxx, oy);
        assert(on_perimeter(w, h, ox, oy, r, maxx, oy));
        let l = line_seq((ox, oy), p);
        let n = l.len() as int;
        assert(n == 1 + (maxx - ox));
        let j = wx - ox;
        assert forall|i: int| 0 <= i < n implies #[trigger] l[i] == (ox + i, oy) by {
            crate::bresenham::lemma_line_horizontal((ox, oy), p, i);
        };
        assert(l[j] == (wx, oy));
        assert forall|k: int| 1 <= k < j implies map.spec_transparent((#[trigger] l[k]).0, l[k].1) by {
            assert(l[k] == (ox + k, oy));
        };
        assert(1 <= j < n && l[j] == (wx, oy) && (forall|k: int|
            1 <= k < j ==> map.spec_transparent((#[trigger] l[k]).0, l[k].1)));
        assert(ray_marks(map, ox, oy, r * r, maxx, oy, wx, oy));
        assert(swept(map, ox, oy, r, wx, oy));
    }
}


/// The column counterpart of `lemma_row_occlusion`: a single opaque wall
/// cell directly below the origin hides every farther transparent cell of
/// the same column, while the wall itself is visible whenever it lies
/// within the radius.
pub proof fn lemma_column_occlusion<M: VisionMap>(
    map: &M,
    ox: int,
    oy: int,
    r: int,
    wy: int,
    cy: int,
)
    requires
        r >= 1,
        0 <= ox < map.spec_width(),
        0 <= oy < map.spec_height(),
        !degenerate_window(map.spec_width(), map.spec_height(), ox, oy, r),
        oy < wy < cy,
        cy <= axis_max(map.spec_height(), oy, r),
        !map.spec_transparent(ox, wy),
        forall|k: int| oy < k < wy ==> map.spec_transparent(ox, k),
        map.spec_transparent(ox, cy),
    ensures
        !fov_visible(map, ox, oy, r, ox, cy),
        dist2(ox, oy, ox, wy) <= r * r ==> fov_visible(map, ox, oy, r, ox, wy),
{
    let w = map.spec_width();
    let h = map.spec_height();
    let maxy = axis_max(h, oy, r);
    // The farther cell is not swept: any ray through it runs along the
    // column and crosses the wall first.
    if swept(map, ox, oy, r, ox, cy) {
        let (px, py) = choose|px: int, py: int|
            #[trigger] on_perimeter(w, h, ox, oy, r, px, py) && ray_marks(
                map, ox, oy, r * r, px, py, ox, cy,
            );
        let l = line_seq((ox, oy), (px, py));
        let n = l.len() as int;
        let j = choose|j: int|
            1 <= j < n && #[trigger] l[j] == (ox, cy) && (forall|k: int|
                1 <= k < j ==> map.spec_transparent((#[trigger] l[k]).0, l[k].1));
        let dx = px - ox;
        let dy = py - oy;
        let adx = iabs(dx);
        let ady = iabs(dy);
        if adx >= ady {
            if adx == 0 {
                assert(l[j] == (ox, oy));
                assert(false);
            } else {
                // x-major: the walk steps one column per cell, so only the
                // origin lies on the origin's column.
                assert(l[j] == (walk(ox, dx, j), walk(oy, dy, minor_offset(adx, ady, j))));
                assert(walk(ox, dx, j) == ox);
                assert(j == 0);
                assert(false);
            }
        } else {
            // y-major: the walk steps one row per cell, so the cell at the
            // wall's row comes first and lies on the column.
            assert(l[j] == (walk(ox, dx, minor_offset(ady, adx, j)), walk(oy, dy, j)));
            lemma_minor_offset_bounds(ady, adx, j);
            assert(walk(oy, dy, j) == cy);
            assert(dy >= 0);
            assert(j == cy - oy);
            assert(minor_offset(ady, adx, j) == 0);
            let k = wy - oy;
            lemma_minor_offset_bounds(ady, adx, k);
            lemma_minor_offset_monotonic(ady, adx, k, j);
            assert(minor_offset(ady, adx, k) == 0);
            assert(l[k] == (ox, wy));
            assert(map.spec_transparent(ox, wy));
            assert(false);
        }
    }
    // Not promoted either: the farther cell is transparent.
    assert(!promoted(map, ox, oy, r, ox, cy));
    // The wall is swept through the clear run of the column, whenever it
    // lies within the radius.
    if dist2(ox, oy, ox, wy) <= r * r {
        let p = (ox, maxy);
        assert(on_perimeter(w, h, ox, oy, r, ox, maxy));
        let l = line_seq((ox, oy), p);
        let n = l.len() as int;
        assert(n == 1 + (maxy - oy));
        let j = wy - oy;
        assert forall|i: int| 0 <= i < n implies #[trigger] l[i] == (ox, oy + i) by {
            crate::bresenham::lemma_line_vertical((ox, oy), p, i);
        };
        assert(l[j] == (ox, wy));
        assert forall|k: int| 1 <= k < j implies map.spec_transparent((#[trigger] l[k]).0, l[k].1) by {
            assert(l[k] == (ox, oy + k));
        };
        assert(1 <= j < n && l[j] == (ox, wy) && (forall|k: int|
            1 <= k < j ==> map.spec_transparent((#[trigger] l[k]).0, l[k].1)));
        assert(ray_marks(map, ox, oy, r * r, ox, maxy, ox, wy));
        assert(swept(map, ox, oy, r, ox, wy));
    }
}

} // verus!

//! The visibility sweep and its mathematical description.
//!
//! A computation at origin `(ox, oy)` with radius `r` works inside the
//! bounding square of the radius clipped to the grid (the window).  A cell is
//! *swept* visible when some digital ray from the origin to a cell of the
//! window's perimeter reaches it through transparent cells only and it lies
//! within the radius; opaque cells stop a ray right after being marked.  A
//! single post-processing pass per quadrant then *promotes* an opaque,
//! still-invisible cell when one of its two neighbors toward the origin is
//! transparent and swept visible.  `fov_visible` states the end result; every
//! computation of the library is proved to produce exactly the cells it
//! describes.

use vstd::prelude::*;

verus! {

use vstd::arithmetic::div_mod::{
    lemma_fundamental_div_mod, lemma_fundamental_div_mod_converse, lemma_mod_division_less_than_divisor,
    lemma_div_pos_is_pos, lemma_multiply_divide_lt,
};
use crate::bresenham::{line_seq, lemma_line_in_box, line_points};

/// A read-only transparency source: the capability the sweep consumes.
///
/// `spec_width`, `spec_height` and `spec_transparent` are the mathematical
/// content of an implementation; the two methods must agree with them.
pub trait VisionMap {
    /// The validity condition the map maintains; `is_transparent` may only
    /// be called on a valid map.
    spec fn wf(&self) -> bool;

    /// The width the map reports.
    spec fn spec_width(&self) -> int;

    /// The height the map reports.
    spec fn spec_height(&self) -> int;

    /// Whether the cell at `(x, y)` lets sight through.
    spec fn spec_transparent(&self, x: int, y: int) -> bool;

    /// Width and height of the map.
    fn dimensions(&self) -> (r: (i32, i32))
        ensures
            r.0 as int == self.spec_width(),
            r.1 as int == self.spec_height(),
    ;

    /// Whether the cell at `(x, y)` lets sight through.
    fn is_transparent(&self, x: i32, y: i32) -> (r: bool)
        requires
            self.wf(),
            0 <= x as int && (x as int) < self.spec_width(),
            0 <= y as int && (y as int) < self.spec_height(),
        ensures
            r == self.spec_transparent(x as int, y as int),
    ;
}

/// Squared Euclidean distance between two cells.
pub open spec fn dist2(ax: int, ay: int, bx: int, by: int) -> int {
    (bx - ax) * (bx - ax) + (by - ay) * (by - ay)
}

/// Lower edge of the window on one axis: the origin coordinate minus the
/// radius, clipped to the grid.
pub open spec fn axis_min(o: int, r: int) -> int {
    if o - r > 0 {
        o - r
    } else {
        0
    }
}

/// Upper edge of the window on one axis.
pub open spec fn axis_max(limit: int, o: int, r: int) -> int {
    if o + r < limit - 1 {
        o + r
    } else {
        limit - 1
    }
}

/// Whether the window has zero extent on some axis, in which case the sweep
/// has nothing to check beyond the origin.
pub open spec fn degenerate_window(w: int, h: int, ox: int, oy: int, r: int) -> bool {
    axis_max(w, ox, r) - axis_min(ox, r) == 0 || axis_max(h, oy, r) - axis_min(oy, r) == 0
}

/// Whether `(cx, cy)` lies within the window of a computation at `(ox, oy)`
/// with radius `r` on a `w` by `h` grid.
pub open spec fn in_window(w: int, h: int, ox: int, oy: int, r: int, cx: int, cy: int) -> bool {
    axis_min(ox, r) <= cx <= axis_max(w, ox, r) && axis_min(oy, r) <= cy <= axis_max(h, oy, r)
}

/// Whether `(px, py)` lies on the border of the window: the target set of the
/// perimeter rays.
pub open spec fn on_perimeter(w: int, h: int, ox: int, oy: int, r: int, px: int, py: int) -> bool {
    let minx = axis_min(ox, r);
    let maxx = axis_max(w, ox, r);
    let miny = axis_min(oy, r);
    let maxy = axis_max(h, oy, r);
    ((py == miny || py == maxy) && minx <= px <= maxx) || ((px == minx || px == maxx) && miny <= py
        <= maxy)
}

/// Whether the ray cast from `(ox, oy)` toward `(px, py)` marks `(cx, cy)`
/// among its first `n` cells: the walk reaches the cell through transparent
/// cells only (the origin's own transparency plays no role), and the cell
/// lies within the radius (`rsq` of `0` disables the radius check).
pub open spec fn ray_marks_upto<M: VisionMap>(
    map: &M,
    ox: int,
    oy: int,
    rsq: int,
    px: int,
    py: int,
    n: int,
    cx: int,
    cy: int,
) -> bool {
    let l = line_seq((ox, oy), (px, py));
    (dist2(ox, oy, cx, cy) <= rsq || rsq == 0) && exists|j: int|
        1 <= j < n && #[trigger] l[j] == (cx, cy) && (forall|k: int|
            1 <= k < j ==> map.spec_transparent((#[trigger] l[k]).0, l[k].1))
}

/// Whether the full ray cast from `(ox, oy)` toward `(px, py)` marks
/// `(cx, cy)`.
pub open spec fn ray_marks<M: VisionMap>(
    map: &M,
    ox: int,
    oy: int,
    rsq: int,
    px: int,
    py: int,
    cx: int,
    cy: int,
) -> bool {
    ray_marks_upto(map, ox, oy, rsq, px, py, line_seq((ox, oy), (px, py)).len() as int, cx, cy)
}

/// Whether the perimeter-ray sweep at `(ox, oy)` with radius `r` marks
/// `(cx, cy)` visible: the origin always is; any other cell is visible when
/// some perimeter ray marks it.
pub open spec fn swept<M: VisionMap>(map: &M, ox: int, oy: int, r: int, cx: int, cy: int) -> bool {
    let w = map.spec_width();
    let h = map.spec_height();
    (cx == ox && cy == oy) || (r >= 1 && !degenerate_window(w, h, ox, oy, r) && exists|
        px: int,
        py: int,
    |
        #[trigger] on_perimeter(w, h, ox, oy, r, px, py) && ray_marks(
            map,
            ox,
            oy,
            r * r,
            px,
            py,
            cx,
            cy,
        ))
}

/// The neighbor coordinate one step back toward the origin.
pub open spec fn toward(c: int, o: int) -> int {
    if c > o {
        c - 1
    } else {
        c + 1
    }
}

/// Whether the post-processing pass promotes `(cx, cy)`: an opaque cell of
/// the window sharing no axis with the origin, not swept visible, one of
/// whose two neighbors toward the origin is transparent and swept visible.
pub open spec fn promoted<M: VisionMap>(map: &M, ox: int, oy: int, r: int, cx: int, cy: int) -> bool {
    let w = map.spec_width();
    let h = map.spec_height();
    let nx = toward(cx, ox);
    let ny = toward(cy, oy);
    r >= 1 && !degenerate_window(w, h, ox, oy, r) && in_window(w, h, ox, oy, r, cx, cy) && cx != ox
        && cy != oy && !map.spec_transparent(cx, cy) && !swept(map, ox, oy, r, cx, cy) && ((
    map.spec_transparent(nx, cy) && swept(map, ox, oy, r, nx, cy)) || (map.spec_transparent(cx, ny)
        && swept(map, ox, oy, r, cx, ny)))
}

/// Whether a computation at `(ox, oy)` with radius `r` leaves `(cx, cy)`
/// visible: swept by a perimeter ray, or promoted by the post-processing
/// pass.
pub open spec fn fov_visible<M: VisionMap>(
    map: &M,
    ox: int,
    oy: int,
    r: int,
    cx: int,
    cy: int,
) -> bool {
    swept(map, ox, oy, r, cx, cy) || promoted(map, ox, oy, r, cx, cy)
}

/// Index of the cell `(cx, cy)` in a row-major buffer over the rectangle
/// whose lower corner is `(minx, miny)` and whose width is `subw`.
pub open spec fn lidx(minx: int, miny: int, subw: int, cx: int, cy: int) -> int {
    (cx - minx) + (cy - miny) * subw
}

/// The cell of that rectangle stored at buffer index `li`.
pub open spec fn cell_at(minx: int, miny: int, subw: int, li: int) -> (int, int) {
    (minx + li % subw, miny + li / subw)
}

/// Row-major indexing is a bijection between the rectangle and the buffer
/// range: the index of a cell is in range and maps back to the cell.
pub proof fn lemma_lidx_bijective(minx: int, miny: int, subw: int, subh: int, cx: int, cy: int)
    requires
        1 <= subw,
        1 <= subh,
        minx <= cx < minx + subw,
        miny <= cy < miny + subh,
    ensures
        0 <= lidx(minx, miny, subw, cx, cy) < subw * subh,
        cell_at(minx, miny, subw, lidx(minx, miny, subw, cx, cy)) == (cx, cy),
{
    let li = lidx(minx, miny, subw, cx, cy);
    assert(li == (cy - miny) * subw + (cx - minx));
    lemma_fundamental_div_mod_converse(li, subw, cy - miny, cx - minx);
    assert(0 <= (cy - miny) * subw) by (nonlinear_arith)
        requires
            0 <= cy - miny,
            0 <= subw,
    ;
    assert((cy - miny) * subw + (cx - minx) < subw * subh) by (nonlinear_arith)
        requires
            cy - miny <= subh - 1,
            0 <= cx - minx < subw,
            1 <= subw,
    ;
}

/// The cell stored at a valid buffer index lies in the rectangle, and its
/// index is that buffer index.
pub proof fn lemma_cell_at_bijective(minx: int, miny: int, subw: int, subh: int, li: int)
    requires
        1 <= subw,
        1 <= subh,
        0 <= li < subw * subh,
    ensures
        minx <= cell_at(minx, miny, subw, li).0 < minx + subw,
        miny <= cell_at(minx, miny, subw, li).1 < miny + subh,
        lidx(minx, miny, subw, cell_at(minx, miny, subw, li).0, cell_at(minx, miny, subw, li).1)
            == li,
{
    lemma_fundamental_div_mod(li, subw);
    lemma_mod_division_less_than_divisor(li, subw);
    lemma_div_pos_is_pos(li, subw);
    lemma_multiply_divide_lt(li, subw, subh);
    assert(li / subw * subw == subw * (li / subw)) by (nonlinear_arith);
}

/// Extending a walk by one cell other than `(cx, cy)` does not change
/// whether `(cx, cy)` is marked.
proof fn lemma_upto_skip<M: VisionMap>(
    map: &M,
    ox: int,
    oy: int,
    rsq: int,
    px: int,
    py: int,
    n: int,
    cx: int,
    cy: int,
)
    requires
        1 <= n,
        line_seq((ox, oy), (px, py))[n] != (cx, cy),
    ensures
        ray_marks_upto(map, ox, oy, rsq, px, py, n + 1, cx, cy) == ray_marks_upto(
            map,
            ox,
            oy,
            rsq,
            px,
            py,
            n,
            cx,
            cy,
        ),
{
    let l = line_seq((ox, oy), (px, py));
    if ray_marks_upto(map, ox, oy, rsq, px, py, n + 1, cx, cy) {
        let jj = choose|jj: int|
            1 <= jj < n + 1 && #[trigger] l[jj] == (cx, cy) && (forall|k: int|
                1 <= k < jj ==> map.spec_transparent((#[trigger] l[k]).0, l[k].1));
        assert(jj != n);
        assert(ray_marks_upto(map, ox, oy, rsq, px, py, n, cx, cy));
    }
    if ray_marks_upto(map, ox, oy, rsq, px, py, n, cx, cy) {
        let jj = choose|jj: int|
            1 <= jj < n && #[trigger] l[jj] == (cx, cy) && (forall|k: int|
                1 <= k < jj ==> map.spec_transparent((#[trigger] l[k]).0, l[k].1));
        assert(1 <= jj < n + 1 && l[jj] == (cx, cy) && (forall|k: int|
            1 <= k < jj ==> map.spec_transparent((#[trigger] l[k]).0, l[k].1)));
        assert(ray_marks_upto(map, ox, oy, rsq, px, py, n + 1, cx, cy));
    }
}

/// Once the walk has hit an opaque cell it marks nothing farther: the full
/// ray marks exactly what the walk up to (and including) that cell marks.
proof fn lemma_upto_blocked<M: VisionMap>(
    map: &M,
    ox: int,
    oy: int,
    rsq: int,
    px: int,
    py: int,
    jb: int,
    n: int,
    cx: int,
    cy: int,
)
    requires
        1 <= jb < n,
        !map.spec_transparent(line_seq((ox, oy), (px, py))[jb].0, line_seq((ox, oy), (px, py))[jb].1),
    ensures
        ray_marks_upto(map, ox, oy, rsq, px, py, n, cx, cy) == ray_marks_upto(
            map,
            ox,
            oy,
            rsq,
            px,
            py,
            jb + 1,
            cx,
            cy,
        ),
{
    let l = line_seq((ox, oy), (px, py));
    if ray_marks_upto(map, ox, oy, rsq, px, py, n, cx, cy) {
        let jj = choose|jj: int|
            1 <= jj < n && #[trigger] l[jj] == (cx, cy) && (forall|k: int|
                1 <= k < jj ==> map.spec_transparent((#[trigger] l[k]).0, l[k].1));
        if jj > jb {
            assert(map.spec_transparent(l[jb].0, l[jb].1));
            assert(false);
        }
        assert(ray_marks_upto(map, ox, oy, rsq, px, py, jb + 1, cx, cy));
    }
    if ray_marks_upto(map, ox, oy, rsq, px, py, jb + 1, cx, cy) {
        let jj = choose|jj: int|
            1 <= jj < jb + 1 && #[trigger] l[jj] == (cx, cy) && (forall|k: int|
                1 <= k < jj ==> map.spec_transparent((#[trigger] l[k]).0, l[k].1));
        assert(1 <= jj < n && l[jj] == (cx, cy) && (forall|k: int|
            1 <= k < jj ==> map.spec_transparent((#[trigger] l[k]).0, l[k].1)));
        assert(ray_marks_upto(map, ox, oy, rsq, px, py, n, cx, cy));
    }
}

/// Squared distances between cells of a rectangle of at most `i32::MAX`
/// cells fit comfortably in an `i64`.
proof fn lemma_dist2_fits(subw: int, subh: int, ddx: int, ddy: int)
    requires
        1 <= subw,
        1 <= subh,
        subw * subh <= 0x7fff_ffff,
        -(subw - 1) <= ddx <= subw - 1,
        -(subh - 1) <= ddy <= subh - 1,
    ensures
        0 <= ddx * ddx <= 0x4000_0000_0000_0000,
        0 <= ddy * ddy <= 0x4000_0000_0000_0000,
        0 <= ddx * ddx + ddy * ddy <= 0x4000_0000_0000_0000,
{
    let s = subw - 1;
    let t = subh - 1;
    assert(0 <= ddx * ddx <= s * s) by (nonlinear_arith)
        requires
            -s <= ddx <= s,
    ;
    assert(0 <= ddy * ddy <= t * t) by (nonlinear_arith)
        requires
            -t <= ddy <= t,
    ;
    assert(s * s + t * t <= (s + t) * (s + t)) by (nonlinear_arith)
        requires
            0 <= s,
            0 <= t,
    ;
    assert(s + t <= subw * subh - 1) by (nonlinear_arith)
        requires
            s == subw - 1,
            t == subh - 1,
            1 <= subw,
            1 <= subh,
    ;
    assert((s + t) * (s + t) <= 0x7fff_fffe * 0x7fff_fffe) by (nonlinear_arith)
        requires
            0 <= s + t <= 0x7fff_fffe,
    ;
}

/// Cast one ray from `(ox, oy)` toward the perimeter cell `(px, py)`,
/// marking in the window buffer each cell the walk reaches within the
/// radius, and stopping right after an opaque cell.
#[verifier::loop_isolation(false)]
fn cast_ray<M: VisionMap>(
    map: &M,
    visibles: &mut Vec<bool>,
    minx: i32,
    miny: i32,
    subw: i32,
    subh: i32,
    ox: i32,
    oy: i32,
    px: i32,
    py: i32,
    rsq: i64,
)
    requires
        map.wf(),
        1 <= subw as int,
        1 <= subh as int,
        0 <= minx as int,
        0 <= miny as int,
        minx as int + subw as int <= map.spec_width(),
        miny as int + subh as int <= map.spec_height(),
        subw as int * subh as int <= 0x7fff_ffff,
        old(visibles)@.len() == subw as int * subh as int,
        minx as int <= ox as int && (ox as int) < minx as int + subw as int,
        miny as int <= oy as int && (oy as int) < miny as int + subh as int,
        minx as int <= px as int && (px as int) < minx as int + subw as int,
        miny as int <= py as int && (py as int) < miny as int + subh as int,
        0 <= rsq as int,
    ensures
        final(visibles)@.len() == old(visibles)@.len(),
        forall|cx: int, cy: int|
            minx as int <= cx < minx as int + subw as int && miny as int <= cy < miny as int
                + subh as int ==> final(visibles)@[lidx(minx as int, miny as int, subw as int, cx, cy)]
                == (old(visibles)@[lidx(minx as int, miny as int, subw as int, cx, cy)]
                || #[trigger] ray_marks(map, ox as int, oy as int, rsq as int, px as int, py as int, cx, cy)),
{
    let ghost a: (int, int) = (ox as int, oy as int);
    let ghost b: (int, int) = (px as int, py as int);
    let ghost l: Seq<(int, int)> = line_seq(a, b);
    let ghost b0: Seq<bool> = visibles@;
    let pts: Vec<(i32, i32)> = line_points(ox, oy, px, py);
    let mut j: usize = 1;
    let mut blocked: bool = false;
    while j < pts.len() && !blocked
        invariant
            1 <= j as int <= l.len(),
            visibles@.len() == b0.len(),
            !blocked ==> (forall|k: int|
                1 <= k < j as int ==> map.spec_transparent((#[trigger] l[k]).0, l[k].1)),
            blocked ==> 2 <= j as int && !map.spec_transparent(l[j as int - 1].0, l[j as int - 1].1),
            forall|cx: int, cy: int|
                minx as int <= cx < minx as int + subw as int && miny as int <= cy < miny as int
                    + subh as int ==> visibles@[#[trigger] lidx(minx as int, miny as int, subw as int, cx, cy)]
                    == (b0[lidx(minx as int, miny as int, subw as int, cx, cy)]
                    || ray_marks_upto(map, ox as int, oy as int, rsq as int, px as int, py as int, j as int, cx, cy)),
        decreases l.len() - j as int,
    {
        let p: (i32, i32) = pts[j];
        let cx: i32 = p.0;
        let cy: i32 = p.1;
        proof {
            lemma_line_in_box(a, b, j as int);
            assert(l[j as int] == (cx as int, cy as int));
            lemma_lidx_bijective(minx as int, miny as int, subw as int, subh as int, cx as int, cy as int);
        }
        let ddx: i64 = cx as i64 - ox as i64;
        let ddy: i64 = cy as i64 - oy as i64;
        proof {
            lemma_dist2_fits(subw as int, subh as int, ddx as int, ddy as int);
        }
        let dist: i64 = ddx * ddx + ddy * ddy;
        let marked: bool = dist <= rsq || rsq == 0;
        proof {
            assert((cy as int - miny as int) * (subw as int) <= (subh as int - 1) * (subw as int))
                by (nonlinear_arith)
                requires
                    cy as int - miny as int <= subh as int - 1,
                    0 <= subw as int,
            ;
        }
        let li: usize = ((cx - minx) + (cy - miny) * subw) as usize;
        assert(li as int == lidx(minx as int, miny as int, subw as int, cx as int, cy as int));
        if marked {
            visibles.set(li, true);
        }
        let t: bool = map.is_transparent(cx, cy);
        if !t {
            blocked = true;
        }
        proof {
            let gj = j as int;
            assert forall|ax: int, ay: int|
                minx as int <= ax < minx as int + subw as int && miny as int <= ay < miny as int
                    + subh as int implies visibles@[lidx(minx as int, miny as int, subw as int, ax, ay)]
                    == (b0[lidx(minx as int, miny as int, subw as int, ax, ay)]
                    || ray_marks_upto(map, ox as int, oy as int, rsq as int, px as int, py as int, gj + 1, ax, ay)) by {
                lemma_lidx_bijective(minx as int, miny as int, subw as int, subh as int, ax, ay);
                if ax == cx as int && ay == cy as int {
                    if marked {
                        assert(dist as int == dist2(ox as int, oy as int, ax, ay));
                        assert(1 <= gj < gj + 1 && l[gj] == (ax, ay) && (forall|k: int|
                            1 <= k < gj ==> map.spec_transparent((#[trigger] l[k]).0, l[k].1)));
                        assert(ray_marks_upto(map, ox as int, oy as int, rsq as int, px as int, py as int, gj + 1, ax, ay));
                    } else {
                        assert(!(dist2(ox as int, oy as int, ax, ay) <= rsq as int || rsq as int == 0));
                        assert(!ray_marks_upto(map, ox as int, oy as int, rsq as int, px as int, py as int, gj + 1, ax, ay));
                        assert(!ray_marks_upto(map, ox as int, oy as int, rsq as int, px as int, py as int, gj, ax, ay));
                    }
                } else {
                    assert(l[gj] != (ax, ay));
                    lemma_upto_skip(map, ox as int, oy as int, rsq as int, px as int, py as int, gj, ax, ay);
                }
            };
        }
        j = j + 1;
    }
    proof {
        let n = l.len() as int;
        assert forall|ax: int, ay: int|
            minx as int <= ax < minx as int + subw as int && miny as int <= ay < miny as int
                + subh as int implies visibles@[lidx(minx as int, miny as int, subw as int, ax, ay)]
                == (b0[lidx(minx as int, miny as int, subw as int, ax, ay)]
                || ray_marks(map, ox as int, oy as int, rsq as int, px as int, py as int, ax, ay)) by {
            assert(visibles@[lidx(minx as int, miny as int, subw as int, ax, ay)]
                == (b0[lidx(minx as int, miny as int, subw as int, ax, ay)]
                || ray_marks_upto(map, ox as int, oy as int, rsq as int, px as int, py as int, j as int, ax, ay)));
            if blocked && j as int <= n - 1 {
                lemma_upto_blocked(map, ox as int, oy as int, rsq as int, px as int, py as int, j as int - 1, n, ax, ay);
            } else {
                assert(j as int == n);
            }
        };
    }
}


/// Whether the quadrant pass over the rectangle `[rminx, rmaxx] x
/// [rminy, rmaxy]`, whose direction back toward the origin is `(sdx, sdy)`,
/// promotes `(cx, cy)` given the buffer contents `b` it started from: an
/// opaque, unmarked cell of the rectangle one of whose two neighbors toward
/// the origin is transparent and marked.
spec fn promo_here<M: VisionMap>(
    map: &M,
    b: Seq<bool>,
    minx: int,
    miny: int,
    subw: int,
    rminx: int,
    rminy: int,
    rmaxx: int,
    rmaxy: int,
    sdx: int,
    sdy: int,
    cx: int,
    cy: int,
) -> bool {
    rminx <= cx <= rmaxx && rminy <= cy <= rmaxy && !map.spec_transparent(cx, cy)
        && !b[lidx(minx, miny, subw, cx, cy)] && ((map.spec_transparent(cx + sdx, cy)
        && b[lidx(minx, miny, subw, cx + sdx, cy)]) || (map.spec_transparent(cx, cy + sdy)
        && b[lidx(minx, miny, subw, cx, cy + sdy)]))
}

/// One quadrant pass of the diagonal post-processor: promote every opaque,
/// still-invisible cell of the rectangle whose transparent neighbor toward
/// the origin is already visible.
#[verifier::loop_isolation(false)]
fn post_process<M: VisionMap>(
    map: &M,
    visibles: &mut Vec<bool>,
    minx: i32,
    miny: i32,
    subw: i32,
    subh: i32,
    rminx: i32,
    rminy: i32,
    rmaxx: i32,
    rmaxy: i32,
    sdx: i32,
    sdy: i32,
)
    requires
        map.wf(),
        1 <= subw as int,
        1 <= subh as int,
        0 <= minx as int,
        0 <= miny as int,
        minx as int + subw as int <= map.spec_width(),
        miny as int + subh as int <= map.spec_height(),
        map.spec_width() <= 0x7fff_ffff,
        map.spec_height() <= 0x7fff_ffff,
        subw as int * subh as int <= 0x7fff_ffff,
        old(visibles)@.len() == subw as int * subh as int,
        sdx as int == 1 || sdx as int == -1,
        sdy as int == 1 || sdy as int == -1,
        rminx as int <= rmaxx as int + 1,
        rminy as int <= rmaxy as int + 1,
        rminx as int <= rmaxx as int ==> minx as int <= rminx as int && rmaxx as int <= minx
            as int + subw as int - 1 && minx as int <= rminx as int + sdx as int && rmaxx as int
            + sdx as int <= minx as int + subw as int - 1,
        rminy as int <= rmaxy as int ==> miny as int <= rminy as int && rmaxy as int <= miny
            as int + subh as int - 1 && miny as int <= rminy as int + sdy as int && rmaxy as int
            + sdy as int <= miny as int + subh as int - 1,
    ensures
        final(visibles)@.len() == old(visibles)@.len(),
        forall|cx: int, cy: int|
            minx as int <= cx < minx as int + subw as int && miny as int <= cy < miny as int
                + subh as int ==> final(visibles)@[#[trigger] lidx(minx as int, miny as int, subw as int, cx, cy)]
                == (old(visibles)@[lidx(minx as int, miny as int, subw as int, cx, cy)]
                || promo_here(map, old(visibles)@, minx as int, miny as int, subw as int,
                    rminx as int, rminy as int, rmaxx as int, rmaxy as int, sdx as int, sdy as int, cx, cy)),
{
    let ghost b0: Seq<bool> = visibles@;
    let mut x: i32 = rminx;
    while x <= rmaxx
        invariant
            rminx as int <= x as int <= rmaxx as int + 1,
            visibles@.len() == b0.len(),
            forall|cx: int, cy: int|
                minx as int <= cx < minx as int + subw as int && miny as int <= cy < miny as int
                    + subh as int ==> visibles@[#[trigger] lidx(minx as int, miny as int, subw as int, cx, cy)]
                    == (b0[lidx(minx as int, miny as int, subw as int, cx, cy)]
                    || (promo_here(map, b0, minx as int, miny as int, subw as int,
                        rminx as int, rminy as int, rmaxx as int, rmaxy as int, sdx as int, sdy as int, cx, cy)
                        && cx < x as int)),
        decreases rmaxx as int + 1 - x as int,
    {
        let mut y: i32 = rminy;
        while y <= rmaxy
            invariant
                rminy as int <= y as int <= rmaxy as int + 1,
                rminx as int <= x as int <= rmaxx as int,
                visibles@.len() == b0.len(),
                forall|cx: int, cy: int|
                    minx as int <= cx < minx as int + subw as int && miny as int <= cy < miny
                        as int + subh as int ==> visibles@[#[trigger] lidx(minx as int, miny as int, subw as int, cx, cy)]
                        == (b0[lidx(minx as int, miny as int, subw as int, cx, cy)]
                        || (promo_here(map, b0, minx as int, miny as int, subw as int,
                            rminx as int, rminy as int, rmaxx as int, rmaxy as int, sdx as int, sdy as int, cx, cy)
                            && (cx < x as int || (cx == x as int && cy < y as int)))),
            decreases rmaxy as int + 1 - y as int,
        {
            proof {
                lemma_lidx_bijective(minx as int, miny as int, subw as int, subh as int, x as int, y as int);
                assert((y as int - miny as int) * (subw as int) <= (subh as int - 1) * (subw as int))
                    by (nonlinear_arith)
                    requires
                        y as int - miny as int <= subh as int - 1,
                        0 <= subw as int,
                ;
            }
            let li: usize = ((x - minx) + (y - miny) * subw) as usize;
            let t: bool = map.is_transparent(x, y);
            let v: bool = visibles[li];
            if !t && !v {
                let nx: i32 = x + sdx;
                let ny: i32 = y + sdy;
                proof {
                    lemma_lidx_bijective(minx as int, miny as int, subw as int, subh as int, nx as int, y as int);
                    lemma_lidx_bijective(minx as int, miny as int, subw as int, subh as int, x as int, ny as int);
                    assert((ny as int - miny as int) * (subw as int) <= (subh as int - 1) * (subw as int))
                        by (nonlinear_arith)
                        requires
                            ny as int - miny as int <= subh as int - 1,
                            0 <= subw as int,
                    ;
                }
                let li0: usize = ((nx - minx) + (y - miny) * subw) as usize;
                let li1: usize = ((x - minx) + (ny - miny) * subw) as usize;
                let t0: bool = map.is_transparent(nx, y);
                let t1: bool = map.is_transparent(x, ny);
                if (t0 && visibles[li0]) || (t1 && visibles[li1]) {
                    visibles.set(li, true);
                }
            }
            proof {
                let gx = x as int;
                let gy = y as int;
                assert forall|cx: int, cy: int|
                    minx as int <= cx < minx as int + subw as int && miny as int <= cy < miny
                        as int + subh as int implies visibles@[#[trigger] lidx(minx as int, miny as int, subw as int, cx, cy)]
                        == (b0[lidx(minx as int, miny as int, subw as int, cx, cy)]
                        || (promo_here(map, b0, minx as int, miny as int, subw as int,
                            rminx as int, rminy as int, rmaxx as int, rmaxy as int, sdx as int, sdy as int, cx, cy)
                            && (cx < gx || (cx == gx && cy < gy + 1)))) by {
                    lemma_lidx_bijective(minx as int, miny as int, subw as int, subh as int, cx, cy);
                    if cx == gx && cy == gy {
                        lemma_lidx_bijective(minx as int, miny as int, subw as int, subh as int, gx + sdx as int, gy);
                        lemma_lidx_bijective(minx as int, miny as int, subw as int, subh as int, gx, gy + sdy as int);
                    }
                };
            }
            y = y + 1;
        }
        x = x + 1;
    }
}


/// Width of the window on the x axis.
pub open spec fn win_width(limit: int, o: int, r: int) -> int {
    axis_max(limit, o, r) - axis_min(o, r) + 1
}

/// The visible cells among the first `n` window positions, in row-major
/// window order.
pub open spec fn fov_list_prefix<M: VisionMap>(map: &M, ox: int, oy: int, r: int, n: int) -> Seq<
    (int, int),
>
    decreases n,
{
    if n <= 0 {
        Seq::empty()
    } else {
        let c = cell_at(axis_min(ox, r), axis_min(oy, r), win_width(map.spec_width(), ox, r), n - 1);
        let prev = fov_list_prefix(map, ox, oy, r, n - 1);
        if fov_visible(map, ox, oy, r, c.0, c.1) {
            prev.push(c)
        } else {
            prev
        }
    }
}

/// The cells a visibility computation at `(ox, oy)` with radius `r` leaves
/// visible: the origin alone when the radius is below one or the window
/// degenerates, else every visible window cell in row-major window order.
pub open spec fn fov_list<M: VisionMap>(map: &M, ox: int, oy: int, r: int) -> Seq<(int, int)> {
    let w = map.spec_width();
    let h = map.spec_height();
    if r < 1 || degenerate_window(w, h, ox, oy, r) {
        seq![(ox, oy)]
    } else {
        fov_list_prefix(map, ox, oy, r, win_width(w, ox, r) * win_width(h, oy, r))
    }
}

/// A sequence of machine-integer pairs as mathematical-integer pairs.
pub open spec fn points_view(s: Seq<(i32, i32)>) -> Seq<(int, int)> {
    s.map_values(|p: (i32, i32)| (p.0 as int, p.1 as int))
}

/// A cell a computation leaves visible lies in its window (or is the
/// origin, which also lies in the window).
pub proof fn lemma_fov_visible_in_window<M: VisionMap>(
    map: &M,
    ox: int,
    oy: int,
    r: int,
    cx: int,
    cy: int,
)
    requires
        r >= 1,
        0 <= ox < map.spec_width(),
        0 <= oy < map.spec_height(),
        fov_visible(map, ox, oy, r, cx, cy),
    ensures
        in_window(map.spec_width(), map.spec_height(), ox, oy, r, cx, cy),
{
    let w = map.spec_width();
    let h = map.spec_height();
    if cx == ox && cy == oy {
    } else if swept(map, ox, oy, r, cx, cy) {
        let (px, py) = choose|px: int, py: int|
            #[trigger] on_perimeter(w, h, ox, oy, r, px, py) && ray_marks(
                map,
                ox,
                oy,
                r * r,
                px,
                py,
                cx,
                cy,
            );
        let l = line_seq((ox, oy), (px, py));
        let n = l.len() as int;
        let jj = choose|jj: int|
            1 <= jj < n && #[trigger] l[jj] == (cx, cy) && (forall|k: int|
                1 <= k < jj ==> map.spec_transparent((#[trigger] l[k]).0, l[k].1));
        lemma_line_in_box((ox, oy), (px, py), jj);
    } else {
    }
}

/// A cell is in the result list exactly when the computation leaves it
/// visible (stated for the first `n` window positions).
proof fn lemma_fov_list_prefix_membership<M: VisionMap>(
    map: &M,
    ox: int,
    oy: int,
    r: int,
    n: int,
    cx: int,
    cy: int,
)
    requires
        r >= 1,
        0 <= ox < map.spec_width(),
        0 <= oy < map.spec_height(),
        0 <= n <= win_width(map.spec_width(), ox, r) * win_width(map.spec_height(), oy, r),
    ensures
        fov_list_prefix(map, ox, oy, r, n).contains((cx, cy)) <==> (in_window(
            map.spec_width(),
            map.spec_height(),
            ox,
            oy,
            r,
            cx,
            cy,
        ) && lidx(axis_min(ox, r), axis_min(oy, r), win_width(map.spec_width(), ox, r), cx, cy) < n
            && fov_visible(map, ox, oy, r, cx, cy)),
    decreases n,
{
    let w = map.spec_width();
    let h = map.spec_height();
    let minx = axis_min(ox, r);
    let miny = axis_min(oy, r);
    let subw = win_width(w, ox, r);
    let subh = win_width(h, oy, r);
    if in_window(w, h, ox, oy, r, cx, cy) {
        lemma_lidx_bijective(minx, miny, subw, subh, cx, cy);
    }
    if n <= 0 {
        assert(!fov_list_prefix(map, ox, oy, r, n).contains((cx, cy)));
    } else {
        lemma_fov_list_prefix_membership(map, ox, oy, r, n - 1, cx, cy);
        lemma_cell_at_bijective(minx, miny, subw, subh, n - 1);
        let c = cell_at(minx, miny, subw, n - 1);
        let prev = fov_list_prefix(map, ox, oy, r, n - 1);
        let cur = fov_list_prefix(map, ox, oy, r, n);
        if fov_visible(map, ox, oy, r, c.0, c.1) {
            assert(cur == prev.push(c));
            if prev.contains((cx, cy)) {
                let i = choose|i: int| 0 <= i < prev.len() && prev[i] == (cx, cy);
                assert(cur[i] == (cx, cy));
                assert(cur.contains((cx, cy)));
            }
            if (cx, cy) == c {
                assert(cur[cur.len() - 1] == (cx, cy));
                assert(cur.contains((cx, cy)));
            }
            if cur.contains((cx, cy)) {
                let i = choose|i: int| 0 <= i < cur.len() && cur[i] == (cx, cy);
                if i < prev.len() {
                    assert(prev.contains((cx, cy)));
                } else {
                    assert((cx, cy) == c);
                }
            }
        } else {
            assert(cur == prev);
        }
    }
}

/// A cell is in the result list exactly when the computation leaves it
/// visible.
pub proof fn lemma_fov_list_membership<M: VisionMap>(map: &M, ox: int, oy: int, r: int, cx: int, cy: int)
    requires
        0 <= ox < map.spec_width(),
        0 <= oy < map.spec_height(),
    ensures
        fov_list(map, ox, oy, r).contains((cx, cy)) <==> fov_visible(map, ox, oy, r, cx, cy),
{
    let w = map.spec_width();
    let h = map.spec_height();
    if r < 1 || degenerate_window(w, h, ox, oy, r) {
        let l = fov_list(map, ox, oy, r);
        assert(l[0] == (ox, oy));
        if (cx, cy) == (ox, oy) {
            assert(l.contains((cx, cy)));
        }
        if l.contains((cx, cy)) {
            let i = choose|i: int| 0 <= i < l.len() && l[i] == (cx, cy);
            assert(i == 0);
        }
    } else {
        let minx = axis_min(ox, r);
        let miny = axis_min(oy, r);
        let subw = win_width(w, ox, r);
        let subh = win_width(h, oy, r);
        assert(1 <= subw && 1 <= subh);
        assert(0 <= subw * subh) by (nonlinear_arith)
            requires
                1 <= subw,
                1 <= subh,
        ;
        lemma_fov_list_prefix_membership(map, ox, oy, r, subw * subh, cx, cy);
        if fov_visible(map, ox, oy, r, cx, cy) {
            lemma_fov_visible_in_window(map, ox, oy, r, cx, cy);
            lemma_lidx_bijective(minx, miny, subw, subh, cx, cy);
        }
    }
}

/// Which perimeter targets the sweep has already cast rays toward, while
/// the top and bottom rows are done up to column `xlim` and the two side
/// columns up to row `ylim`.
spec fn target_done(
    w: int,
    h: int,
    ox: int,
    oy: int,
    r: int,
    xlim: int,
    ylim: int,
    px: int,
    py: int,
) -> bool {
    let miny = axis_min(oy, r);
    let maxy = axis_max(h, oy, r);
    if py == miny || py == maxy {
        px < xlim
    } else {
        py < ylim
    }
}

/// Whether one of the rays already cast marks `(cx, cy)` (or it is the
/// origin).
spec fn swept_part<M: VisionMap>(
    map: &M,
    ox: int,
    oy: int,
    r: int,
    xlim: int,
    ylim: int,
    cx: int,
    cy: int,
) -> bool {
    let w = map.spec_width();
    let h = map.spec_height();
    (cx == ox && cy == oy) || exists|px: int, py: int|
        #[trigger] on_perimeter(w, h, ox, oy, r, px, py) && target_done(
            w,
            h,
            ox,
            oy,
            r,
            xlim,
            ylim,
            px,
            py,
        ) && ray_marks(map, ox, oy, r * r, px, py, cx, cy)
}

/// After a quadrant pass, the buffer holds the swept cells plus the cells
/// promoted in the quadrants processed so far.
proof fn lemma_quadrant_pass<M: VisionMap>(
    map: &M,
    bpre: Seq<bool>,
    bpost: Seq<bool>,
    ox: int,
    oy: int,
    r: int,
    rminx: int,
    rminy: int,
    rmaxx: int,
    rmaxy: int,
    sdx: int,
    sdy: int,
    prevdone: spec_fn(int, int) -> bool,
)
    requires
        r >= 1,
        !degenerate_window(map.spec_width(), map.spec_height(), ox, oy, r),
        0 <= ox < map.spec_width(),
        0 <= oy < map.spec_height(),
        sdx == 1 || sdx == -1,
        sdy == 1 || sdy == -1,
        sdx == -1 ==> rminx == ox + 1 && rmaxx == axis_max(map.spec_width(), ox, r),
        sdx == 1 ==> rminx == axis_min(ox, r) && rmaxx == ox - 1,
        sdy == -1 ==> rminy == oy + 1 && rmaxy == axis_max(map.spec_height(), oy, r),
        sdy == 1 ==> rminy == axis_min(oy, r) && rmaxy == oy - 1,
        forall|cx: int, cy: int|
            in_window(map.spec_width(), map.spec_height(), ox, oy, r, cx, cy)
                ==> bpre[#[trigger] lidx(axis_min(ox, r), axis_min(oy, r), win_width(map.spec_width(), ox, r), cx, cy)]
                == (swept(map, ox, oy, r, cx, cy) || (promoted(map, ox, oy, r, cx, cy)
                && prevdone(cx, cy))),
        forall|cx: int, cy: int|
            rminx <= cx <= rmaxx && rminy <= cy <= rmaxy ==> !#[trigger] prevdone(cx, cy),
        forall|cx: int, cy: int|
            in_window(map.spec_width(), map.spec_height(), ox, oy, r, cx, cy)
                ==> bpost[#[trigger] lidx(axis_min(ox, r), axis_min(oy, r), win_width(map.spec_width(), ox, r), cx, cy)]
                == (bpre[lidx(axis_min(ox, r), axis_min(oy, r), win_width(map.spec_width(), ox, r), cx, cy)]
                || promo_here(map, bpre, axis_min(ox, r), axis_min(oy, r), win_width(map.spec_width(), ox, r),
                    rminx, rminy, rmaxx, rmaxy, sdx, sdy, cx, cy)),
    ensures
        forall|cx: int, cy: int|
            in_window(map.spec_width(), map.spec_height(), ox, oy, r, cx, cy)
                ==> bpost[#[trigger] lidx(axis_min(ox, r), axis_min(oy, r), win_width(map.spec_width(), ox, r), cx, cy)]
                == (swept(map, ox, oy, r, cx, cy) || (promoted(map, ox, oy, r, cx, cy)
                && (prevdone(cx, cy) || (rminx <= cx <= rmaxx && rminy <= cy <= rmaxy)))),
{
    let w = map.spec_width();
    let h = map.spec_height();
    let minx = axis_min(ox, r);
    let miny = axis_min(oy, r);
    let subw = win_width(w, ox, r);
    assert forall|cx: int, cy: int|
        in_window(w, h, ox, oy, r, cx, cy) implies bpost[#[trigger] lidx(minx, miny, subw, cx, cy)]
        == (swept(map, ox, oy, r, cx, cy) || (promoted(map, ox, oy, r, cx, cy) && (prevdone(cx, cy)
        || (rminx <= cx <= rmaxx && rminy <= cy <= rmaxy)))) by {
        if rminx <= cx <= rmaxx && rminy <= cy <= rmaxy {
            let nx = cx + sdx;
            let ny = cy + sdy;
            assert(nx == toward(cx, ox));
            assert(ny == toward(cy, oy));
            assert(in_window(w, h, ox, oy, r, nx, cy));
            assert(in_window(w, h, ox, oy, r, cx, ny));
            assert(bpre[lidx(minx, miny, subw, nx, cy)] == (swept(map, ox, oy, r, nx, cy) || (
            promoted(map, ox, oy, r, nx, cy) && prevdone(nx, cy))));
            assert(bpre[lidx(minx, miny, subw, cx, ny)] == (swept(map, ox, oy, r, cx, ny) || (
            promoted(map, ox, oy, r, cx, ny) && prevdone(cx, ny))));
            assert(!prevdone(cx, cy));
        } else {
            assert(!promo_here(map, bpre, minx, miny, subw, rminx, rminy, rmaxx, rmaxy, sdx, sdy, cx, cy));
        }
    };
}


/// Common window geometry preconditions of the sweep helpers.
spec fn window_setup<M: VisionMap>(
    map: &M,
    x: int,
    y: int,
    radius: int,
    minx: int,
    miny: int,
    maxx: int,
    maxy: int,
    subw: int,
    subh: int,
    rsq: int,
    buflen: int,
) -> bool {
    let w = map.spec_width();
    let h = map.spec_height();
    map.wf() && radius >= 1 && 0 <= x < w && 0 <= y < h && w * h <= 0x7fff_ffff && minx == axis_min(x, radius)
        && miny == axis_min(y, radius) && maxx == axis_max(w, x, radius) && maxy == axis_max(
        h,
        y,
        radius,
    ) && subw == maxx - minx + 1 && subh == maxy - miny + 1 && subw >= 2 && subh >= 2 && rsq
        == radius * radius && buflen == subw * subh && subw * subh <= 0x7fff_ffff && w
        <= 0x7fff_ffff && h <= 0x7fff_ffff
}

/// Cast the rays toward every cell of the top and bottom rows of the
/// window.
#[verifier::loop_isolation(false)]
#[verifier::rlimit(100)]
fn cast_row_rays<M: VisionMap>(
    map: &M,
    visibles: &mut Vec<bool>,
    x: i32,
    y: i32,
    radius: i32,
    minx: i32,
    miny: i32,
    maxx: i32,
    maxy: i32,
    subw: i32,
    subh: i32,
    rsq: i64,
)
    requires
        window_setup(map, x as int, y as int, radius as int, minx as int, miny as int, maxx as int,
            maxy as int, subw as int, subh as int, rsq as int, old(visibles)@.len() as int),
        forall|cx: int, cy: int|
            in_window(map.spec_width(), map.spec_height(), x as int, y as int, radius as int, cx, cy)
                ==> old(visibles)@[#[trigger] lidx(minx as int, miny as int, subw as int, cx, cy)]
                == swept_part(map, x as int, y as int, radius as int, minx as int, miny as int + 1, cx, cy),
    ensures
        final(visibles)@.len() == old(visibles)@.len(),
        forall|cx: int, cy: int|
            in_window(map.spec_width(), map.spec_height(), x as int, y as int, radius as int, cx, cy)
                ==> final(visibles)@[#[trigger] lidx(minx as int, miny as int, subw as int, cx, cy)]
                == swept_part(map, x as int, y as int, radius as int, maxx as int + 1, miny as int + 1, cx, cy),
{
    let ghost gx: int = x as int;
    let ghost gy: int = y as int;
    let ghost gr: int = radius as int;
    let ghost gw: int = map.spec_width();
    let ghost gh: int = map.spec_height();
    let ghost gminx: int = minx as int;
    let ghost gminy: int = miny as int;
    let ghost gmaxx: int = maxx as int;
    let ghost gmaxy: int = maxy as int;
    let ghost gsubw: int = subw as int;
    let ghost gsubh: int = subh as int;
    let mut cxi: i32 = minx;
    while cxi <= maxx
        invariant
            gminx <= cxi as int <= gmaxx + 1,
            visibles@.len() == gsubw * gsubh,
            forall|cx: int, cy: int|
                in_window(gw, gh, gx, gy, gr, cx, cy)
                    ==> visibles@[#[trigger] lidx(gminx, gminy, gsubw, cx, cy)] == swept_part(
                    map, gx, gy, gr, cxi as int, gminy + 1, cx, cy,
                ),
        decreases gmaxx + 1 - cxi as int,
    {
        let ghost bpre: Seq<bool> = visibles@;
        cast_ray(map, visibles, minx, miny, subw, subh, x, y, cxi, miny, rsq);
        let ghost bmid: Seq<bool> = visibles@;
        cast_ray(map, visibles, minx, miny, subw, subh, x, y, cxi, maxy, rsq);
        proof {
            let gcx: int = cxi as int;
            assert forall|cx: int, cy: int|
                in_window(gw, gh, gx, gy, gr, cx, cy) implies visibles@[#[trigger] lidx(gminx, gminy, gsubw, cx, cy)]
                == swept_part(map, gx, gy, gr, gcx + 1, gminy + 1, cx, cy) by {
                lemma_lidx_bijective(gminx, gminy, gsubw, gsubh, cx, cy);
                let li = lidx(gminx, gminy, gsubw, cx, cy);
                // Name what the two rays just cast mark at this cell, so
                // their postconditions apply here.
                let rm1 = ray_marks(map, gx, gy, rsq as int, cxi as int, miny as int, cx, cy);
                let rm2 = ray_marks(map, gx, gy, rsq as int, cxi as int, maxy as int, cx, cy);
                if visibles@[li] {
                    if bpre[li] {
                        if !(cx == gx && cy == gy) {
                            let (px, py) = choose|px: int, py: int|
                                #[trigger] on_perimeter(gw, gh, gx, gy, gr, px, py) && target_done(
                                    gw, gh, gx, gy, gr, gcx, gminy + 1, px, py,
                                ) && ray_marks(map, gx, gy, gr * gr, px, py, cx, cy);
                            assert(on_perimeter(gw, gh, gx, gy, gr, px, py) && target_done(
                                gw, gh, gx, gy, gr, gcx + 1, gminy + 1, px, py,
                            ) && ray_marks(map, gx, gy, gr * gr, px, py, cx, cy));
                        }
                    } else if bmid[li] {
                        assert(on_perimeter(gw, gh, gx, gy, gr, gcx, gminy) && target_done(
                            gw, gh, gx, gy, gr, gcx + 1, gminy + 1, gcx, gminy,
                        ) && ray_marks(map, gx, gy, gr * gr, gcx, gminy, cx, cy));
                    } else {
                        assert(on_perimeter(gw, gh, gx, gy, gr, gcx, gmaxy) && target_done(
                            gw, gh, gx, gy, gr, gcx + 1, gminy + 1, gcx, gmaxy,
                        ) && ray_marks(map, gx, gy, gr * gr, gcx, gmaxy, cx, cy));
                    }
                    assert(swept_part(map, gx, gy, gr, gcx + 1, gminy + 1, cx, cy));
                } else {
                    if swept_part(map, gx, gy, gr, gcx + 1, gminy + 1, cx, cy) {
                        assert(!(cx == gx && cy == gy));
                        let (px, py) = choose|px: int, py: int|
                            #[trigger] on_perimeter(gw, gh, gx, gy, gr, px, py) && target_done(
                                gw, gh, gx, gy, gr, gcx + 1, gminy + 1, px, py,
                            ) && ray_marks(map, gx, gy, gr * gr, px, py, cx, cy);
                        if target_done(gw, gh, gx, gy, gr, gcx, gminy + 1, px, py) {
                            assert(swept_part(map, gx, gy, gr, gcx, gminy + 1, cx, cy));
                            assert(false);
                        } else {
                            assert(px == gcx && (py == gminy || py == gmaxy));
                            assert(false);
                        }
                    }
                }
            };
        }
        cxi = cxi + 1;
    }
}

/// Cast the rays toward every interior cell of the two side columns of the
/// window; afterwards the buffer holds exactly the swept set.
#[verifier::loop_isolation(false)]
#[verifier::rlimit(100)]
fn cast_col_rays<M: VisionMap>(
    map: &M,
    visibles: &mut Vec<bool>,
    x: i32,
    y: i32,
    radius: i32,
    minx: i32,
    miny: i32,
    maxx: i32,
    maxy: i32,
    subw: i32,
    subh: i32,
    rsq: i64,
)
    requires
        window_setup(map, x as int, y as int, radius as int, minx as int, miny as int, maxx as int,
            maxy as int, subw as int, subh as int, rsq as int, old(visibles)@.len() as int),
        forall|cx: int, cy: int|
            in_window(map.spec_width(), map.spec_height(), x as int, y as int, radius as int, cx, cy)
                ==> old(visibles)@[#[trigger] lidx(minx as int, miny as int, subw as int, cx, cy)]
                == swept_part(map, x as int, y as int, radius as int, maxx as int + 1, miny as int + 1, cx, cy),
    ensures
        final(visibles)@.len() == old(visibles)@.len(),
        forall|cx: int, cy: int|
            in_window(map.spec_width(), map.spec_height(), x as int, y as int, radius as int, cx, cy)
                ==> final(visibles)@[#[trigger] lidx(minx as int, miny as int, subw as int, cx, cy)]
                == swept(map, x as int, y as int, radius as int, cx, cy),
{
    let ghost gx: int = x as int;
    let ghost gy: int = y as int;
    let ghost gr: int = radius as int;
    let ghost gw: int = map.spec_width();
    let ghost gh: int = map.spec_height();
    let ghost gminx: int = minx as int;
    let ghost gminy: int = miny as int;
    let ghost gmaxx: int = maxx as int;
    let ghost gmaxy: int = maxy as int;
    let ghost gsubw: int = subw as int;
    let ghost gsubh: int = subh as int;
    let mut cyi: i32 = miny + 1;
    while cyi < maxy
        invariant
            gminy + 1 <= cyi as int <= gmaxy,
            visibles@.len() == gsubw * gsubh,
            forall|cx: int, cy: int|
                in_window(gw, gh, gx, gy, gr, cx, cy)
                    ==> visibles@[#[trigger] lidx(gminx, gminy, gsubw, cx, cy)] == swept_part(
                    map, gx, gy, gr, gmaxx + 1, cyi as int, cx, cy,
                ),
        decreases gmaxy - cyi as int,
    {
        let ghost bpre: Seq<bool> = visibles@;
        cast_ray(map, visibles, minx, miny, subw, subh, x, y, minx, cyi, rsq);
        let ghost bmid: Seq<bool> = visibles@;
        cast_ray(map, visibles, minx, miny, subw, subh, x, y, maxx, cyi, rsq);
        proof {
            let gcy: int = cyi as int;
            assert forall|cx: int, cy: int|
                in_window(gw, gh, gx, gy, gr, cx, cy) implies visibles@[#[trigger] lidx(gminx, gminy, gsubw, cx, cy)]
                == swept_part(map, gx, gy, gr, gmaxx + 1, gcy + 1, cx, cy) by {
                lemma_lidx_bijective(gminx, gminy, gsubw, gsubh, cx, cy);
                let li = lidx(gminx, gminy, gsubw, cx, cy);
                // Name what the two rays just cast mark at this cell, so
                // their postconditions apply here.
                let rm1 = ray_marks(map, gx, gy, rsq as int, minx as int, cyi as int, cx, cy);
                let rm2 = ray_marks(map, gx, gy, rsq as int, maxx as int, cyi as int, cx, cy);
                if visibles@[li] {
                    if bpre[li] {
                        if !(cx == gx && cy == gy) {
                            let (px, py) = choose|px: int, py: int|
                                #[trigger] on_perimeter(gw, gh, gx, gy, gr, px, py) && target_done(
                                    gw, gh, gx, gy, gr, gmaxx + 1, gcy, px, py,
                                ) && ray_marks(map, gx, gy, gr * gr, px, py, cx, cy);
                            assert(on_perimeter(gw, gh, gx, gy, gr, px, py) && target_done(
                                gw, gh, gx, gy, gr, gmaxx + 1, gcy + 1, px, py,
                            ) && ray_marks(map, gx, gy, gr * gr, px, py, cx, cy));
                        }
                    } else if bmid[li] {
                        assert(on_perimeter(gw, gh, gx, gy, gr, gminx, gcy) && target_done(
                            gw, gh, gx, gy, gr, gmaxx + 1, gcy + 1, gminx, gcy,
                        ) && ray_marks(map, gx, gy, gr * gr, gminx, gcy, cx, cy));
                    } else {
                        assert(on_perimeter(gw, gh, gx, gy, gr, gmaxx, gcy) && target_done(
                            gw, gh, gx, gy, gr, gmaxx + 1, gcy + 1, gmaxx, gcy,
                        ) && ray_marks(map, gx, gy, gr * gr, gmaxx, gcy, cx, cy));
                    }
                    assert(swept_part(map, gx, gy, gr, gmaxx + 1, gcy + 1, cx, cy));
                } else {
                    if swept_part(map, gx, gy, gr, gmaxx + 1, gcy + 1, cx, cy) {
                        assert(!(cx == gx && cy == gy));
                        let (px, py) = choose|px: int, py: int|
                            #[trigger] on_perimeter(gw, gh, gx, gy, gr, px, py) && target_done(
                                gw, gh, gx, gy, gr, gmaxx + 1, gcy + 1, px, py,
                            ) && ray_marks(map, gx, gy, gr * gr, px, py, cx, cy);
                        if target_done(gw, gh, gx, gy, gr, gmaxx + 1, gcy, px, py) {
                            assert(swept_part(map, gx, gy, gr, gmaxx + 1, gcy, cx, cy));
                            assert(false);
                        } else {
                            assert(py == gcy && (px == gminx || px == gmaxx));
                            assert(false);
                        }
                    }
                }
            };
        }
        cyi = cyi + 1;
    }
    proof {
        assert forall|cx: int, cy: int|
            in_window(gw, gh, gx, gy, gr, cx, cy) implies visibles@[#[trigger] lidx(gminx, gminy, gsubw, cx, cy)]
            == swept(map, gx, gy, gr, cx, cy) by {
            lemma_lidx_bijective(gminx, gminy, gsubw, gsubh, cx, cy);
            let li = lidx(gminx, gminy, gsubw, cx, cy);
            if visibles@[li] {
                if !(cx == gx && cy == gy) {
                    let (px, py) = choose|px: int, py: int|
                        #[trigger] on_perimeter(gw, gh, gx, gy, gr, px, py) && target_done(
                            gw, gh, gx, gy, gr, gmaxx + 1, gmaxy, px, py,
                        ) && ray_marks(map, gx, gy, gr * gr, px, py, cx, cy);
                    assert(swept(map, gx, gy, gr, cx, cy));
                }
            } else {
                if swept(map, gx, gy, gr, cx, cy) {
                    assert(!(cx == gx && cy == gy));
                    let (px, py) = choose|px: int, py: int|
                        #[trigger] on_perimeter(gw, gh, gx, gy, gr, px, py) && ray_marks(
                            map, gx, gy, gr * gr, px, py, cx, cy,
                        );
                    assert(target_done(gw, gh, gx, gy, gr, gmaxx + 1, gmaxy, px, py));
                    assert(swept_part(map, gx, gy, gr, gmaxx + 1, gmaxy, cx, cy));
                    assert(false);
                }
            }
        };
    }
}

/// Run the four quadrant promotion passes; afterwards the buffer holds
/// exactly the visible set.
#[verifier::loop_isolation(false)]
#[verifier::rlimit(100)]
fn promote_quadrants<M: VisionMap>(
    map: &M,
    visibles: &mut Vec<bool>,
    x: i32,
    y: i32,
    radius: i32,
    minx: i32,
    miny: i32,
    maxx: i32,
    maxy: i32,
    subw: i32,
    subh: i32,
    rsq: i64,
)
    requires
        window_setup(map, x as int, y as int, radius as int, minx as int, miny as int, maxx as int,
            maxy as int, subw as int, subh as int, rsq as int, old(visibles)@.len() as int),
        forall|cx: int, cy: int|
            in_window(map.spec_width(), map.spec_height(), x as int, y as int, radius as int, cx, cy)
                ==> old(visibles)@[#[trigger] lidx(minx as int, miny as int, subw as int, cx, cy)]
                == swept(map, x as int, y as int, radius as int, cx, cy),
    ensures
        final(visibles)@.len() == old(visibles)@.len(),
        forall|cx: int, cy: int|
            in_window(map.spec_width(), map.spec_height(), x as int, y as int, radius as int, cx, cy)
                ==> final(visibles)@[#[trigger] lidx(minx as int, miny as int, subw as int, cx, cy)]
                == fov_visible(map, x as int, y as int, radius as int, cx, cy),
{
    let ghost gx: int = x as int;
    let ghost gy: int = y as int;
    let ghost gr: int = radius as int;
    let ghost gw: int = map.spec_width();
    let ghost gh: int = map.spec_height();
    let ghost gminx: int = minx as int;
    let ghost gminy: int = miny as int;
    let ghost gmaxx: int = maxx as int;
    let ghost gmaxy: int = maxy as int;
    let ghost b1: Seq<bool> = visibles@;
    post_process(map, visibles, minx, miny, subw, subh, x + 1, y + 1, maxx, maxy, -1, -1);
    let ghost b2: Seq<bool> = visibles@;
    proof {
        lemma_quadrant_pass(map, b1, b2, gx, gy, gr, gx + 1, gy + 1, gmaxx, gmaxy, -1, -1,
            (|cx: int, cy: int| false));
    }
    post_process(map, visibles, minx, miny, subw, subh, minx, y + 1, x - 1, maxy, 1, -1);
    let ghost b3: Seq<bool> = visibles@;
    proof {
        lemma_quadrant_pass(map, b2, b3, gx, gy, gr, gminx, gy + 1, gx - 1, gmaxy, 1, -1,
            (|cx: int, cy: int| gx + 1 <= cx <= gmaxx && gy + 1 <= cy <= gmaxy));
    }
    post_process(map, visibles, minx, miny, subw, subh, minx, miny, x - 1, y - 1, 1, 1);
    let ghost b4: Seq<bool> = visibles@;
    proof {
        lemma_quadrant_pass(map, b3, b4, gx, gy, gr, gminx, gminy, gx - 1, gy - 1, 1, 1,
            (|cx: int, cy: int| (gx + 1 <= cx <= gmaxx && gy + 1 <= cy <= gmaxy) || (gminx <= cx
                <= gx - 1 && gy + 1 <= cy <= gmaxy)));
    }
    post_process(map, visibles, minx, miny, subw, subh, x + 1, miny, maxx, y - 1, -1, 1);
    let ghost b5: Seq<bool> = visibles@;
    proof {
        lemma_quadrant_pass(map, b4, b5, gx, gy, gr, gx + 1, gminy, gmaxx, gy - 1, -1, 1,
            (|cx: int, cy: int| (gx + 1 <= cx <= gmaxx && gy + 1 <= cy <= gmaxy) || (gminx <= cx
                <= gx - 1 && gy + 1 <= cy <= gmaxy) || (gminx <= cx <= gx - 1 && gminy <= cy
                <= gy - 1)));
    }
}

/// Collect the visible cells of the window as world coordinates, in
/// row-major window order.
#[verifier::loop_isolation(false)]
#[verifier::rlimit(100)]
fn collect_visible<M: VisionMap>(
    map: &M,
    visibles: &Vec<bool>,
    x: i32,
    y: i32,
    radius: i32,
    minx: i32,
    miny: i32,
    maxx: i32,
    maxy: i32,
    subw: i32,
    subh: i32,
    rsq: i64,
)  -> (res: Vec<(i32, i32)>)
    requires
        window_setup(map, x as int, y as int, radius as int, minx as int, miny as int, maxx as int,
            maxy as int, subw as int, subh as int, rsq as int, visibles@.len() as int),
        forall|cx: int, cy: int|
            in_window(map.spec_width(), map.spec_height(), x as int, y as int, radius as int, cx, cy)
                ==> visibles@[#[trigger] lidx(minx as int, miny as int, subw as int, cx, cy)]
                == fov_visible(map, x as int, y as int, radius as int, cx, cy),
    ensures
        points_view(res@) == fov_list_prefix(map, x as int, y as int, radius as int,
            subw as int * subh as int),
{
    let ghost gx: int = x as int;
    let ghost gy: int = y as int;
    let ghost gr: int = radius as int;
    let ghost gw: int = map.spec_width();
    let ghost gh: int = map.spec_height();
    let ghost gminx: int = minx as int;
    let ghost gminy: int = miny as int;
    let ghost gsubw: int = subw as int;
    let ghost gsubh: int = subh as int;
    let len: usize = visibles.len();
    let mut out: Vec<(i32, i32)> = Vec::new();
    let mut li: usize = 0;
    while li < len
        invariant
            0 <= li as int <= gsubw * gsubh,
            len as int == gsubw * gsubh,
            points_view(out@) == fov_list_prefix(map, gx, gy, gr, li as int),
        decreases gsubw * gsubh - li as int,
    {
        proof {
            lemma_cell_at_bijective(gminx, gminy, gsubw, gsubh, li as int);
        }
        let ghost oldout: Seq<(i32, i32)> = out@;
        if visibles[li] {
            let sw: usize = subw as usize;
            let lxi: usize = li % sw;
            let lyi: usize = li / sw;
            out.push((minx + lxi as i32, miny + lyi as i32));
            proof {
                assert(cell_at(gminx, gminy, gsubw, li as int) == ((minx + lxi as i32) as int, (
                miny + lyi as i32) as int));
            }
        }
        proof {
            let c = cell_at(gminx, gminy, gsubw, li as int);
            assert(in_window(gw, gh, gx, gy, gr, c.0, c.1));
            assert(visibles@[li as int] == fov_visible(map, gx, gy, gr, c.0, c.1));
            if visibles@[li as int] {
                assert(points_view(out@) =~= points_view(oldout).push(c));
            }
            assert(points_view(out@) =~= fov_list_prefix(map, gx, gy, gr, li as int + 1));
        }
        li = li + 1;
    }
    out
}

/// Allocate the window buffer with only the origin marked.
#[verifier::loop_isolation(false)]
#[verifier::rlimit(100)]
fn init_visibles<M: VisionMap>(
    map: &M,
    x: i32,
    y: i32,
    radius: i32,
    minx: i32,
    miny: i32,
    maxx: i32,
    maxy: i32,
    subw: i32,
    subh: i32,
    rsq: i64,
) -> (v: Vec<bool>)
    requires
        window_setup(map, x as int, y as int, radius as int, minx as int, miny as int, maxx as int,
            maxy as int, subw as int, subh as int, rsq as int, subw as int * subh as int),
    ensures
        v@.len() == subw as int * subh as int,
        forall|cx: int, cy: int|
            in_window(map.spec_width(), map.spec_height(), x as int, y as int, radius as int, cx, cy)
                ==> v@[#[trigger] lidx(minx as int, miny as int, subw as int, cx, cy)]
                == swept_part(map, x as int, y as int, radius as int, minx as int, miny as int + 1, cx, cy),
{
    let ghost gx: int = x as int;
    let ghost gy: int = y as int;
    let ghost gr: int = radius as int;
    let ghost gw: int = map.spec_width();
    let ghost gh: int = map.spec_height();
    let ghost gminx: int = minx as int;
    let ghost gminy: int = miny as int;
    let ghost gsubw: int = subw as int;
    let ghost gsubh: int = subh as int;
    let len: usize = (subw as usize) * (subh as usize);
    let mut visibles: Vec<bool> = vec![false; len];
    proof {
        lemma_lidx_bijective(gminx, gminy, gsubw, gsubh, gx, gy);
        assert((gy - gminy) * gsubw <= (gsubh - 1) * gsubw) by (nonlinear_arith)
            requires
                gy - gminy <= gsubh - 1,
                0 <= gsubw,
        ;
    }
    let oli: usize = ((x - minx) + (y - miny) * subw) as usize;
    visibles.set(oli, true);
    proof {
        assert forall|cx: int, cy: int|
            in_window(gw, gh, gx, gy, gr, cx, cy) implies visibles@[#[trigger] lidx(gminx, gminy, gsubw, cx, cy)]
            == swept_part(map, gx, gy, gr, gminx, gminy + 1, cx, cy) by {
            lemma_lidx_bijective(gminx, gminy, gsubw, gsubh, cx, cy);
            if swept_part(map, gx, gy, gr, gminx, gminy + 1, cx, cy) && !(cx == gx && cy == gy) {
                let (px, py) = choose|px: int, py: int|
                    #[trigger] on_perimeter(gw, gh, gx, gy, gr, px, py) && target_done(
                        gw, gh, gx, gy, gr, gminx, gminy + 1, px, py,
                    ) && ray_marks(map, gx, gy, gr * gr, px, py, cx, cy);
                assert(false);
            }
        };
    }
    visibles
}

/// Compute the set of cells visible from `(x, y)` within `radius` on `map`,
/// returned as world coordinates in row-major window order.
///
/// The result is exactly `fov_list`: the origin alone when the radius is
/// below one or the window degenerates, else every cell of the window that
/// a perimeter ray sweeps or the diagonal post-processor promotes.
#[verifier::loop_isolation(false)]
#[verifier::rlimit(100)]
pub fn field_of_view<M: VisionMap>(map: &mut M, x: i32, y: i32, radius: i32) -> (res: Vec<(i32, i32)>)
    requires
        old(map).wf(),
        0 <= x as int && (x as int) < old(map).spec_width(),
        0 <= y as int && (y as int) < old(map).spec_height(),
        old(map).spec_width() * old(map).spec_height() <= 0x7fff_ffff,
    ensures
        *final(map) == *old(map),
        points_view(res@) == fov_list(old(map), x as int, y as int, radius as int),
{
    let m: &M = map;
    let ghost gx: int = x as int;
    let ghost gy: int = y as int;
    let ghost gr: int = radius as int;
    if radius < 1 {
        let mut out: Vec<(i32, i32)> = Vec::new();
        out.push((x, y));
        proof {
            assert(points_view(out@) =~= seq![(gx, gy)]);
        }
        return out;
    }
    let dims: (i32, i32) = m.dimensions();
    let w: i32 = dims.0;
    let h: i32 = dims.1;
    let ghost gw: int = m.spec_width();
    let ghost gh: int = m.spec_height();
    proof {
        assert(0 <= gr * gr <= 0x4000_0000_0000_0000) by (nonlinear_arith)
            requires
                1 <= gr <= 0x7fff_ffff,
        ;
    }
    let rsq: i64 = radius as i64 * radius as i64;
    let minx: i32 = if x - radius > 0 {
        x - radius
    } else {
        0
    };
    let miny: i32 = if y - radius > 0 {
        y - radius
    } else {
        0
    };
    let maxx: i32 = if (x as i64) + (radius as i64) < (w as i64) - 1 {
        x + radius
    } else {
        w - 1
    };
    let maxy: i32 = if (y as i64) + (radius as i64) < (h as i64) - 1 {
        y + radius
    } else {
        h - 1
    };
    let ghost gminx: int = axis_min(gx, gr);
    let ghost gminy: int = axis_min(gy, gr);
    let ghost gmaxx: int = axis_max(gw, gx, gr);
    let ghost gmaxy: int = axis_max(gh, gy, gr);
    assert(minx as int == gminx && miny as int == gminy && maxx as int == gmaxx && maxy as int
        == gmaxy);
    if maxx - minx == 0 || maxy - miny == 0 {
        let mut out: Vec<(i32, i32)> = Vec::new();
        out.push((x, y));
        proof {
            assert(degenerate_window(gw, gh, gx, gy, gr));
            assert(points_view(out@) =~= seq![(gx, gy)]);
        }
        return out;
    }
    let subw: i32 = maxx - minx + 1;
    let subh: i32 = maxy - miny + 1;
    let ghost gsubw: int = subw as int;
    let ghost gsubh: int = subh as int;
    proof {
        assert(gsubw * gsubh <= gw * gh) by (nonlinear_arith)
            requires
                1 <= gsubw <= gw,
                1 <= gsubh <= gh,
        ;
    }
    let mut visibles: Vec<bool> = init_visibles(m, x, y, radius, minx, miny, maxx, maxy, subw,
        subh, rsq);
    cast_row_rays(m, &mut visibles, x, y, radius, minx, miny, maxx, maxy, subw, subh, rsq);
    cast_col_rays(m, &mut visibles, x, y, radius, minx, miny, maxx, maxy, subw, subh, rsq);
    promote_quadrants(m, &mut visibles, x, y, radius, minx, miny, maxx, maxy, subw, subh, rsq);
    let out: Vec<(i32, i32)> = collect_visible(m, &visibles, x, y, radius, minx, miny, maxx, maxy,
        subw, subh, rsq);
    proof {
        assert(points_view(out@) == fov_list(m, gx, gy, gr));
    }
    out
}


/// Mark every cell of `list` in a dense row-major `width` by `height`
/// buffer.
#[verifier::loop_isolation(false)]
pub fn mark_points(vision: &mut Vec<bool>, width: i32, height: i32, list: &Vec<(i32, i32)>)
    requires
        1 <= width as int,
        1 <= height as int,
        width as int * height as int <= 0x7fff_ffff,
        old(vision)@.len() == width as int * height as int,
        forall|k: int|
            0 <= k < list@.len() ==> 0 <= (#[trigger] list@[k]).0 as int
                && ((list@[k].0 as int) < width as int) && 0 <= list@[k].1 as int
                && ((list@[k].1 as int) < height as int),
    ensures
        final(vision)@.len() == old(vision)@.len(),
        forall|cx: int, cy: int|
            0 <= cx < width as int && 0 <= cy < height as int
                ==> final(vision)@[#[trigger] lidx(0, 0, width as int, cx, cy)]
                == (old(vision)@[lidx(0, 0, width as int, cx, cy)] || points_view(list@).contains(
                (cx, cy))),
{
    let ghost gw: int = width as int;
    let ghost gh: int = height as int;
    let ghost b0: Seq<bool> = vision@;
    let mut k: usize = 0;
    while k < list.len()
        invariant
            0 <= k as int <= list@.len(),
            vision@.len() == b0.len(),
            forall|cx: int, cy: int|
                0 <= cx < gw && 0 <= cy < gh ==> vision@[#[trigger] lidx(0, 0, gw, cx, cy)] == (
                b0[lidx(0, 0, gw, cx, cy)] || exists|kk: int|
                    0 <= kk < k as int && ((#[trigger] list@[kk]).0 as int, list@[kk].1 as int)
                        == (cx, cy)),
        decreases list@.len() - k as int,
    {
        let p: (i32, i32) = list[k];
        proof {
            lemma_lidx_bijective(0, 0, gw, gh, p.0 as int, p.1 as int);
            assert((p.1 as int) * gw <= (gh - 1) * gw) by (nonlinear_arith)
                requires
                    p.1 as int <= gh - 1,
                    0 <= gw,
            ;
        }
        let idx: usize = (p.0 + p.1 * width) as usize;
        vision.set(idx, true);
        proof {
            let gk = k as int;
            assert forall|cx: int, cy: int|
                0 <= cx < gw && 0 <= cy < gh implies vision@[#[trigger] lidx(0, 0, gw, cx, cy)]
                == (b0[lidx(0, 0, gw, cx, cy)] || exists|kk: int|
                    0 <= kk < gk + 1 && ((#[trigger] list@[kk]).0 as int, list@[kk].1 as int)
                        == (cx, cy)) by {
                lemma_lidx_bijective(0, 0, gw, gh, cx, cy);
                if cx == p.0 as int && cy == p.1 as int {
                    assert(((list@[gk]).0 as int, list@[gk].1 as int) == (cx, cy));
                } else {
                    if exists|kk: int|
                        0 <= kk < gk + 1 && ((#[trigger] list@[kk]).0 as int, list@[kk].1 as int)
                            == (cx, cy) {
                        let kk = choose|kk: int|
                            0 <= kk < gk + 1 && ((#[trigger] list@[kk]).0 as int, list@[kk].1
                                as int) == (cx, cy);
                        assert(kk < gk);
                    }
                }
            };
        }
        k = k + 1;
    }
    proof {
        assert forall|cx: int, cy: int|
            0 <= cx < gw && 0 <= cy < gh implies vision@[#[trigger] lidx(0, 0, gw, cx, cy)] == (
            b0[lidx(0, 0, gw, cx, cy)] || points_view(list@).contains((cx, cy))) by {
            lemma_lidx_bijective(0, 0, gw, gh, cx, cy);
            let pv = points_view(list@);
            if exists|kk: int|
                0 <= kk < list@.len() && ((#[trigger] list@[kk]).0 as int, list@[kk].1 as int)
                    == (cx, cy) {
                let kk = choose|kk: int|
                    0 <= kk < list@.len() && ((#[trigger] list@[kk]).0 as int, list@[kk].1 as int)
                        == (cx, cy);
                assert(pv[kk] == (cx, cy));
                assert(pv.contains((cx, cy)));
            }
            if pv.contains((cx, cy)) {
                let kk = choose|kk: int| 0 <= kk < pv.len() && pv[kk] == (cx, cy);
                assert(((list@[kk]).0 as int, list@[kk].1 as int) == (cx, cy));
            }
        };
    }
}


/// The visible set depends only on the dimensions and the transparency
/// data: two maps that agree on them produce the same visibility at every
/// cell, whatever else (such as a stored visibility buffer) differs.
pub proof fn lemma_fov_visible_congruence<M1: VisionMap, M2: VisionMap>(
    m1: &M1,
    m2: &M2,
    ox: int,
    oy: int,
    r: int,
    cx: int,
    cy: int,
)
    requires
        m1.spec_width() == m2.spec_width(),
        m1.spec_height() == m2.spec_height(),
        forall|ax: int, ay: int| #[trigger] m1.spec_transparent(ax, ay) == m2.spec_transparent(
            ax,
            ay,
        ),
    ensures
        swept(m1, ox, oy, r, cx, cy) == swept(m2, ox, oy, r, cx, cy),
        fov_visible(m1, ox, oy, r, cx, cy) == fov_visible(m2, ox, oy, r, cx, cy),
{
    let w = m1.spec_width();
    let h = m1.spec_height();
    lemma_swept_congruence(m1, m2, ox, oy, r, cx, cy);
    if promoted(m1, ox, oy, r, cx, cy) || promoted(m2, ox, oy, r, cx, cy) {
        let nx = toward(cx, ox);
        let ny = toward(cy, oy);
        lemma_swept_congruence(m1, m2, ox, oy, r, nx, cy);
        lemma_swept_congruence(m1, m2, ox, oy, r, cx, ny);
    }
}

/// The swept set depends only on the dimensions and the transparency data.
proof fn lemma_swept_congruence<M1: VisionMap, M2: VisionMap>(
    m1: &M1,
    m2: &M2,
    ox: int,
    oy: int,
    r: int,
    cx: int,
    cy: int,
)
    requires
        m1.spec_width() == m2.spec_width(),
        m1.spec_height() == m2.spec_height(),
        forall|ax: int, ay: int| #[trigger] m1.spec_transparent(ax, ay) == m2.spec_transparent(
            ax,
            ay,
        ),
    ensures
        swept(m1, ox, oy, r, cx, cy) == swept(m2, ox, oy, r, cx, cy),
{
    let w = m1.spec_width();
    let h = m1.spec_height();
    if swept(m1, ox, oy, r, cx, cy) && !(cx == ox && cy == oy) {
        let (px, py) = choose|px: int, py: int|
            #[trigger] on_perimeter(w, h, ox, oy, r, px, py) && ray_marks(
                m1, ox, oy, r * r, px, py, cx, cy,
            );
        lemma_ray_marks_congruence(m1, m2, ox, oy, r * r, px, py, cx, cy);
        assert(on_perimeter(w, h, ox, oy, r, px, py) && ray_marks(m2, ox, oy, r * r, px, py, cx, cy));
    }
    if swept(m2, ox, oy, r, cx, cy) && !(cx == ox && cy == oy) {
        let (px, py) = choose|px: int, py: int|
            #[trigger] on_perimeter(w, h, ox, oy, r, px, py) && ray_marks(
                m2, ox, oy, r * r, px, py, cx, cy,
            );
        lemma_ray_marks_congruence(m1, m2, ox, oy, r * r, px, py, cx, cy);
        assert(on_perimeter(w, h, ox, oy, r, px, py) && ray_marks(m1, ox, oy, r * r, px, py, cx, cy));
    }
}

/// What a single ray marks depends only on the transparency data.
proof fn lemma_ray_marks_congruence<M1: VisionMap, M2: VisionMap>(
    m1: &M1,
    m2: &M2,
    ox: int,
    oy: int,
    rsq: int,
    px: int,
    py: int,
    cx: int,
    cy: int,
)
    requires
        forall|ax: int, ay: int| #[trigger] m1.spec_transparent(ax, ay) == m2.spec_transparent(
            ax,
            ay,
        ),
    ensures
        ray_marks(m1, ox, oy, rsq, px, py, cx, cy) == ray_marks(m2, ox, oy, rsq, px, py, cx, cy),
{
    let l = line_seq((ox, oy), (px, py));
    let n = l.len() as int;
    if ray_marks(m1, ox, oy, rsq, px, py, cx, cy) {
        let jj = choose|jj: int|
            1 <= jj < n && #[trigger] l[jj] == (cx, cy) && (forall|k: int|
                1 <= k < jj ==> m1.spec_transparent((#[trigger] l[k]).0, l[k].1));
        assert forall|k: int| 1 <= k < jj implies m2.spec_transparent((#[trigger] l[k]).0, l[k].1) by {
            assert(m1.spec_transparent(l[k].0, l[k].1));
        };
        assert(1 <= jj < n && l[jj] == (cx, cy) && (forall|k: int|
            1 <= k < jj ==> m2.spec_transparent((#[trigger] l[k]).0, l[k].1)));
    }
    if ray_marks(m2, ox, oy, rsq, px, py, cx, cy) {
        let jj = choose|jj: int|
            1 <= jj < n && #[trigger] l[jj] == (cx, cy) && (forall|k: int|
                1 <= k < jj ==> m2.spec_transparent((#[trigger] l[k]).0, l[k].1));
        assert forall|k: int| 1 <= k < jj implies m1.spec_transparent((#[trigger] l[k]).0, l[k].1) by {
            assert(m2.spec_transparent(l[k].0, l[k].1));
        };
        assert(1 <= jj < n && l[jj] == (cx, cy) && (forall|k: int|
            1 <= k < jj ==> m1.spec_transparent((#[trigger] l[k]).0, l[k].1)));
    }
}

} // verus!

//! Integer digital-line rasterization.
//!
//! `line_seq` is the mathematical description of the digital line between two
//! lattice points: one cell per step, consecutive cells 8-connected, both
//! endpoints included.  `line_points` computes it.  The line is defined in
//! closed form: walking the major axis one cell at a time, the minor-axis
//! offset after `i` steps is `i * minor_span / major_span` rounded to the
//! nearest integer (ties rounded down), which is the line a Bresenham error
//! accumulator traces.

use vstd::prelude::*;

verus! {

use vstd::arithmetic::div_mod::{
    lemma_basic_div, lemma_div_is_ordered, lemma_div_plus_one, lemma_div_multiples_vanish_fancy,
    lemma_div_pos_is_pos,
};

/// Absolute value over `int`.
pub open spec fn iabs(n: int) -> int {
    if n < 0 {
        -n
    } else {
        n
    }
}

/// Direction of one axis of a line: `1` for non-negative spans, `-1` otherwise.
pub open spec fn step_sign(d: int) -> int {
    if d >= 0 {
        1
    } else {
        -1
    }
}

/// Number of cells of the digital line from `a` to `b`: one more than the
/// Chebyshev distance between the endpoints.
pub open spec fn line_len(a: (int, int), b: (int, int)) -> int {
    let adx = iabs(b.0 - a.0);
    let ady = iabs(b.1 - a.1);
    1 + if adx >= ady {
        adx
    } else {
        ady
    }
}

/// Minor-axis offset after `i` major-axis steps of a line spanning `major`
/// cells on the major axis and `minor` on the minor axis: the rounded value
/// of `i * minor / major`.
pub open spec fn minor_offset(major: int, minor: int, i: int) -> int {
    (2 * i * minor + major) / (2 * major)
}

/// An offset applied to a coordinate in the direction of the axis span `d`.
pub open spec fn walk(from: int, d: int, offset: int) -> int {
    if d >= 0 {
        from + offset
    } else {
        from - offset
    }
}

/// The `i`-th cell of the digital line from `a` to `b`.
pub open spec fn line_point(a: (int, int), b: (int, int), i: int) -> (int, int) {
    let dx = b.0 - a.0;
    let dy = b.1 - a.1;
    let adx = iabs(dx);
    let ady = iabs(dy);
    if adx >= ady {
        if adx == 0 {
            a
        } else {
            (walk(a.0, dx, i), walk(a.1, dy, minor_offset(adx, ady, i)))
        }
    } else {
        (walk(a.0, dx, minor_offset(ady, adx, i)), walk(a.1, dy, i))
    }
}

/// The digital line from `a` to `b`, both endpoints included.
pub open spec fn line_seq(a: (int, int), b: (int, int)) -> Seq<(int, int)> {
    Seq::new(line_len(a, b) as nat, |i: int| line_point(a, b, i))
}

/// A pair of machine integers as a pair of mathematical integers.
pub open spec fn point_view(p: (i32, i32)) -> (int, int) {
    (p.0 as int, p.1 as int)
}

pub proof fn lemma_minor_offset_bounds(major: int, minor: int, i: int)
    requires
        1 <= major,
        0 <= minor <= major,
        0 <= i <= major,
    ensures
        0 <= minor_offset(major, minor, i) <= minor,
{
    let n = 2 * i * minor + major;
    let d = 2 * major;
    assert(0 <= 2 * i * minor) by (nonlinear_arith)
        requires
            0 <= i,
            0 <= minor,
    ;
    lemma_div_pos_is_pos(n, d);
    assert(2 * i * minor <= 2 * major * minor) by (nonlinear_arith)
        requires
            i <= major,
            0 <= minor,
    ;
    assert(2 * major * minor + major < d * (minor + 1)) by (nonlinear_arith)
        requires
            1 <= major,
            d == 2 * major,
    ;
    assert(n < d * (minor + 1));
    vstd::arithmetic::div_mod::lemma_multiply_divide_lt(n, d, minor + 1);
}

pub proof fn lemma_minor_offset_monotonic(major: int, minor: int, i: int, j: int)
    requires
        1 <= major,
        0 <= minor,
        0 <= i <= j,
    ensures
        minor_offset(major, minor, i) <= minor_offset(major, minor, j),
{
    assert(2 * i * minor <= 2 * j * minor) by (nonlinear_arith)
        requires
            i <= j,
            0 <= minor,
    ;
    lemma_div_is_ordered(2 * i * minor + major, 2 * j * minor + major, 2 * major);
}

proof fn lemma_minor_offset_step(major: int, minor: int, i: int)
    requires
        1 <= major,
        0 <= minor <= major,
        0 <= i,
    ensures
        minor_offset(major, minor, i) <= minor_offset(major, minor, i + 1)
            <= minor_offset(major, minor, i) + 1,
{
    let n = 2 * i * minor + major;
    let d = 2 * major;
    lemma_minor_offset_monotonic(major, minor, i, i + 1);
    assert(2 * (i + 1) * minor == 2 * i * minor + 2 * minor) by (nonlinear_arith);
    lemma_div_is_ordered(2 * (i + 1) * minor + major, n + d, d);
    lemma_div_plus_one(n, d);
}

proof fn lemma_minor_offset_last(major: int, minor: int)
    requires
        1 <= major,
        0 <= minor <= major,
    ensures
        minor_offset(major, minor, major) == minor,
{
    let d = 2 * major;
    assert(2 * major * minor + major == d * minor + major) by (nonlinear_arith)
        requires
            d == 2 * major,
    ;
    lemma_div_multiples_vanish_fancy(minor, major, d);
}

/// The first cell of a digital line is its starting point.
pub proof fn lemma_line_first(a: (int, int), b: (int, int))
    ensures
        line_point(a, b, 0) == a,
        line_seq(a, b)[0] == a,
        line_seq(a, b).len() >= 1,
{
    let adx = iabs(b.0 - a.0);
    let ady = iabs(b.1 - a.1);
    if adx >= ady {
        if adx != 0 {
            lemma_basic_div(adx, 2 * adx);
            assert(0 * ady == 0);
        }
    } else {
        lemma_basic_div(ady, 2 * ady);
        assert(0 * adx == 0);
    }
}

/// The last cell of a digital line is its destination.
pub proof fn lemma_line_last(a: (int, int), b: (int, int))
    ensures
        line_seq(a, b)[line_seq(a, b).len() - 1] == b,
{
    let dx = b.0 - a.0;
    let dy = b.1 - a.1;
    let adx = iabs(dx);
    let ady = iabs(dy);
    if adx >= ady {
        if adx == 0 {
            assert(line_point(a, b, 0) == a);
            assert(a == b);
        } else {
            lemma_minor_offset_last(adx, ady);
            assert(walk(a.0, dx, adx) == b.0);
            assert(walk(a.1, dy, ady) == b.1);
        }
    } else {
        lemma_minor_offset_last(ady, adx);
        assert(walk(a.0, dx, adx) == b.0);
        assert(walk(a.1, dy, ady) == b.1);
    }
}

/// Every cell of a digital line lies within the bounding rectangle of its
/// endpoints.
pub proof fn lemma_line_in_box(a: (int, int), b: (int, int), i: int)
    requires
        0 <= i < line_seq(a, b).len(),
    ensures
        vstd::math::min(a.0, b.0) <= line_seq(a, b)[i].0 <= vstd::math::max(a.0, b.0),
        vstd::math::min(a.1, b.1) <= line_seq(a, b)[i].1 <= vstd::math::max(a.1, b.1),
{
    let dx = b.0 - a.0;
    let dy = b.1 - a.1;
    let adx = iabs(dx);
    let ady = iabs(dy);
    if adx >= ady {
        if adx != 0 {
            lemma_minor_offset_bounds(adx, ady, i);
        }
    } else {
        lemma_minor_offset_bounds(ady, adx, i);
    }
}

/// Consecutive cells of a digital line are distinct 8-connected neighbors:
/// each coordinate changes by at most one, and the major axis always steps.
pub proof fn lemma_line_step(a: (int, int), b: (int, int), i: int)
    requires
        0 <= i,
        i + 1 < line_seq(a, b).len(),
    ensures
        iabs(line_seq(a, b)[i + 1].0 - line_seq(a, b)[i].0) <= 1,
        iabs(line_seq(a, b)[i + 1].1 - line_seq(a, b)[i].1) <= 1,
        line_seq(a, b)[i + 1] != line_seq(a, b)[i],
{
    let dx = b.0 - a.0;
    let dy = b.1 - a.1;
    let adx = iabs(dx);
    let ady = iabs(dy);
    if adx >= ady {
        lemma_minor_offset_step(adx, ady, i);
    } else {
        lemma_minor_offset_step(ady, adx, i);
    }
}

/// A horizontal digital line never leaves its row.
pub proof fn lemma_line_horizontal(a: (int, int), b: (int, int), i: int)
    requires
        a.1 == b.1,
        0 <= i < line_seq(a, b).len(),
    ensures
        line_seq(a, b)[i] == (walk(a.0, b.0 - a.0, i), a.1),
{
    let dx = b.0 - a.0;
    let adx = iabs(dx);
    if adx == 0 {
        assert(line_seq(a, b).len() == 1);
    } else {
        assert(2 * i * 0 + adx == adx);
        lemma_basic_div(adx, 2 * adx);
    }
}

/// A vertical digital line never leaves its column.
pub proof fn lemma_line_vertical(a: (int, int), b: (int, int), i: int)
    requires
        a.0 == b.0,
        0 <= i < line_seq(a, b).len(),
    ensures
        line_seq(a, b)[i] == (a.0, walk(a.1, b.1 - a.1, i)),
{
    let dy = b.1 - a.1;
    let ady = iabs(dy);
    if ady == 0 {
        assert(line_seq(a, b).len() == 1);
    } else {
        assert(2 * i * 0 + ady == ady);
        lemma_basic_div(ady, 2 * ady);
    }
}

/// All grid cells of the digital line from `(x0, y0)` to `(x1, y1)`, both
/// endpoints included, in walking order.
#[verifier::loop_isolation(false)]
pub fn line_points(x0: i32, y0: i32, x1: i32, y1: i32) -> (r: Vec<(i32, i32)>)
    ensures
        r@.len() == line_seq((x0 as int, y0 as int), (x1 as int, y1 as int)).len(),
        forall|i: int|
            0 <= i < r@.len() ==> point_view(#[trigger] r@[i]) == line_seq(
                (x0 as int, y0 as int),
                (x1 as int, y1 as int),
            )[i],
{
    let ghost a: (int, int) = (x0 as int, y0 as int);
    let ghost b: (int, int) = (x1 as int, y1 as int);
    let dx: i64 = x1 as i64 - x0 as i64;
    let dy: i64 = y1 as i64 - y0 as i64;
    let adx: i64 = if dx >= 0 {
        dx
    } else {
        -dx
    };
    let ady: i64 = if dy >= 0 {
        dy
    } else {
        -dy
    };
    let sx: i64 = if dx >= 0 {
        1
    } else {
        -1
    };
    let sy: i64 = if dy >= 0 {
        1
    } else {
        -1
    };
    let steps: i64 = if adx >= ady {
        adx
    } else {
        ady
    };
    let mut out: Vec<(i32, i32)> = Vec::new();
    let mut i: i64 = 0;
    while i <= steps
        invariant
            0 <= i <= steps + 1,
            out@.len() == i as int,
            forall|k: int| 0 <= k < i as int ==> point_view(#[trigger] out@[k]) == line_point(a, b, k),
        decreases steps + 1 - i,
    {
        let px: i64;
        let py: i64;
        if adx >= ady {
            if adx == 0 {
                px = x0 as i64;
                py = y0 as i64;
            } else {
                px = if dx >= 0 {
                    x0 as i64 + i
                } else {
                    x0 as i64 - i
                };
                proof {
                    assert(0 <= 2 * (i as int) * (ady as int) <= 0x2_0000_0000_0000_0000)
                        by (nonlinear_arith)
                        requires
                            0 <= i as int <= 0x1_0000_0000,
                            0 <= ady as int <= 0x1_0000_0000,
                    ;
                    lemma_minor_offset_bounds(adx as int, ady as int, i as int);
                }
                let m: i64 = ((2 * (i as u128) * (ady as u128) + adx as u128) / (2 * adx as u128))
                    as i64;
                py = if dy >= 0 {
                    y0 as i64 + m
                } else {
                    y0 as i64 - m
                };
            }
        } else {
            py = if dy >= 0 {
                y0 as i64 + i
            } else {
                y0 as i64 - i
            };
            proof {
                assert(0 <= 2 * (i as int) * (adx as int) <= 0x2_0000_0000_0000_0000)
                    by (nonlinear_arith)
                    requires
                        0 <= i as int <= 0x1_0000_0000,
                        0 <= adx as int <= 0x1_0000_0000,
                ;
                lemma_minor_offset_bounds(ady as int, adx as int, i as int);
            }
            let m: i64 = ((2 * (i as u128) * (adx as u128) + ady as u128) / (2 * ady as u128))
                as i64;
            px = if dx >= 0 {
                x0 as i64 + m
            } else {
                x0 as i64 - m
            };
        }
        out.push((px as i32, py as i32));
        i = i + 1;
    }
    out
}

} // verus!

//! A sample owner of transparency data built on the capability-based
//! sweep: it queries `field_of_view` and stores the returned coordinate
//! list in its own dense visibility buffer.

use vstd::prelude::*;

verus! {

use crate::fov::{
    VisionMap, fov_visible, field_of_view, mark_points, points_view, lidx, lemma_lidx_bijective,
    lemma_fov_list_membership, lemma_fov_visible_in_window, lemma_fov_visible_congruence,
};

/// A map that stores transparency and visibility densely and recomputes
/// visibility through the capability-based sweep.
#[derive(Debug)]
pub struct SampleMap {
    /// Which cells let sight through.
    transparent: Vec<bool>,
    /// The visibility computed by the most recent `calculate_fov`.
    vision: Vec<bool>,
    /// The width of the map.
    width: i32,
    /// The height of the map.
    height: i32,
    /// The origin of the most recent computation, if one happened.
    last_origin: Option<(i32, i32)>,
}

impl VisionMap for SampleMap {
    closed spec fn wf(&self) -> bool {
        1 <= self.width as int && 1 <= self.height as int && self.width as int * self.height
            as int <= 0x7fff_ffff && self.transparent@.len() == self.width as int * self.height
            as int && self.vision@.len() == self.width as int * self.height as int
    }

    closed spec fn spec_width(&self) -> int {
        self.width as int
    }

    closed spec fn spec_height(&self) -> int {
        self.height as int
    }

    closed spec fn spec_transparent(&self, x: int, y: int) -> bool {
        self.transparent@[x + y * (self.width as int)]
    }

    fn dimensions(&self) -> (r: (i32, i32)) {
        (self.width, self.height)
    }

    fn is_transparent(&self, x: i32, y: i32) -> (r: bool) {
        proof {
            lemma_lidx_bijective(0, 0, self.width as int, self.height as int, x as int, y as int);
            assert((y as int) * (self.width as int) <= (self.height as int - 1) * (self.width
                as int)) by (nonlinear_arith)
                requires
                    y as int <= self.height as int - 1,
                    0 <= self.width as int,
            ;
        }
        let index: usize = (x + y * self.width) as usize;
        self.transparent[index]
    }
}

impl SampleMap {
    /// Whether the most recent computation left `(x, y)` visible; `false`
    /// everywhere before the first computation.
    pub closed spec fn spec_in_fov(&self, x: int, y: int) -> bool {
        self.vision@[x + y * (self.width as int)]
    }

    /// The origin of the most recent computation, if one happened.
    pub closed spec fn spec_last_origin(&self) -> Option<(i32, i32)> {
        self.last_origin
    }

    /// Create a map of the given dimensions with every cell transparent and
    /// no cell visible.
    pub fn new(width: i32, height: i32) -> (r: SampleMap)
        requires
            1 <= width as int,
            1 <= height as int,
            width as int * height as int <= 0x7fff_ffff,
        ensures
            r.wf(),
            r.spec_width() == width as int,
            r.spec_height() == height as int,
            forall|x: int, y: int|
                0 <= x < width as int && 0 <= y < height as int ==> r.spec_transparent(x, y),
            forall|x: int, y: int|
                0 <= x < width as int && 0 <= y < height as int ==> !r.spec_in_fov(x, y),
            r.spec_last_origin() is None,
    {
        let len: usize = (width as usize) * (height as usize);
        let r = SampleMap {
            transparent: vec![true; len],
            vision: vec![false; len],
            width,
            height,
            last_origin: None,
        };
        proof {
            assert forall|x: int, y: int|
                0 <= x < width as int && 0 <= y < height as int implies r.spec_transparent(x, y)
                && !r.spec_in_fov(x, y) by {
                lemma_lidx_bijective(0, 0, width as int, height as int, x, y);
            };
        }
        r
    }

    /// Flag a cell as transparent or opaque.
    pub fn set_transparent(&mut self, x: i32, y: i32, is_transparent: bool)
        requires
            old(self).wf(),
            0 <= x as int && (x as int) < old(self).spec_width(),
            0 <= y as int && (y as int) < old(self).spec_height(),
        ensures
            final(self).wf(),
            final(self).spec_width() == old(self).spec_width(),
            final(self).spec_height() == old(self).spec_height(),
            forall|ax: int, ay: int|
                0 <= ax < old(self).spec_width() && 0 <= ay < old(self).spec_height()
                    ==> #[trigger] final(self).spec_in_fov(ax, ay) == old(self).spec_in_fov(ax, ay),
            final(self).spec_last_origin() == old(self).spec_last_origin(),
            forall|ax: int, ay: int|
                0 <= ax < old(self).spec_width() && 0 <= ay < old(self).spec_height()
                    ==> #[trigger] final(self).spec_transparent(ax, ay) == (if ax == x as int && ay
                    == y as int {
                    is_transparent
                } else {
                    old(self).spec_transparent(ax, ay)
                }),
    {
        proof {
            lemma_lidx_bijective(0, 0, self.width as int, self.height as int, x as int, y as int);
            assert((y as int) * (self.width as int) <= (self.height as int - 1) * (self.width
                as int)) by (nonlinear_arith)
                requires
                    y as int <= self.height as int - 1,
                    0 <= self.width as int,
            ;
        }
        let index: usize = (x + y * self.width) as usize;
        self.transparent.set(index, is_transparent);
        proof {
            assert forall|ax: int, ay: int|
                0 <= ax < self.spec_width() && 0 <= ay < self.spec_height()
                    implies #[trigger] self.spec_transparent(ax, ay) == (if ax == x as int && ay
                    == y as int {
                    is_transparent
                } else {
                    old(self).spec_transparent(ax, ay)
                }) by {
                lemma_lidx_bijective(0, 0, self.width as int, self.height as int, ax, ay);
            };
        }
    }

    /// Whether the most recent computation left `(x, y)` visible.
    pub fn is_in_fov(&self, x: i32, y: i32) -> (r: bool)
        requires
            self.wf(),
            0 <= x as int && (x as int) < self.spec_width(),
            0 <= y as int && (y as int) < self.spec_height(),
        ensures
            r == self.spec_in_fov(x as int, y as int),
    {
        proof {
            lemma_lidx_bijective(0, 0, self.width as int, self.height as int, x as int, y as int);
            assert((y as int) * (self.width as int) <= (self.height as int - 1) * (self.width
                as int)) by (nonlinear_arith)
                requires
                    y as int <= self.height as int - 1,
                    0 <= self.width as int,
            ;
        }
        let index: usize = (x + y * self.width) as usize;
        self.vision[index]
    }

    /// Recalculate the visible cells for an observer at `(x, y)` with the
    /// given radius: afterwards exactly the cells of `fov_visible` are in
    /// the field of view.
    #[verifier::loop_isolation(false)]
    pub fn calculate_fov(&mut self, x: i32, y: i32, radius: i32)
        requires
            old(self).wf(),
            0 <= x as int && (x as int) < old(self).spec_width(),
            0 <= y as int && (y as int) < old(self).spec_height(),
        ensures
            final(self).wf(),
            final(self).spec_width() == old(self).spec_width(),
            final(self).spec_height() == old(self).spec_height(),
            forall|ax: int, ay: int|
                0 <= ax < old(self).spec_width() && 0 <= ay < old(self).spec_height()
                    ==> #[trigger] final(self).spec_transparent(ax, ay) == old(
                    self,
                ).spec_transparent(ax, ay),
            final(self).spec_last_origin() == Some((x, y)),
            forall|cx: int, cy: int|
                0 <= cx < old(self).spec_width() && 0 <= cy < old(self).spec_height()
                    ==> #[trigger] final(self).spec_in_fov(cx, cy) == fov_visible(
                    old(self),
                    x as int,
                    y as int,
                    radius as int,
                    cx,
                    cy,
                ),
    {
        let ghost gw: int = self.width as int;
        let ghost gh: int = self.height as int;
        let ghost gx: int = x as int;
        let ghost gy: int = y as int;
        let ghost gr: int = radius as int;
        let width: i32 = self.width;
        let height: i32 = self.height;
        let len: usize = self.vision.len();
        let mut i: usize = 0;
        while i < len
            invariant
                0 <= i as int <= len as int,
                self.width == old(self).width,
                self.height == old(self).height,
                self.transparent@ == old(self).transparent@,
                self.last_origin == old(self).last_origin,
                self.vision@.len() == len as int,
                forall|k: int| 0 <= k < i as int ==> !(#[trigger] self.vision@[k]),
            decreases len as int - i as int,
        {
            self.vision.set(i, false);
            i = i + 1;
        }
        let list: Vec<(i32, i32)> = field_of_view(self, x, y, radius);
        proof {
            assert forall|k: int| 0 <= k < list@.len() implies 0 <= (#[trigger] list@[k]).0 as int
                && ((list@[k].0 as int) < width as int) && 0 <= list@[k].1 as int && ((list@[k].1
                as int) < height as int) by {
                let pv = points_view(list@);
                assert(pv[k] == (list@[k].0 as int, list@[k].1 as int));
                assert(pv.contains(pv[k]));
                lemma_fov_list_membership(self, gx, gy, gr, pv[k].0, pv[k].1);
                if !(pv[k] == (gx, gy)) && radius >= 1 {
                    lemma_fov_visible_in_window(self, gx, gy, gr, pv[k].0, pv[k].1);
                }
            };
        }
        let ghost smid: SampleMap = *self;
        let mut vision: Vec<bool> = Vec::new();
        core::mem::swap(&mut vision, &mut self.vision);
        mark_points(&mut vision, width, height, &list);
        core::mem::swap(&mut vision, &mut self.vision);
        self.last_origin = Some((x, y));
        proof {
            assert forall|cx: int, cy: int|
                0 <= cx < gw && 0 <= cy < gh implies #[trigger] self.spec_in_fov(cx, cy)
                == fov_visible(old(self), gx, gy, gr, cx, cy) by {
                lemma_lidx_bijective(0, 0, gw, gh, cx, cy);
                assert(cx + cy * gw == lidx(0, 0, gw, cx, cy));
                lemma_fov_list_membership(&smid, gx, gy, gr, cx, cy);
                lemma_fov_visible_congruence(&smid, old(self), gx, gy, gr, cx, cy);
            };
        }
    }
}

} // verus!

//! The game-world map: tiles with blocking and sight-blocking flags, room
//! and tunnel carving, and the player's field of view computed through the
//! capability-based sweep.

use vstd::prelude::*;

verus! {

use crate::fov::{VisionMap, field_of_view, fov_list, points_view, lidx, lemma_lidx_bijective};

/// A coordinate pair on the map.
#[derive(Debug, PartialEq, Copy, Clone)]
pub struct Position {
    /// The column.
    pub x: i32,
    /// The row.
    pub y: i32,
}

impl Position {
    /// A position from its two coordinates.
    pub fn new(x: i32, y: i32) -> (r: Position)
        ensures
            r.x == x,
            r.y == y,
    {
        Position { x, y }
    }

    /// Move this position onto another one.
    pub fn set_position(&mut self, position: &Position)
        ensures
            final(self).x == position.x,
            final(self).y == position.y,
    {
        self.x = position.x;
        self.y = position.y;
    }
}

/// One cell of the game world.
#[derive(Debug, Clone)]
pub struct Tile {
    /// Whether the cell blocks movement.
    pub blocking: bool,
    /// Whether the cell blocks sight.
    pub block_sight: bool,
}

impl Tile {
    /// An open floor tile.
    pub fn empty() -> (r: Tile)
        ensures
            !r.blocking,
            !r.block_sight,
    {
        Tile { blocking: false, block_sight: false }
    }

    /// A wall tile.
    pub fn wall() -> (r: Tile)
        ensures
            r.blocking,
            r.block_sight,
    {
        Tile { blocking: true, block_sight: true }
    }
}

/// An axis-aligned rectangle used for room carving.
#[derive(Debug)]
pub struct Rect {
    /// Left edge.
    pub x1: i32,
    /// Right edge.
    pub x2: i32,
    /// Top edge.
    pub y1: i32,
    /// Bottom edge.
    pub y2: i32,
}

impl Rect {
    /// A rectangle from its corner and its extent.
    pub fn new(x: i32, y: i32, width: i32, height: i32) -> (r: Rect)
        requires
            i32::MIN as int <= x as int + width as int <= i32::MAX as int,
            i32::MIN as int <= y as int + height as int <= i32::MAX as int,
        ensures
            r.x1 == x,
            r.y1 == y,
            r.x2 as int == x as int + width as int,
            r.y2 as int == y as int + height as int,
    {
        Rect { x1: x, y1: y, x2: x + width, y2: y + height }
    }

    /// The cell at the middle of the rectangle.
    pub fn center(&self) -> (r: (i32, i32))
        requires
            0 <= self.x1 as int + self.x2 as int,
            0 <= self.y1 as int + self.y2 as int,
        ensures
            r.0 as int == (self.x1 as int + self.x2 as int) / 2,
            r.1 as int == (self.y1 as int + self.y2 as int) / 2,
    {
        let center_x: i32 = ((self.x1 as i64 + self.x2 as i64) / 2) as i32;
        let center_y: i32 = ((self.y1 as i64 + self.y2 as i64) / 2) as i32;
        (center_x, center_y)
    }

    /// Whether this rectangle touches or overlaps another one.
    pub fn intersects_with(&self, other: &Rect) -> (r: bool)
        ensures
            r == (self.x1 <= other.x2 && self.x2 >= other.x1 && self.y1 <= other.y2 && self.y2
                >= other.y1),
    {
        (self.x1 <= other.x2) && (self.x2 >= other.x1) && (self.y1 <= other.y2) && (self.y2
            >= other.y1)
    }
}

/// The marker component of the player entity.
pub struct Player;

/// The game world: a dense tile grid with movement-blocking bookkeeping
/// and the player's most recent field of view.
#[derive(Debug)]
pub struct GameMap {
    /// The width of the map.
    pub width: i32,
    /// The height of the map.
    pub height: i32,
    /// The terrain.
    pub tiles: Vec<Tile>,
    /// Which cells the player has seen at some point.
    pub explored_tiles: Vec<bool>,
    /// Which cells block movement right now, terrain and bodies combined.
    pub blocked: Vec<bool>,
    /// The player's most recent field of view, as world coordinates.
    pub player_fov: Vec<(i32, i32)>,
    /// The dungeon level this map belongs to.
    pub depth: i32,
}

impl VisionMap for GameMap {
    open spec fn wf(&self) -> bool {
        1 <= self.width as int && 1 <= self.height as int && self.width as int * self.height
            as int <= 0x7fff_ffff && self.tiles@.len() == self.width as int * self.height as int
            && self.explored_tiles@.len() == self.width as int * self.height as int
            && self.blocked@.len() == self.width as int * self.height as int
    }

    open spec fn spec_width(&self) -> int {
        self.width as int
    }

    open spec fn spec_height(&self) -> int {
        self.height as int
    }

    open spec fn spec_transparent(&self, x: int, y: int) -> bool {
        !self.tiles@[x + y * (self.width as int)].block_sight
    }

    fn dimensions(&self) -> (r: (i32, i32)) {
        (self.width, self.height)
    }

    fn is_transparent(&self, x: i32, y: i32) -> (r: bool) {
        proof {
            lemma_lidx_bijective(0, 0, self.width as int, self.height as int, x as int, y as int);
            assert((y as int) * (self.width as int) <= (self.height as int - 1) * (self.width
                as int)) by (nonlinear_arith)
                requires
                    y as int <= self.height as int - 1,
                    0 <= self.width as int,
            ;
        }
        let index: usize = (x + y * self.width) as usize;
        !self.tiles[index].block_sight
    }
}

impl GameMap {
    /// The buffer index of a position: out-of-range positions fold to the
    /// first cell.
    pub open spec fn spec_index(&self, position: Position) -> int {
        if position.x < 0 || position.x as int >= self.width as int || position.y < 0
            || position.y as int >= self.height as int {
            0
        } else {
            position.x as int + position.y as int * (self.width as int)
        }
    }

    /// The buffer index of a position.
    pub fn index(&self, position: Position) -> (r: usize)
        requires
            self.wf(),
        ensures
            r as int == self.spec_index(position),
            (r as int) < self.width as int * self.height as int,
    {
        let x: i32 = position.x;
        let y: i32 = position.y;
        if x < 0 || x >= self.width || y < 0 || y >= self.height {
            proof {
                assert(1 * 1 <= self.width as int * self.height as int) by (nonlinear_arith)
                    requires
                        1 <= self.width as int,
                        1 <= self.height as int,
                ;
            }
            0
        } else {
            proof {
                assert(1 * 1 <= self.width as int * self.height as int) by (nonlinear_arith)
                    requires
                        1 <= self.width as int,
                        1 <= self.height as int,
                ;
                lemma_lidx_bijective(0, 0, self.width as int, self.height as int, x as int, y as int);
                assert(x as int + y as int * (self.width as int) == lidx(0, 0, self.width as int,
                    x as int, y as int));
                assert((y as int) * (self.width as int) <= (self.height as int - 1) * (self.width
                    as int)) by (nonlinear_arith)
                    requires
                        y as int <= self.height as int - 1,
                        0 <= self.width as int,
                ;
            }
            (x + y * self.width) as usize
        }
    }

    /// Whether the cell at a position blocks movement.
    pub fn is_blocked(&self, position: Position) -> (r: bool)
        requires
            self.wf(),
        ensures
            r == self.blocked@[self.spec_index(position)],
    {
        let index: usize = self.index(position);
        self.blocked[index]
    }

    /// Record whether the cell at a position blocks movement.
    pub fn set_blocked(&mut self, position: Position, is_blocked: bool)
        requires
            old(self).wf(),
        ensures
            final(self).wf(),
            final(self).width == old(self).width,
            final(self).height == old(self).height,
            final(self).tiles@ == old(self).tiles@,
            final(self).explored_tiles@ == old(self).explored_tiles@,
            final(self).player_fov@ == old(self).player_fov@,
            final(self).depth == old(self).depth,
            final(self).blocked@ == old(self).blocked@.update(old(self).spec_index(position),
                is_blocked),
    {
        let index: usize = self.index(position);
        self.blocked.set(index, is_blocked);
    }

    /// Whether `(x, y)` lies within the map.
    pub fn is_in_bounds(&self, x: i32, y: i32) -> (r: bool)
        ensures
            r == (0 <= x as int && (x as int) < self.width as int && 0 <= y as int && (y as int)
                < self.height as int),
    {
        x >= 0 && x < self.width && y >= 0 && y < self.height
    }

    /// Whether the player's most recent field of view contains `(x, y)`.
    #[verifier::loop_isolation(false)]
    pub fn is_in_player_fov(&self, x: i32, y: i32) -> (r: bool)
        ensures
            r == self.player_fov@.contains((x, y)),
    {
        let mut k: usize = 0;
        while k < self.player_fov.len()
            invariant
                0 <= k as int <= self.player_fov@.len(),
                forall|kk: int| 0 <= kk < k as int ==> #[trigger] self.player_fov@[kk] != (x, y),
            decreases self.player_fov@.len() - k as int,
        {
            let p: (i32, i32) = self.player_fov[k];
            if p.0 == x && p.1 == y {
                return true;
            }
            k = k + 1;
        }
        false
    }

    /// Recompute the player's field of view from `(x, y)` with the given
    /// radius.
    pub fn calculate_player_fov(&mut self, x: i32, y: i32, radius: i32)
        requires
            old(self).wf(),
            0 <= x as int && (x as int) < old(self).width as int,
            0 <= y as int && (y as int) < old(self).height as int,
        ensures
            final(self).wf(),
            final(self).width == old(self).width,
            final(self).height == old(self).height,
            final(self).tiles@ == old(self).tiles@,
            final(self).explored_tiles@ == old(self).explored_tiles@,
            final(self).blocked@ == old(self).blocked@,
            final(self).depth == old(self).depth,
            points_view(final(self).player_fov@) == fov_list(old(self), x as int, y as int,
                radius as int),
    {
        let list: Vec<(i32, i32)> = field_of_view(self, x, y, radius);
        self.player_fov = list;
    }
}

/// Carve the interior of a room into open floor.
#[verifier::loop_isolation(false)]
pub fn create_room(room: &Rect, map: &mut GameMap)
    requires
        old(map).wf(),
        room.x1 as int + 1 < room.x2 as int ==> 0 <= room.x1 as int + 1 && room.x2 as int
            <= old(map).width as int,
        room.y1 as int + 1 < room.y2 as int ==> 0 <= room.y1 as int + 1 && room.y2 as int
            <= old(map).height as int,
    ensures
        final(map).wf(),
        final(map).width == old(map).width,
        final(map).height == old(map).height,
        final(map).explored_tiles@ == old(map).explored_tiles@,
        final(map).blocked@ == old(map).blocked@,
        final(map).player_fov@ == old(map).player_fov@,
        final(map).depth == old(map).depth,
        forall|cx: int, cy: int|
            0 <= cx < old(map).width as int && 0 <= cy < old(map).height as int
                ==> #[trigger] final(map).tiles@[lidx(0, 0, old(map).width as int, cx, cy)] == (
                if room.x1 as int + 1 <= cx < room.x2 as int && room.y1 as int + 1 <= cy < room.y2
                    as int {
                    Tile { blocking: false, block_sight: false }
                } else {
                    old(map).tiles@[lidx(0, 0, old(map).width as int, cx, cy)]
                }),
{
    let ghost gw: int = map.width as int;
    let ghost gh: int = map.height as int;
    let width: i32 = map.width;
    if (room.x1 as i64) + 1 >= room.x2 as i64 || (room.y1 as i64) + 1 >= room.y2 as i64 {
        return ;
    }
    let mut x: i32 = room.x1 + 1;
    while x < room.x2
        invariant
            room.x1 as int + 1 < room.x2 as int,
            room.y1 as int + 1 < room.y2 as int,
            room.x1 as int + 1 <= x as int <= room.x2 as int,
            map.wf(),
            map.width == old(map).width,
            map.height == old(map).height,
            map.explored_tiles@ == old(map).explored_tiles@,
            map.blocked@ == old(map).blocked@,
            map.player_fov@ == old(map).player_fov@,
            map.depth == old(map).depth,
            forall|cx: int, cy: int|
                0 <= cx < gw && 0 <= cy < gh ==> #[trigger] map.tiles@[lidx(0, 0, gw, cx, cy)]
                    == (if room.x1 as int + 1 <= cx < x as int && room.y1 as int + 1 <= cy
                    < room.y2 as int {
                    Tile { blocking: false, block_sight: false }
                } else {
                    old(map).tiles@[lidx(0, 0, gw, cx, cy)]
                }),
        decreases room.x2 as int - x as int,
    {
        let mut y: i32 = room.y1 + 1;
        while y < room.y2
            invariant
                room.x1 as int + 1 <= x as int && (x as int) < room.x2 as int,
                room.y1 as int + 1 <= y as int <= room.y2 as int,
                map.wf(),
                map.width == old(map).width,
                map.height == old(map).height,
                map.explored_tiles@ == old(map).explored_tiles@,
                map.blocked@ == old(map).blocked@,
                map.player_fov@ == old(map).player_fov@,
                map.depth == old(map).depth,
                forall|cx: int, cy: int|
                    0 <= cx < gw && 0 <= cy < gh ==> #[trigger] map.tiles@[lidx(0, 0, gw, cx, cy)]
                        == (if (room.x1 as int + 1 <= cx < x as int && room.y1 as int + 1 <= cy
                        < room.y2 as int) || (cx == x as int && room.y1 as int + 1 <= cy < y
                        as int) {
                        Tile { blocking: false, block_sight: false }
                    } else {
                        old(map).tiles@[lidx(0, 0, gw, cx, cy)]
                    }),
            decreases room.y2 as int - y as int,
        {
            proof {
                lemma_lidx_bijective(0, 0, gw, gh, x as int, y as int);
                assert((y as int) * gw <= (gh - 1) * gw) by (nonlinear_arith)
                    requires
                        y as int <= gh - 1,
                        0 <= gw,
                ;
            }
            let index: usize = (x + y * width) as usize;
            map.tiles.set(index, Tile::empty());
            proof {
                assert forall|cx: int, cy: int|
                    0 <= cx < gw && 0 <= cy < gh implies #[trigger] map.tiles@[lidx(0, 0, gw, cx,
                    cy)] == (if (room.x1 as int + 1 <= cx < x as int && room.y1 as int + 1 <= cy
                    < room.y2 as int) || (cx == x as int && room.y1 as int + 1 <= cy < y as int
                    + 1) {
                    Tile { blocking: false, block_sight: false }
                } else {
                    old(map).tiles@[lidx(0, 0, gw, cx, cy)]
                }) by {
                    lemma_lidx_bijective(0, 0, gw, gh, cx, cy);
                };
            }
            y = y + 1;
        }
        x = x + 1;
    }
}

/// Carve a horizontal tunnel of open floor at row `y` between the two
/// columns, both included.
#[verifier::loop_isolation(false)]
pub fn create_horizontal_tunnel(x1: i32, x2: i32, y: i32, map: &mut GameMap)
    requires
        old(map).wf(),
        0 <= vstd::math::min(x1 as int, x2 as int),
        vstd::math::max(x1 as int, x2 as int) < old(map).width as int,
        0 <= y as int && (y as int) < old(map).height as int,
    ensures
        final(map).wf(),
        final(map).width == old(map).width,
        final(map).height == old(map).height,
        final(map).explored_tiles@ == old(map).explored_tiles@,
        final(map).blocked@ == old(map).blocked@,
        final(map).player_fov@ == old(map).player_fov@,
        final(map).depth == old(map).depth,
        forall|cx: int, cy: int|
            0 <= cx < old(map).width as int && 0 <= cy < old(map).height as int
                ==> #[trigger] final(map).tiles@[lidx(0, 0, old(map).width as int, cx, cy)] == (
                if vstd::math::min(x1 as int, x2 as int) <= cx <= vstd::math::max(x1 as int, x2
                    as int) && cy == y as int {
                    Tile { blocking: false, block_sight: false }
                } else {
                    old(map).tiles@[lidx(0, 0, old(map).width as int, cx, cy)]
                }),
{
    let ghost gw: int = map.width as int;
    let ghost gh: int = map.height as int;
    let width: i32 = map.width;
    let lo: i32 = if x1 < x2 {
        x1
    } else {
        x2
    };
    let hi: i32 = if x1 < x2 {
        x2
    } else {
        x1
    };
    let mut x: i32 = lo;
    while x <= hi
        invariant
            lo as int <= x as int <= hi as int + 1,
            map.wf(),
            map.width == old(map).width,
            map.height == old(map).height,
            map.explored_tiles@ == old(map).explored_tiles@,
            map.blocked@ == old(map).blocked@,
            map.player_fov@ == old(map).player_fov@,
            map.depth == old(map).depth,
            forall|cx: int, cy: int|
                0 <= cx < gw && 0 <= cy < gh ==> #[trigger] map.tiles@[lidx(0, 0, gw, cx, cy)]
                    == (if lo as int <= cx < x as int && cy == y as int {
                    Tile { blocking: false, block_sight: false }
                } else {
                    old(map).tiles@[lidx(0, 0, gw, cx, cy)]
                }),
        decreases hi as int + 1 - x as int,
    {
        proof {
            lemma_lidx_bijective(0, 0, gw, gh, x as int, y as int);
            assert((y as int) * gw <= (gh - 1) * gw) by (nonlinear_arith)
                requires
                    y as int <= gh - 1,
                    0 <= gw,
            ;
        }
        let index: usize = (x + y * width) as usize;
        map.tiles.set(index, Tile::empty());
        proof {
            assert forall|cx: int, cy: int|
                0 <= cx < gw && 0 <= cy < gh implies #[trigger] map.tiles@[lidx(0, 0, gw, cx, cy)]
                == (if lo as int <= cx < x as int + 1 && cy == y as int {
                Tile { blocking: false, block_sight: false }
            } else {
                old(map).tiles@[lidx(0, 0, gw, cx, cy)]
            }) by {
                lemma_lidx_bijective(0, 0, gw, gh, cx, cy);
            };
        }
        x = x + 1;
    }
}

/// Carve a vertical tunnel of open floor at column `x` between the two
/// rows, both included.
#[verifier::loop_isolation(false)]
pub fn create_vertical_tunnel(y1: i32, y2: i32, x: i32, map: &mut GameMap)
    requires
        old(map).wf(),
        0 <= vstd::math::min(y1 as int, y2 as int),
        vstd::math::max(y1 as int, y2 as int) < old(map).height as int,
        0 <= x as int && (x as int) < old(map).width as int,
    ensures
        final(map).wf(),
        final(map).width == old(map).width,
        final(map).height == old(map).height,
        final(map).explored_tiles@ == old(map).explored_tiles@,
        final(map).blocked@ == old(map).blocked@,
        final(map).player_fov@ == old(map).player_fov@,
        final(map).depth == old(map).depth,
        forall|cx: int, cy: int|
            0 <= cx < old(map).width as int && 0 <= cy < old(map).height as int
                ==> #[trigger] final(map).tiles@[lidx(0, 0, old(map).width as int, cx, cy)] == (
                if vstd::math::min(y1 as int, y2 as int) <= cy <= vstd::math::max(y1 as int, y2
                    as int) && cx == x as int {
                    Tile { blocking: false, block_sight: false }
                } else {
                    old(map).tiles@[lidx(0, 0, old(map).width as int, cx, cy)]
                }),
{
    let ghost gw: int = map.width as int;
    let ghost gh: int = map.height as int;
    let width: i32 = map.width;
    let lo: i32 = if y1 < y2 {
        y1
    } else {
        y2
    };
    let hi: i32 = if y1 < y2 {
        y2
    } else {
        y1
    };
    let mut y: i32 = lo;
    while y <= hi
        invariant
            lo as int <= y as int <= hi as int + 1,
            map.wf(),
            map.width == old(map).width,
            map.height == old(map).height,
            map.explored_tiles@ == old(map).explored_tiles@,
            map.blocked@ == old(map).blocked@,
            map.player_fov@ == old(map).player_fov@,
            map.depth == old(map).depth,
            forall|cx: int, cy: int|
                0 <= cx < gw && 0 <= cy < gh ==> #[trigger] map.tiles@[lidx(0, 0, gw, cx, cy)]
                    == (if lo as int <= cy < y as int && cx == x as int {
                    Tile { blocking: false, block_sight: false }
                } else {
                    old(map).tiles@[lidx(0, 0, gw, cx, cy)]
                }),
        decreases hi as int + 1 - y as int,
    {
        proof {
            lemma_lidx_bijective(0, 0, gw, gh, x as int, y as int);
            assert((y as int) * gw <= (gh - 1) * gw) by (nonlinear_arith)
                requires
                    y as int <= gh - 1,
                    0 <= gw,
            ;
        }
        let index: usize = (x + y * width) as usize;
        map.tiles.set(index, Tile::empty());
        proof {
            assert forall|cx: int, cy: int|
                0 <= cx < gw && 0 <= cy < gh implies #[trigger] map.tiles@[lidx(0, 0, gw, cx, cy)]
                == (if lo as int <= cy < y as int + 1 && cx == x as int {
                Tile { blocking: false, block_sight: false }
            } else {
                old(map).tiles@[lidx(0, 0, gw, cx, cy)]
            }) by {
                lemma_lidx_bijective(0, 0, gw, gh, cx, cy);
            };
        }
        y = y + 1;
    }
}

} // verus!

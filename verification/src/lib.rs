//! Grid-based field-of-view computation for 2D tile worlds.
//!
//! Given a rectangular grid whose cells are flagged transparent or opaque,
//! an observer position and a vision radius, the library computes the set of
//! cells visible from that position: rays are cast from the origin to every
//! cell on the perimeter of the radius' bounding square, cells are marked
//! visible until a ray is stopped by an opaque cell, and a post-processing
//! pass repairs the visibility of wall cells tucked diagonally behind
//! visible floor.

pub mod bresenham;
pub mod fov;
pub mod fovmap;
pub mod samplemap;
pub mod gamemap;
pub mod laws;

pub use fov::{VisionMap, field_of_view};
pub use fovmap::FovMap;
pub use samplemap::SampleMap;
pub use gamemap::{GameMap, Position, Tile, Rect, Player, create_room, create_horizontal_tunnel, create_vertical_tunnel};

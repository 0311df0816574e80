//! A uniform spatial hash grid that tracks the current position of a dynamic
//! population of movable objects and answers proximity queries in time
//! proportional to the neighbourhood looked at, not to the total population.
//!
//! The grid partitions a square world of `unit_size` units per axis into
//! `subsection_size` × `subsection_size` cells, each owning a [`Tile`]: the
//! bucket of objects currently inside that cell. An [`Index`] combines the
//! grid with a reverse lookup from object handle to exact bucket slot, so
//! inserting, moving and removing an object are all constant-time, and
//! [`Index::nearby_entities`] walks only the square of cells around a query
//! point.

mod board;
mod coord;
mod index;
mod tile;

pub use board::Board;
pub use coord::{Coord, SurroundingCoords};
pub use index::{Index, SurroundingEntites};
pub use tile::{Entity, EntityPosition, Position, Tile, TileIter};

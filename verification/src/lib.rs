//! A generic basis for grids: square, hex, and whatever else your game needs.
//!
//! Boards are [`Grid`]s: a [`FullGrid`] holds any set of cells, a [`RectGrid`] computes a plain
//! rectangle, and a [`SubGrid`] is a region of either that answers every question about itself.
//! Cells have two names, a coordinate and a dense [`Idx`]; the searches speak indices. A
//! [`Graph`] has the same searches over nodes named by keys of your own.

pub mod between;
pub mod cells;
pub mod coord;
pub mod distance;
pub mod full;
pub mod graph;
pub mod grid;
pub mod height;

pub mod layout;
pub mod line;
pub mod path;
pub mod rect;
pub mod square;
pub mod search;
pub mod sub;
pub mod tag;
mod text;

pub use cells::CellMap;
pub use coord::{Coord, Dir6, Dir8, Hex, Idx, Metric, Sq};
pub use full::{Adjacency, FullGrid, GridError, MAX_CELLS};
pub use graph::{Graph, GraphError};
pub use grid::{Dir, Grid, RootGrid, Sight, MAX_SIGHT};
pub use height::{climb_gate, height_gate};
pub use layout::{Offset, Orientation};
pub use path::{Cost, Movement, Path, Step};
pub use rect::RectGrid;
pub use square::{CornerRule, corner_gate};
pub use sub::SubGrid;
pub use tag::Tag;

//! Grid and coordinate primitives plus small text-parsing combinators for
//! puzzle inputs.
//!
//! Coordinates are row-major: a [`Point`] is `(row, col)`, i.e. `(y, x)`.

pub mod grid;
pub mod parser;
pub mod point;
pub mod solutions;
pub mod text;

pub use grid::{CellHook, Grid, GridParser, NoHook, Recorder};
pub use parser::{IsInput, Parser, PointParser, Reverse, Seperated, Take, TyParser, XyParser};
pub use point::{Direction, Offset, Point};
pub use text::Separator;


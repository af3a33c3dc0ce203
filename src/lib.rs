//! A Minesweeper board: parsing a grid of bombs and safe cells from text,
//! revealing the number of neighbouring bombs of every safe cell, and
//! rendering the revealed grid back to text.

pub mod cell;
pub mod field;
pub mod text;

pub use cell::{Cell, CellKind, OpenCellKind};
pub use field::{Field, GameField, OpenField, ParseError};

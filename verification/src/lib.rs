//! Squared-square tilings of small grids.
//!
//! The crate enumerates every way to cut an `n x n` grid into axis-aligned
//! squares with integer sides, and derives, for one chosen tiling, the list of
//! its squares in the order of their ids.
//!
//! A tiling is a matrix of ids: the cells of one square share an id, and the
//! ids 1, 2, 3, ... are given to the squares in the row-major order of their
//! top-left corners. [`find_squarings`] lists all tilings of a side,
//! [`SquareGrid`] picks one of them and holds its squares, and
//! [`render_matrix`] writes a matrix as text.
//!
//! The contracts are stated over [`matrix::Matrix`], the sequence of rows that
//! a `Vec<Vec<i32>>` stands for. The main statements:
//!
//! - [`find_squarings`] returns the tilings of the side and nothing else, each
//!   once, the one with the smaller square at the first corner where two
//!   differ first ([`tiling::is_enumeration`]). Only one sequence does so
//!   ([`tiling::lemma_enumeration_unique`]), and it is never empty
//!   ([`tiling::lemma_enumeration_nonempty`]).
//! - [`compute_squares`] returns the bounding box of each id, by ascending id
//!   ([`layout::is_layout`]); a matrix has one such layout
//!   ([`cover::lemma_layout_unique`]).
//! - The layout of a tiling holds the square of id `i + 1` at index `i`
//!   ([`cover::lemma_layout_by_id`]), and its squares cover every cell of the
//!   grid exactly once ([`cover::lemma_layout_partitions_grid`]).

pub mod cover;
pub mod layout;
mod listing;
pub mod matrix;
pub mod order;
pub mod search;
pub mod selection;
mod step;
pub mod text;
pub mod tiling;

pub use layout::{compute_squares, Square};
pub use search::{can_place, find_first_empty, find_squarings, place_square, solve, MAX_SIDE};
pub use selection::{select_index, SquareGrid};
pub use text::render_matrix;

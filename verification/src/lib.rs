//! Solver library for a calendar tiling puzzle: polyomino pieces are placed
//! on a fixed grid whose date cells are pre-occupied, and the solver finds
//! one or all exact tilings of the remaining cells.

pub mod board;
pub mod calendar;
pub mod hints;
pub mod piece;
pub mod pieces;
pub mod region;

pub use board::Board;
pub use calendar::Day;
pub use piece::Piece;
pub use piece::Placement;
pub use piece::Rotation;
pub use pieces::Pieces;

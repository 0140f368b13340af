//! Piece lifecycle and spatial interaction engine of a jigsaw puzzle.
//!
//! - `descriptor`: the immutable piece descriptors of one decomposed puzzle.
//! - `pipeline`: bookkeeping of the background crop jobs, one per piece.
//! - `board`: the live per-piece state, drag state and merged groups.
//! - `controller`: pointer, zoom and hint handling on top of the board.
pub mod board;
pub mod controller;
pub mod descriptor;
pub mod pipeline;

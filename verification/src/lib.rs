//! Word-search ("crossword") puzzle solving: a grid of letters is built from a
//! string, and words are looked up in the eight compass directions.

pub mod direction;
pub mod grid;
pub mod index;
pub mod layout;
pub mod order;
pub mod paint;
pub mod position;
pub mod render;
pub mod settings;
pub mod solver;
pub mod text;

pub use direction::WordDirection;
pub use position::CrosswordPosition;
pub use solver::{CrosswordDimensions, CrosswordError, CrosswordPuzzleSolver, CrosswordWordData};

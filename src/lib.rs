//! A solver for standard 9x9 Sudoku puzzles: constraint propagation (naked and
//! hidden singles) combined with an exhaustive branching search.
pub mod display;
pub mod parser;
pub mod point;
pub mod sudoku_state;
pub mod sudoku_value;

pub use point::SudokuPoint;
pub use sudoku_state::{SudokuError, SudokuState};
pub use sudoku_value::SudokuValue;

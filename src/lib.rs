//! Generation of complete, valid Sudoku boards by randomized backtracking.

pub mod board;
pub mod config;
pub mod generate;
pub mod neighbors;
pub mod random;
pub mod solution;
pub mod text;

pub use board::SudokuBoard;
pub use config::{coord_to_index, index_to_coord, BoardConfig, Coord, SudokuError};
pub use generate::{
    generate_and_fill_board, generate_and_fill_board_with, generate_and_fill_boards,
    generate_and_fill_boards_with,
};
pub use neighbors::SudokuCell;
pub use text::serializeBoard;

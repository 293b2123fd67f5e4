pub mod board;
pub mod checker;
pub mod generate;
pub mod laws;
pub mod render;
pub mod search;

pub use board::Sudoku;

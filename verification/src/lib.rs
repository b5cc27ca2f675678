pub mod controller;
pub mod data;
pub mod laws;
pub mod masks;
pub mod reduction;
pub mod soundness;
pub mod sudoku_board;
pub mod sudoku_state;
pub mod text;
pub mod twins;

pub mod constants;
pub mod engine;
pub mod gomoku;
pub mod keys;
pub mod search_board;
pub mod search_state;
pub mod sorting;
pub mod tracker;

pub use crate::search_board::position_name;

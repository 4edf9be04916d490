pub mod board;
pub mod eval;
pub mod move_exec;
pub mod move_gen;
pub mod numbers;
pub mod render;
pub mod search;
pub mod value;

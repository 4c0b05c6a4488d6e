pub mod grid;
pub mod point;

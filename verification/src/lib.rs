pub mod count;
pub mod grid;
pub mod laws;
pub mod parse;
pub mod render;
pub mod solver;
pub mod validity;
pub mod space;

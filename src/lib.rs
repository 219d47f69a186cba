pub mod flood;
pub mod ga;
pub mod grid;
pub mod img;
pub mod laws;
pub mod layout;
pub mod piece;
pub mod render;
pub mod segment;
pub mod solve;

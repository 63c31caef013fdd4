pub mod cell;
pub mod laws;
pub mod names;
pub mod render;
pub mod table;

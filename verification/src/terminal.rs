//! A terminal screen, and what it shows.

pub mod buffer;
pub mod grid;
pub mod grid_laws;
pub mod parser;
pub mod renderer;
pub mod shown_laws;

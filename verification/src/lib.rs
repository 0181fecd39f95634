pub mod text;
pub mod tags;
pub mod bresenham;
pub mod blocks;
pub mod rails;
pub mod elevation;
pub mod way;
pub mod bridges;
pub mod railways;

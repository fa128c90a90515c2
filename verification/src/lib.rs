pub mod board;
pub mod cell;
pub mod grid;
mod rng;
pub mod session;

//! A stand-alone Go position on a rectangular grid: what a stone placed now
//! would capture, and which stones on the board are dead for scoring.
//!
//! [`PseudoBoard`] is the executable board. [`Grid`] is its mathematical
//! model, over which every contract of the board's methods is stated.

pub mod board;
pub mod capture;
pub mod chain;
pub mod connect;
pub mod grid;
pub mod liberty;
pub mod listing;
mod marks;
pub mod queries;
pub mod region;
mod search;
pub mod simulate;
pub mod territory;

pub use board::PseudoBoard;
pub use grid::Grid;
pub use grid::Sign;
pub use grid::Vertex;

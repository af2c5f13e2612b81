//! Turn-based navigation on a fixed-size obstacle grid: the grid itself, a
//! shortest-path search over it, and the session rules that move a player
//! token towards a chosen target.

pub mod frontier;
pub mod game;
pub mod grid;
pub mod pathfinder;
pub mod random;
pub mod search;
pub mod ui;
pub mod walk;

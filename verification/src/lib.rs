//! Conway's Game of Life on a rectangular grid with hard edges.
//!
//! The `game` module holds the verified engine: board construction, the
//! next-generation rule, and the lifecycle state machine. The `laws`
//! module proves general facts about the rule: still lifes are fixed
//! points, a lone cell starves, and the blinker oscillates forever.

pub mod game;
pub mod laws;

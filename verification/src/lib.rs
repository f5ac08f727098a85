//! A falling-block puzzle game engine: a bordered playing field, the seven
//! canonical piece shapes with their rotation states, collision-checked
//! placement, line clearing, and the per-tick state machine that ties
//! input, gravity and locking together.

pub mod block;
pub mod field;
pub mod game;
pub mod grid;

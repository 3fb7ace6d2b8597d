//! Game logic of a Klotski sliding-block puzzle: the board and its blocks,
//! the checks a board must pass before a game starts, the level map that is
//! drawn from a board, and the rules by which blocks are selected and pushed.

pub mod block;
pub mod board;
pub mod components;
pub mod events;
pub mod entity;
pub mod constants;
pub mod rendering;
pub mod text;
pub mod game;
pub mod level;
pub mod event_process;

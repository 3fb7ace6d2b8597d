use vstd::prelude::*;
use crate::components::PositionDuringGame;

verus! {

/// A direction of the arrow keys.
#[derive(Clone, Copy, PartialEq, Eq, Structural, Debug)]
pub enum Direction {
    Up,
    Down,
    Left,
    Right,
}

/// Whether the game goes on.
#[derive(Clone, Copy, PartialEq, Eq, Structural, Debug)]
pub enum GameState {
    Running,
    GameOver,
}

/// What the level records about itself once it is built: where its exit
/// cells are, which arrow key leads through the exit, the state of the game
/// and the size of the level map.
pub struct GameGlobals {
    pub exit_positions: Vec<PositionDuringGame>,
    pub exit_key: Direction,
    pub game_state: GameState,
    pub map_width: u8,
    pub map_height: u8,
}

impl GameGlobals {
    /// No exit yet, the down key, a running game and an empty map.
    pub fn new() -> (g: Self)
        ensures
            g.exit_positions@.len() == 0,
            g.exit_key == Direction::Down,
            g.game_state == GameState::Running,
            g.map_width == 0,
            g.map_height == 0,
    {
        GameGlobals {
            exit_positions: Vec::new(),
            exit_key: Direction::Down,
            game_state: GameState::Running,
            map_width: 0,
            map_height: 0,
        }
    }
}

} // verus!

use vstd::prelude::*;
use crate::events::Event;

verus! {

broadcast use vstd::string::group_string_axioms;

/// Marks a wall tile.
pub struct WallDuringGame {}

/// Marks a block of the puzzle.
pub struct BlockDuringGame {}

/// Marks an exit tile.
pub struct ExitDuringGame {}

/// Marks what a push can move.
pub struct Movable;

/// Marks what stops a push.
pub struct Immovable;

/// The events that are waiting to be processed.
pub struct EventQueue {
    pub events: Vec<Event>,
}

impl EventQueue {
    /// An empty queue.
    pub fn new() -> (queue: Self)
        ensures
            queue.events@.len() == 0,
    {
        EventQueue { events: Vec::new() }
    }
}

/// A cell of the level map and a drawing layer `z`.
#[derive(Clone, Copy, PartialEq, Eq, Structural, Hash, Debug)]
pub struct PositionDuringGame {
    pub x: u8,
    pub y: u8,
    pub z: u8,
}

/// The size of a block in cells.
#[derive(Clone, Copy, PartialEq, Eq, Structural, Debug)]
pub struct Size {
    pub width: u8,
    pub height: u8,
}

/// The name under which a block is selected.
pub struct BlockId {
    pub block_id: String,
}

/// The cells a block covers.
pub struct CollisionVolume {
    pub occupied_cells: Vec<PositionDuringGame>,
}

/// The image paths an entity is drawn with: one for a still image, several
/// for an animation.
pub struct Renderable {
    paths: Vec<String>,
}

/// Whether a renderable is a still image or an animation.
#[derive(Clone, Copy, PartialEq, Eq, Structural, Debug)]
pub enum RenderableKind {
    Static,
    Animated,
}

impl View for Renderable {
    type V = Seq<Seq<char>>;

    closed spec fn view(&self) -> Seq<Seq<char>> {
        self.paths@.map_values(|p: String| p@)
    }
}

impl Renderable {
    /// A still image drawn from `path`.
    pub fn new_static(path: &str) -> (r: Self)
        ensures
            r@ == seq![path@],
    {
        let mut paths: Vec<String> = Vec::new();
        paths.push(path.to_string());
        let r = Self { paths };
        assert(r@ =~= seq![path@]);
        r
    }

    /// An animation drawn from `paths`, in their order.
    pub fn new_animated(paths: Vec<&str>) -> (r: Self)
        ensures
            r@ == paths@.map_values(|p: &str| p@),
    {
        let mut owned: Vec<String> = Vec::new();
        let n = paths.len();
        for i in 0..n
            invariant
                n == paths@.len(),
                owned@.len() == i,
                forall|k: int| 0 <= k < i ==> #[trigger] owned@[k]@ == paths@[k]@,
        {
            owned.push(paths[i].to_string());
        }
        let r = Self { paths: owned };
        assert(r@ =~= paths@.map_values(|p: &str| p@));
        r
    }

    /// Still for one path, animated for more; a renderable without a path is
    /// invalid.
    pub fn kind(&self) -> (k: RenderableKind)
        requires
            self@.len() > 0,
        ensures
            k == (if self@.len() == 1 { RenderableKind::Static } else { RenderableKind::Animated }),
    {
        let n = self.paths.len();
        if n == 1 {
            RenderableKind::Static
        } else {
            RenderableKind::Animated
        }
    }

    /// The path at `path_index`; an index past the last path wraps around, by
    /// the remainder of its division by the number of paths.
    pub fn path(&self, path_index: usize) -> (p: String)
        requires
            self@.len() > 0,
        ensures
            p@ == self@[(path_index as int) % (self@.len() as int)],
    {
        self.paths[path_index % self.paths.len()].clone()
    }
}

/// Whether a block may leave through the exit.
#[derive(Clone, Copy, PartialEq, Eq, Structural, Debug)]
pub enum BlockType {
    /// A block that stays on the board.
    Regular,
    /// A block that may pass through the exit.
    Special,
}

/// The escape type of a block entity.
#[derive(Clone, Copy, PartialEq, Eq, Structural, Debug)]
pub struct BlockEscapeType {
    pub block_type: BlockType,
}

/// Whether the game is still being played.
#[derive(Clone, Copy, PartialEq, Eq, Structural, Debug)]
pub enum GameplayState {
    Playing,
    Won,
}

impl GameplayState {
    /// The state's name as it is shown to the player.
    pub fn name(&self) -> (s: String)
        ensures
            s@ == (match self {
                GameplayState::Playing => "Playing"@,
                GameplayState::Won => "Won"@,
            }),
    {
        match self {
            GameplayState::Playing => "Playing".to_string(),
            GameplayState::Won => "Won".to_string(),
        }
    }
}

impl Default for GameplayState {
    fn default() -> (s: Self)
        ensures
            s == GameplayState::Playing,
    {
        GameplayState::Playing
    }
}

/// The state of play and the number of moves made.
#[derive(Clone, Copy, PartialEq, Eq, Structural, Debug)]
pub struct Gameplay {
    pub state: GameplayState,
    pub moves_count: u32,
}

impl Default for Gameplay {
    fn default() -> (g: Self)
        ensures
            g == (Gameplay { state: GameplayState::Playing, moves_count: 0 }),
    {
        Gameplay { state: GameplayState::Playing, moves_count: 0 }
    }
}

/// The time that passed since the last frame, in nanoseconds.
pub struct Time {
    pub delta_nanos: u64,
}

impl Time {
    /// No time passed yet.
    pub fn new() -> (t: Self)
        ensures
            t.delta_nanos == 0,
    {
        Time { delta_nanos: 0 }
    }
}

} // verus!

use vstd::prelude::*;
use crate::block::Block;
use crate::text::{decimal, push_decimal};

verus! {

/// The side of the board on which the exit opens.
#[derive(Clone, Copy, PartialEq, Eq, Structural, Debug)]
pub enum ExitSide {
    Top,
    Bottom,
    Left,
    Right,
}

/// Where the exit lies on its side of the board.
#[derive(Clone, Copy, PartialEq, Eq, Structural, Debug)]
pub struct ExitPosition {
    pub side: ExitSide,
    /// On the left and right sides: the distance to the top edge;
    /// on the top and bottom sides: the distance to the left edge.
    pub distance_to_edge: u8,
    pub length: u8,
}

/// The board: its size, its exit and the blocks placed on it.
pub struct Board {
    pub width: u8,
    pub height: u8,
    pub exit_position: ExitPosition,
    pub blocks: Vec<Block>,
}

/// The name of an exit side.
pub open spec fn side_name(side: ExitSide) -> Seq<char> {
    match side {
        ExitSide::Top => "Top"@,
        ExitSide::Bottom => "Bottom"@,
        ExitSide::Left => "Left"@,
        ExitSide::Right => "Right"@,
    }
}

/// The one-line description of a board: its size and its exit.
pub open spec fn board_summary(b: Board) -> Seq<char> {
    "Board - Width: "@ + decimal(b.width as nat) + ", Height: "@ + decimal(b.height as nat)
        + ", Exit Side: "@ + side_name(b.exit_position.side)
        + ", Distance to Edge: "@ + decimal(b.exit_position.distance_to_edge as nat)
        + ", Length: "@ + decimal(b.exit_position.length as nat)
}

impl Board {
    /// The one-line description of the board that is shown to the player.
    pub fn summary(&self) -> (s: String)
        ensures
            s@ == board_summary(*self),
    {
        let mut s = String::new();
        s.append("Board - Width: ");
        push_decimal(&mut s, self.width as u64);
        s.append(", Height: ");
        push_decimal(&mut s, self.height as u64);
        s.append(", Exit Side: ");
        s.append(match self.exit_position.side {
            ExitSide::Top => "Top",
            ExitSide::Bottom => "Bottom",
            ExitSide::Left => "Left",
            ExitSide::Right => "Right",
        });
        s.append(", Distance to Edge: ");
        push_decimal(&mut s, self.exit_position.distance_to_edge as u64);
        s.append(", Length: ");
        push_decimal(&mut s, self.exit_position.length as u64);
        assert(s@ =~= board_summary(*self));
        s
    }

    /// A board of the given size and exit, with no block on it yet.
    pub fn new(width: u8, height: u8, exit_position: ExitPosition) -> (board: Self)
        ensures
            board.width == width,
            board.height == height,
            board.exit_position == exit_position,
            board.blocks@.len() == 0,
    {
        Board { width, height, exit_position, blocks: Vec::new() }
    }

    /// Places one more block on the board, after those already there.
    pub fn add_block(&mut self, new_block: Block)
        ensures
            final(self).width == old(self).width,
            final(self).height == old(self).height,
            final(self).exit_position == old(self).exit_position,
            final(self).blocks@ == old(self).blocks@.push(new_block),
    {
        self.blocks.push(new_block);
    }
}

/// The board the game is played on: four columns, five rows, and an exit of
/// length two at distance one from the left edge of the bottom side.
pub fn initialize_box() -> (board: Board)
    ensures
        board.width == 4,
        board.height == 5,
        board.exit_position == (ExitPosition { side: ExitSide::Bottom, distance_to_edge: 1, length: 2 }),
        board.blocks@.len() == 0,
{
    let height: u8 = 5;
    let width: u8 = 4;
    let side: ExitSide = ExitSide::Bottom;
    let distance_to_edge: u8 = 1;
    let length: u8 = 2;
    let exit_position = ExitPosition { side, distance_to_edge, length };
    Board::new(width, height, exit_position)
}

} // verus!

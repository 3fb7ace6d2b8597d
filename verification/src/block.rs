use vstd::prelude::*;
use crate::text::{decimal, push_decimal};

verus! {

broadcast use vstd::string::group_string_axioms;

/// A block of the puzzle as it is described before a game starts.
pub struct Block {
    pub block_id: u8,
    pub block_english_name: String,
    pub block_japanese_name: String,
    pub width: u8,
    pub height: u8,
    /// The block's anchor cell `(x, y)` on the board.
    pub initial_location: (u8, u8),
    /// Whether the block may leave the board through the exit.
    pub can_escape: bool,
}

impl Block {
    pub fn new(
        block_id: u8,
        block_english_name: &str,
        block_japanese_name: &str,
        width: u8,
        height: u8,
        initial_location: (u8, u8),
        can_escape: bool,
    ) -> (block: Block)
        ensures
            block.block_id == block_id,
            block.block_english_name@ == block_english_name@,
            block.block_japanese_name@ == block_japanese_name@,
            block.width == width,
            block.height == height,
            block.initial_location == initial_location,
            block.can_escape == can_escape,
    {
        Block {
            block_id,
            block_english_name: block_english_name.to_string(),
            block_japanese_name: block_japanese_name.to_string(),
            width,
            height,
            initial_location,
            can_escape,
        }
    }
}

/// The description of a block, line by line: its id, names, dimensions,
/// initial location and whether it can escape ("Yes" or "No").
pub open spec fn block_details(b: Block) -> Seq<char> {
    "Block Details:\n- Blocks ID: "@ + decimal(b.block_id as nat)
        + "\n- English Name: "@ + b.block_english_name@
        + "\n- Japanese Name: "@ + b.block_japanese_name@
        + "\n- Dimensions: "@ + decimal(b.width as nat) + " x "@ + decimal(b.height as nat)
        + "\n- Initial Location: ("@ + decimal(b.initial_location.0 as nat) + ", "@ + decimal(b.initial_location.1 as nat)
        + ")\n- Can Escape: "@ + (if b.can_escape { "Yes"@ } else { "No"@ })
}

impl Block {
    /// The description of the block that is shown to the player.
    pub fn details(&self) -> (s: String)
        ensures
            s@ == block_details(*self),
    {
        let mut s = String::new();
        s.append("Block Details:\n- Blocks ID: ");
        push_decimal(&mut s, self.block_id as u64);
        s.append("\n- English Name: ");
        s.append(self.block_english_name.as_str());
        s.append("\n- Japanese Name: ");
        s.append(self.block_japanese_name.as_str());
        s.append("\n- Dimensions: ");
        push_decimal(&mut s, self.width as u64);
        s.append(" x ");
        push_decimal(&mut s, self.height as u64);
        s.append("\n- Initial Location: (");
        push_decimal(&mut s, self.initial_location.0 as u64);
        s.append(", ");
        push_decimal(&mut s, self.initial_location.1 as u64);
        s.append(")\n- Can Escape: ");
        s.append(if self.can_escape { "Yes" } else { "No" });
        assert(s@ =~= block_details(*self));
        s
    }
}

} // verus!

use vstd::prelude::*;
use crate::block::Block;
use crate::board::{side_name, Board, ExitSide};
use crate::constants::{Direction, GameGlobals, GameState};
use crate::entity::World;
use crate::level::{initialize_level, level_buildable, level_buildable_exec, map_text, rows_entities, rows_exits, rows_have_exit, exit_key_of, level_rows, board_block_info, lemma_exit_on_its_side};
use crate::text::{debug_list, debug_list_text, decimal, push_decimal};

verus! {

broadcast use vstd::string::group_string_axioms;

/// A cell of the board: column `x`, row `y`.
#[derive(Clone, Copy, PartialEq, Eq, Structural, Debug)]
pub struct Position {
    pub x: isize,
    pub y: isize,
}

/// The exit: the board cells next to it and the side it opens on.
pub struct Exit {
    pub adjacent_grid: Vec<Position>,
    pub exit_direction: ExitSide,
}

/// A block during play, at its current cell.
pub struct BlockInGame {
    pub block_id: u8,
    pub block_english_name: String,
    pub block_japanese_name: String,
    pub width: u8,
    pub height: u8,
    pub current_location: Position,
    pub can_escape: bool,
}

impl Clone for BlockInGame {
    fn clone(&self) -> (b: Self)
        ensures
            b == *self,
    {
        BlockInGame {
            block_id: self.block_id,
            block_english_name: self.block_english_name.clone(),
            block_japanese_name: self.block_japanese_name.clone(),
            width: self.width,
            height: self.height,
            current_location: self.current_location,
            can_escape: self.can_escape,
        }
    }
}

/// A game: the board it was set up from, its blocks, the grid of the cells
/// they cover, the exit, the level's entities and what the level records of
/// itself.
pub struct Game {
    pub board_with_blocks: Board,
    pub blocks_in_game: Vec<BlockInGame>,
    pub grid: Vec<Vec<Option<BlockInGame>>>,
    pub exit: Exit,
    pub world: World,
    pub globals: GameGlobals,
}

/// The message for a block that lies past the right border.
pub open spec fn right_border_message(name: Seq<char>) -> Seq<char> {
    "Block name: "@ + name + " initial location exceeds the right border;\n"@
}

/// The message for a block that lies past the top border.
pub open spec fn top_border_message(name: Seq<char>) -> Seq<char> {
    "Block name: "@ + name + " initial location exceeds the top border;\n"@
}

/// The column of the last cell a block covers.
pub open spec fn right_column(b: Block) -> int {
    b.initial_location.0 + b.width - 1
}

/// Whether block `b` starts and ends within a board of the given size.
pub open spec fn block_in_borders(b: Block, width: u8, height: u8) -> bool {
    &&& b.initial_location.0 <= width
    &&& b.initial_location.1 <= height
    &&& right_column(b) <= width
}

/// The messages for block `b`: its anchor past the right border, its anchor
/// past the top border, its last column past the right border.
pub open spec fn block_border_messages(b: Block, width: u8, height: u8) -> Seq<char> {
    let name = b.block_english_name@;
    (if b.initial_location.0 > width { right_border_message(name) } else { Seq::empty() })
        + (if b.initial_location.1 > height { top_border_message(name) } else { Seq::empty() })
        + (if right_column(b) > width { right_border_message(name) } else { Seq::empty() })
}

/// The border messages of the first `n` blocks, in order.
pub open spec fn border_messages(blocks: Seq<Block>, width: u8, height: u8, n: int) -> Seq<char>
    decreases n,
{
    if n <= 0 {
        Seq::empty()
    } else {
        border_messages(blocks, width, height, n - 1) + block_border_messages(blocks[n - 1], width, height)
    }
}

/// The cells block `b` covers, with its name: column by column from its
/// anchor to the right, and in each column row by row from its anchor
/// downwards.
pub open spec fn block_cells(b: Block) -> Seq<(int, int, Seq<char>)> {
    Seq::new(
        (b.width * b.height) as nat,
        |k: int| (b.initial_location.0 + k / (b.height as int), b.initial_location.1 - k % (b.height as int), b.block_english_name@),
    )
}

/// The cells the first `n` blocks cover, block after block.
pub open spec fn occupied_cells(blocks: Seq<Block>, n: int) -> Seq<(int, int, Seq<char>)>
    decreases n,
{
    if n <= 0 {
        Seq::empty()
    } else {
        occupied_cells(blocks, n - 1) + block_cells(blocks[n - 1])
    }
}

/// The last of the first `n` groups whose cell is `(x, y)`.
pub open spec fn group_index(groups: Seq<(int, int, Seq<Seq<char>>)>, x: int, y: int, n: int) -> Option<int>
    decreases n,
{
    if n <= 0 {
        None
    } else if groups[n - 1].0 == x && groups[n - 1].1 == y {
        Some(n - 1)
    } else {
        group_index(groups, x, y, n - 1)
    }
}

/// The first `n` covered cells grouped by cell: a group per cell in the order
/// in which the cells first occur, holding the names of the blocks that cover
/// it in their order.
pub open spec fn group_cells(cells: Seq<(int, int, Seq<char>)>, n: int) -> Seq<(int, int, Seq<Seq<char>>)>
    decreases n,
{
    if n <= 0 {
        Seq::empty()
    } else {
        let g = group_cells(cells, n - 1);
        let (x, y, name) = cells[n - 1];
        match group_index(g, x, y, g.len() as int) {
            Some(k) => g.update(k, (x, y, g[k].2.push(name))),
            None => g.push((x, y, seq![name])),
        }
    }
}

/// The message for a cell covered by several blocks.
pub open spec fn overlap_message(group: (int, int, Seq<Seq<char>>)) -> Seq<char> {
    "Grid ("@ + decimal(group.0 as nat) + ", "@ + decimal(group.1 as nat) + ") is occupied by: "@
        + debug_list_text(group.2) + "; \n"@
}

/// The overlap messages of the first `n` groups, in order.
pub open spec fn overlap_messages(groups: Seq<(int, int, Seq<Seq<char>>)>, n: int) -> Seq<char>
    decreases n,
{
    if n <= 0 {
        Seq::empty()
    } else {
        overlap_messages(groups, n - 1) + (if groups[n - 1].2.len() > 1 { overlap_message(groups[n - 1]) } else { Seq::empty() })
    }
}

/// The groups of the cells that the blocks of `board` cover.
pub open spec fn board_groups(board: Board) -> Seq<(int, int, Seq<Seq<char>>)> {
    let cells = occupied_cells(board.blocks@, board.blocks@.len() as int);
    group_cells(cells, cells.len() as int)
}

/// Whether the blocks of `board` all lie within its borders and no cell is
/// covered twice.
pub open spec fn blocks_placement_valid(board: Board) -> bool {
    &&& forall|i: int| 0 <= i < board.blocks@.len() ==> #[trigger] block_in_borders(board.blocks@[i], board.width, board.height)
    &&& forall|k: int| 0 <= k < board_groups(board).len() ==> #[trigger] board_groups(board)[k].2.len() <= 1
}

/// The report on the placement of the blocks of `board`: the border messages
/// of every block, then a message for every cell covered more than once.
pub open spec fn placement_report(board: Board) -> Seq<char> {
    border_messages(board.blocks@, board.width, board.height, board.blocks@.len() as int)
        + overlap_messages(board_groups(board), board_groups(board).len() as int)
}

/// Whether the placement checks can be computed in bytes: the column after
/// each block is at least 1 and at most 255, and every block of positive
/// size reaches no lower than row 0.
pub open spec fn placement_check_computable(board: Board) -> bool {
    forall|i: int| 0 <= i < board.blocks@.len() ==> {
        let b = #[trigger] board.blocks@[i];
        &&& 1 <= b.initial_location.0 + b.width <= u8::MAX
        &&& b.width > 0 && b.height > 0 ==> b.initial_location.1 + 1 >= b.height
    }
}

/// Whether the exit fits on its side: its far end is within the width on the
/// top and bottom sides, within the height on the left and right sides.
pub open spec fn exit_location_valid(board: Board) -> bool {
    let e = board.exit_position;
    if e.side == ExitSide::Bottom || e.side == ExitSide::Top {
        e.distance_to_edge + e.length <= board.width
    } else {
        e.distance_to_edge + e.length <= board.height
    }
}

/// Whether `g` is block `b` at its anchor, in play.
pub open spec fn in_game_of(g: BlockInGame, b: Block) -> bool {
    &&& g.block_id == b.block_id
    &&& g.block_english_name@ == b.block_english_name@
    &&& g.block_japanese_name@ == b.block_japanese_name@
    &&& g.width == b.width
    &&& g.height == b.height
    &&& g.current_location == (Position { x: b.initial_location.0 as isize, y: b.initial_location.1 as isize })
    &&& g.can_escape == b.can_escape
}

/// Whether block `g` covers board cell `(x, y)`: its columns run right from
/// its anchor, its rows down from it.
pub open spec fn covers(g: BlockInGame, x: int, y: int) -> bool {
    &&& g.current_location.x <= x < g.current_location.x + g.width
    &&& g.current_location.y - g.height < y <= g.current_location.y
}

/// The last of the first `n` blocks that covers `(x, y)`.
pub open spec fn covering_block(blocks: Seq<BlockInGame>, x: int, y: int, n: int) -> Option<int>
    decreases n,
{
    if n <= 0 {
        None
    } else if covers(blocks[n - 1], x, y) {
        Some(n - 1)
    } else {
        covering_block(blocks, x, y, n - 1)
    }
}

/// The content of grid cell `(x, y)`: the last block covering it.
pub open spec fn grid_cell(blocks: Seq<BlockInGame>, x: int, y: int) -> Option<BlockInGame> {
    match covering_block(blocks, x, y, blocks.len() as int) {
        Some(k) => Some(blocks[k]),
        None => None,
    }
}

/// The board cells next to the exit, from the exit's start along its side:
/// in the top row or the bottom row from column `distance_to_edge` rightwards;
/// in the right column or the left column from `distance_to_edge` rows below
/// the top row downwards.
pub open spec fn exit_adjacent_cells(board: Board) -> Seq<Position> {
    let e = board.exit_position;
    Seq::new(e.length as nat, |i: int| match e.side {
        ExitSide::Top => Position { x: (e.distance_to_edge + i) as isize, y: (board.height - 1) as isize },
        ExitSide::Bottom => Position { x: (e.distance_to_edge + i) as isize, y: 0 },
        ExitSide::Right => Position { x: (board.width - 1) as isize, y: (board.height - 1 - e.distance_to_edge - i) as isize },
        ExitSide::Left => Position { x: 0, y: (board.height - 1 - e.distance_to_edge - i) as isize },
    })
}

/// Whether a game can be set up from `board`: every block of positive size
/// lies on the board, the cells next to the exit can be computed in bytes,
/// and the level can be built.
pub open spec fn game_initializable(board: Board) -> bool {
    let e = board.exit_position;
    &&& forall|i: int| 0 <= i < board.blocks@.len() ==> {
        let b = #[trigger] board.blocks@[i];
        b.width > 0 && b.height > 0 ==> {
            &&& b.initial_location.0 + b.width <= board.width
            &&& b.initial_location.1 < board.height
            &&& b.initial_location.1 + 1 >= b.height
        }
    }
    &&& e.length > 0 ==> e.distance_to_edge + e.length - 1 <= u8::MAX
    &&& e.length > 0 && e.side == ExitSide::Top ==> board.height >= 1
    &&& e.length > 0 && e.side == ExitSide::Right ==> board.width >= 1
    &&& level_buildable(board)
}

/// The decimal notation of `n`, with a minus sign when it is negative.
pub open spec fn signed_decimal(n: int) -> Seq<char> {
    if n < 0 { "-"@ + decimal((-n) as nat) } else { decimal(n as nat) }
}

/// A truth value as shown: "true" or "false".
pub open spec fn bool_text(b: bool) -> Seq<char> {
    if b { "true"@ } else { "false"@ }
}

/// The lines of the first `n` cells next to the exit.
pub open spec fn adjacent_lines(cells: Seq<Position>, n: int) -> Seq<char>
    decreases n,
{
    if n <= 0 {
        Seq::empty()
    } else {
        adjacent_lines(cells, n - 1) + "  - Position: ("@ + signed_decimal(cells[n - 1].x as int) + ", "@
            + signed_decimal(cells[n - 1].y as int) + ")\n"@
    }
}

/// The line of a block in play.
pub open spec fn block_line(b: BlockInGame) -> Seq<char> {
    "Block ID: "@ + decimal(b.block_id as nat) + ", English Name: "@ + b.block_english_name@
        + ", Japanese Name: "@ + b.block_japanese_name@ + ", Position: ("@
        + signed_decimal(b.current_location.x as int) + ", "@ + signed_decimal(b.current_location.y as int)
        + "), Width: "@ + decimal(b.width as nat) + ", Height: "@ + decimal(b.height as nat)
        + ", Can Escape: "@ + bool_text(b.can_escape) + "\n"@
}

/// The lines of the first `n` blocks in play.
pub open spec fn block_lines(blocks: Seq<BlockInGame>, n: int) -> Seq<char>
    decreases n,
{
    if n <= 0 {
        Seq::empty()
    } else {
        block_lines(blocks, n - 1) + block_line(blocks[n - 1])
    }
}

/// The state of a game as it is shown: the board's size, the exit's side and
/// adjacent cells, the blocks in play and the grid.
pub open spec fn game_state_text(g: Game) -> Seq<char> {
    "--- Game State ---\nBoard Dimensions: Width = "@ + decimal(g.board_with_blocks.width as nat)
        + ", Height = "@ + decimal(g.board_with_blocks.height as nat)
        + "\n\nExit Information:\nExit Direction: "@ + side_name(g.exit.exit_direction)
        + "\nAdjacent Grids to Exit:\n"@ + adjacent_lines(g.exit.adjacent_grid@, g.exit.adjacent_grid@.len() as int)
        + "\nBlocks In Game:\n"@ + block_lines(g.blocks_in_game@, g.blocks_in_game@.len() as int)
        + "\nGrid State:\n"@
        + grid_text(g.grid@.map_values(|row: Vec<Option<BlockInGame>>| row@), g.grid@.len() as int)
        + "--- End of Game State ---\n"@
}

/// Appends the decimal notation of `n`, with a minus sign when negative.
fn push_signed(s: &mut String, n: isize)
    ensures
        final(s)@ == old(s)@ + signed_decimal(n as int),
{
    if n < 0 {
        s.append("-");
        let m: u64 = (-(n as i128)) as u64;
        push_decimal(s, m);
    } else {
        push_decimal(s, n as u64);
    }
    assert(final(s)@ =~= old(s)@ + signed_decimal(n as int));
}

/// Appends the line of block `b`.
fn push_block_line(s: &mut String, b: &BlockInGame)
    ensures
        final(s)@ == old(s)@ + block_line(*b),
{
    s.append("Block ID: ");
    push_decimal(s, b.block_id as u64);
    s.append(", English Name: ");
    s.append(b.block_english_name.as_str());
    s.append(", Japanese Name: ");
    s.append(b.block_japanese_name.as_str());
    s.append(", Position: (");
    push_signed(s, b.current_location.x);
    s.append(", ");
    push_signed(s, b.current_location.y);
    s.append("), Width: ");
    push_decimal(s, b.width as u64);
    s.append(", Height: ");
    push_decimal(s, b.height as u64);
    s.append(", Can Escape: ");
    s.append(if b.can_escape { "true" } else { "false" });
    s.append("\n");
    assert(final(s)@ =~= old(s)@ + block_line(*b));
}

/// The cells of a grid row as shown: "B" and the block's id and a space for a
/// covered cell, a dot and two spaces for a free one; the first `n` cells.
pub open spec fn row_cells_text(row: Seq<Option<BlockInGame>>, n: int) -> Seq<char>
    decreases n,
{
    if n <= 0 {
        Seq::empty()
    } else {
        row_cells_text(row, n - 1) + match row[n - 1] {
            Some(b) => "B"@ + decimal(b.block_id as nat) + " "@,
            None => ".  "@,
        }
    }
}

/// Grid row `y` as shown: its cells, then its number.
pub open spec fn grid_row_text(row: Seq<Option<BlockInGame>>, y: int) -> Seq<char> {
    row_cells_text(row, row.len() as int) + "  (Row "@ + decimal(y as nat) + ")\n"@
}

/// The first `n` grid rows as shown, from row `n - 1` down to row 0.
pub open spec fn grid_text(rows: Seq<Seq<Option<BlockInGame>>>, n: int) -> Seq<char>
    decreases n,
{
    if n <= 0 {
        Seq::empty()
    } else {
        grid_row_text(rows[n - 1], n - 1) + grid_text(rows, n - 1)
    }
}

proof fn lemma_covering_block_bound(blocks: Seq<BlockInGame>, x: int, y: int, n: int)
    ensures
        covering_block(blocks, x, y, n) matches Some(k) ==> 0 <= k < n,
    decreases n,
{
    if n > 0 {
        lemma_covering_block_bound(blocks, x, y, n - 1);
    }
}

proof fn lemma_group_index_bound(groups: Seq<(int, int, Seq<Seq<char>>)>, x: int, y: int, n: int)
    ensures
        group_index(groups, x, y, n) matches Some(k) ==> 0 <= k < n && groups[k].0 == x && groups[k].1 == y,
    decreases n,
{
    if n > 0 {
        lemma_group_index_bound(groups, x, y, n - 1);
    }
}

spec fn groups_view(g: Seq<(u8, u8, Vec<String>)>) -> Seq<(int, int, Seq<Seq<char>>)> {
    g.map_values(|e: (u8, u8, Vec<String>)| (e.0 as int, e.1 as int, e.2@.map_values(|n: String| n@)))
}

spec fn cells_view(c: Seq<(u8, u8, String)>) -> Seq<(int, int, Seq<char>)> {
    c.map_values(|e: (u8, u8, String)| (e.0 as int, e.1 as int, e.2@))
}

/// Appends the border messages of `block` and tells whether it lies within
/// the borders.
fn push_border_messages(return_message: &mut String, block: &Block, width: u8, height: u8) -> (ok: bool)
    requires
        1 <= block.initial_location.0 + block.width <= u8::MAX,
    ensures
        final(return_message)@ == old(return_message)@ + block_border_messages(*block, width, height),
        ok == block_in_borders(*block, width, height),
{
    let mut ok = true;
    let ghost msg0 = return_message@;
    if block.initial_location.0 > width {
        ok = false;
        return_message.append("Block name: ");
        return_message.append(block.block_english_name.as_str());
        return_message.append(" initial location exceeds the right border;\n");
    }
    let ghost msg1 = return_message@;
    if block.initial_location.1 > height {
        ok = false;
        return_message.append("Block name: ");
        return_message.append(block.block_english_name.as_str());
        return_message.append(" initial location exceeds the top border;\n");
    }
    let ghost msg2 = return_message@;
    if block.initial_location.0 + block.width - 1 > width {
        ok = false;
        return_message.append("Block name: ");
        return_message.append(block.block_english_name.as_str());
        return_message.append(" initial location exceeds the right border;\n");
    }
    proof {
        let name = block.block_english_name@;
        let m1 = if block.initial_location.0 > width { right_border_message(name) } else { Seq::empty() };
        let m2 = if block.initial_location.1 > height { top_border_message(name) } else { Seq::empty() };
        let m3 = if right_column(*block) > width { right_border_message(name) } else { Seq::empty() };
        assert(msg1 =~= msg0 + m1);
        assert(msg2 =~= msg1 + m2);
        assert(return_message@ =~= msg2 + m3);
        assert(return_message@ =~= msg0 + block_border_messages(*block, width, height));
    }
    ok
}

/// Appends the cells that `block` covers, with its name.
fn push_block_cells(occupied_grids: &mut Vec<(u8, u8, String)>, block: &Block)
    requires
        1 <= block.initial_location.0 + block.width <= u8::MAX,
        block.width > 0 && block.height > 0 ==> block.initial_location.1 + 1 >= block.height,
    ensures
        cells_view(final(occupied_grids)@) == cells_view(old(occupied_grids)@) + block_cells(*block),
{
    let ghost cells0 = occupied_grids@;
    let ghost bc = block_cells(*block);
    let w = block.width;
    let h = block.height;
    assert(0 * h == 0);
    for i in 0..w
        invariant
            w == block.width,
            h == block.height,
            1 <= block.initial_location.0 + w <= u8::MAX,
            w > 0 && h > 0 ==> block.initial_location.1 + 1 >= h,
            bc == block_cells(*block),
            occupied_grids@.len() == cells0.len() + i * h,
            forall|k: int| 0 <= k < cells0.len() ==> #[trigger] occupied_grids@[k] == cells0[k],
            forall|k: int| 0 <= k < i * h ==> #[trigger] cells_view(occupied_grids@)[cells0.len() + k] == bc[k],
    {
        for j in 0..h
            invariant
                w == block.width,
                h == block.height,
                1 <= block.initial_location.0 + w <= u8::MAX,
                w > 0 && h > 0 ==> block.initial_location.1 + 1 >= h,
                0 <= i < w,
                bc == block_cells(*block),
                occupied_grids@.len() == cells0.len() + i * h + j,
                forall|k: int| 0 <= k < cells0.len() ==> #[trigger] occupied_grids@[k] == cells0[k],
                forall|k: int| 0 <= k < i * h + j ==> #[trigger] cells_view(occupied_grids@)[cells0.len() + k] == bc[k],
        {
            assert(i * h + j < w * h) by (nonlinear_arith)
                requires i < w, j < h;
            assert((i * h + j) / (h as int) == i && (i * h + j) % (h as int) == j) by (nonlinear_arith)
                requires j < h, 0 <= i;
            let ghost before = occupied_grids@;
            occupied_grids.push((block.initial_location.0 + i, block.initial_location.1 - j, block.block_english_name.clone()));
            proof {
                assert forall|k: int| 0 <= k < i * h + j + 1 implies #[trigger] cells_view(occupied_grids@)[cells0.len() + k] == bc[k] by {
                    if k < i * h + j {
                        assert(cells_view(before)[cells0.len() + k] == bc[k]);
                        assert(occupied_grids@[cells0.len() + k] == before[cells0.len() + k]);
                    }
                }
            }
        }
        assert(i * h + h == (i + 1) * h) by (nonlinear_arith);
    }
    proof {
        assert(cells_view(occupied_grids@) =~= cells_view(cells0) + bc) by {
            assert forall|k: int| 0 <= k < cells0.len() implies cells_view(occupied_grids@)[k] == cells_view(cells0)[k] by {
                assert(occupied_grids@[k] == cells0[k]);
            }
            assert forall|k: int| cells0.len() <= k < occupied_grids@.len() implies cells_view(occupied_grids@)[k] == bc[k - cells0.len()] by {
                assert(cells_view(occupied_grids@)[cells0.len() + (k - cells0.len())] == bc[k - cells0.len()]);
            }
        }
    }
}

impl Game {
    /// A game set up from `board`, with nothing placed yet.
    pub fn new(board_with_blocks: Board) -> (game: Self)
        ensures
            game.board_with_blocks == board_with_blocks,
            game.blocks_in_game@.len() == 0,
            game.grid@.len() == 0,
            game.exit.adjacent_grid@.len() == 0,
            game.exit.exit_direction == ExitSide::Bottom,
            game.world@.len() == 0,
            game.globals.exit_positions@.len() == 0,
            game.globals.map_width == 0,
            game.globals.map_height == 0,
            game.globals.exit_key == Direction::Down,
            game.globals.game_state == GameState::Running,
    {
        Game {
            board_with_blocks,
            blocks_in_game: Vec::new(),
            grid: Vec::new(),
            exit: Exit { adjacent_grid: Vec::new(), exit_direction: ExitSide::Bottom },
            world: World::new(),
            globals: GameGlobals::new(),
        }
    }

    /// Sets the game up: the blocks in play at their anchors, the grid of the
    /// board's cells with the block covering each (see `grid_cell`), the exit
    /// with its side and adjacent cells, and a fresh level built from the
    /// board (see `initialize_level`). Returns the level's map text.
    pub fn initialize(&mut self) -> (map_string: String)
        requires
            game_initializable(old(self).board_with_blocks),
        ensures
            ({
                let board = old(self).board_with_blocks;
                let blocks = final(self).blocks_in_game@;
                &&& final(self).board_with_blocks == board
                &&& blocks.len() == old(self).blocks_in_game@.len() + board.blocks@.len()
                &&& forall|k: int| 0 <= k < old(self).blocks_in_game@.len() ==> #[trigger] blocks[k] == old(self).blocks_in_game@[k]
                &&& forall|k: int| 0 <= k < board.blocks@.len() ==> #[trigger] in_game_of(blocks[old(self).blocks_in_game@.len() + k], board.blocks@[k])
                &&& final(self).grid@.len() == board.height
                &&& forall|y: int| 0 <= y < board.height ==> (#[trigger] final(self).grid@[y])@.len() == board.width
                &&& forall|y: int, x: int| 0 <= y < board.height && 0 <= x < board.width ==> #[trigger] final(self).grid@[y]@[x] == grid_cell(blocks, x, y)
                &&& final(self).exit.exit_direction == board.exit_position.side
                &&& final(self).exit.adjacent_grid@ == old(self).exit.adjacent_grid@ + exit_adjacent_cells(board)
                &&& map_string@ == map_text(board)
                &&& final(self).world@ == rows_entities(level_rows(board), board_block_info(board), board.height + 2)
                &&& final(self).globals.map_width == board.width + 2
                &&& final(self).globals.map_height == board.height + 2
                &&& final(self).globals.exit_positions@ == old(self).globals.exit_positions@ + rows_exits(level_rows(board), board.height + 2)
                &&& final(self).globals.exit_key == (if rows_have_exit(level_rows(board), board.height + 2) {
                    exit_key_of(board.exit_position.side)
                } else {
                    old(self).globals.exit_key
                })
                &&& final(self).globals.game_state == old(self).globals.game_state
            }),
    {
        let ghost board = self.board_with_blocks;
        let ghost old_blocks = self.blocks_in_game@;
        // Load the blocks to the board.
        let n = self.board_with_blocks.blocks.len();
        for i in 0..n
            invariant
                self.board_with_blocks == board,
                self.globals == old(self).globals,
                self.exit == old(self).exit,
                n == board.blocks@.len(),
                self.blocks_in_game@.len() == old_blocks.len() + i,
                forall|k: int| 0 <= k < old_blocks.len() ==> #[trigger] self.blocks_in_game@[k] == old_blocks[k],
                forall|k: int| 0 <= k < i ==> #[trigger] in_game_of(self.blocks_in_game@[old_blocks.len() + k], board.blocks@[k]),
        {
            let block = &self.board_with_blocks.blocks[i];
            let block_in_game = BlockInGame {
                block_id: block.block_id,
                block_english_name: block.block_english_name.clone(),
                block_japanese_name: block.block_japanese_name.clone(),
                width: block.width,
                height: block.height,
                current_location: Position { x: block.initial_location.0 as isize, y: block.initial_location.1 as isize },
                can_escape: block.can_escape,
            };
            self.blocks_in_game.push(block_in_game);
        }
        // Fill the grid: each cell holds the last block covering it.
        let ghost blocks = self.blocks_in_game@;
        let width = self.board_with_blocks.width as usize;
        let height = self.board_with_blocks.height as usize;
        let mut grid: Vec<Vec<Option<BlockInGame>>> = Vec::new();
        for y in 0..height
            invariant
                self.blocks_in_game@ == blocks,
                self.board_with_blocks == board,
                self.globals == old(self).globals,
                self.exit == old(self).exit,
                width == board.width,
                height == board.height,
                grid@.len() == y,
                forall|yy: int| 0 <= yy < y ==> (#[trigger] grid@[yy])@.len() == width,
                forall|yy: int, x: int| 0 <= yy < y && 0 <= x < width ==> #[trigger] grid@[yy]@[x] == grid_cell(blocks, x, yy),
        {
            let mut row: Vec<Option<BlockInGame>> = Vec::new();
            for x in 0..width
                invariant
                    self.blocks_in_game@ == blocks,
                    width == board.width,
                    y < height,
                    height == board.height,
                    row@.len() == x,
                    forall|xx: int| 0 <= xx < x ==> #[trigger] row@[xx] == grid_cell(blocks, xx, y as int),
            {
                let cell = self.block_covering(x as isize, y as isize);
                row.push(cell);
            }
            grid.push(row);
        }
        self.grid = grid;
        let ghost grid_view = self.grid@;
        // The exit.
        self.exit.exit_direction = self.board_with_blocks.exit_position.side;
        let e = self.board_with_blocks.exit_position;
        let ghost adjacent0 = self.exit.adjacent_grid@;
        for i in 0..e.length
            invariant
                self.board_with_blocks == board,
                e == board.exit_position,
                game_initializable(board),
                self.blocks_in_game@ == blocks,
                self.grid@ == grid_view,
                self.exit.exit_direction == board.exit_position.side,
                self.globals == old(self).globals,
                self.exit.adjacent_grid@ == adjacent0 + exit_adjacent_cells(board).take(i as int),
        {
            let p = if e.side == ExitSide::Top {
                Position { x: (0 + e.distance_to_edge + i) as isize, y: (self.board_with_blocks.height - 1) as isize }
            } else if e.side == ExitSide::Bottom {
                Position { x: (0 + e.distance_to_edge + i) as isize, y: 0 }
            } else if e.side == ExitSide::Right {
                let k = e.distance_to_edge + i;
                Position { x: (self.board_with_blocks.width - 1) as isize, y: self.board_with_blocks.height as isize - 1 - k as isize }
            } else {
                let k = e.distance_to_edge + i;
                Position { x: 0, y: self.board_with_blocks.height as isize - 1 - k as isize }
            };
            assert(p == exit_adjacent_cells(board)[i as int]);
            self.exit.adjacent_grid.push(p);
            assert(self.exit.adjacent_grid@ =~= adjacent0 + exit_adjacent_cells(board).take(i + 1));
        }
        assert(exit_adjacent_cells(board).take(e.length as int) =~= exit_adjacent_cells(board));
        // The level.
        let mut world = World::new();
        let map_string = initialize_level(&self.board_with_blocks, &mut world, self.board_with_blocks.exit_position.side, &mut self.globals);
        self.world = world;
        assert(self.world@ =~= rows_entities(level_rows(board), board_block_info(board), board.height + 2));
        map_string
    }

    /// The last block in play that covers cell `(x, y)`.
    fn block_covering(&self, x: isize, y: isize) -> (cell: Option<BlockInGame>)
        requires
            0 <= x <= u8::MAX,
            0 <= y <= u8::MAX,
        ensures
            cell == grid_cell(self.blocks_in_game@, x as int, y as int),
    {
        let n = self.blocks_in_game.len();
        let mut found: Option<usize> = None;
        for k in 0..n
            invariant
                n == self.blocks_in_game@.len(),
                0 <= x <= u8::MAX,
                0 <= y <= u8::MAX,
                match found {
                    Some(f) => covering_block(self.blocks_in_game@, x as int, y as int, k as int) == Some(f as int),
                    None => covering_block(self.blocks_in_game@, x as int, y as int, k as int) is None,
                },
        {
            let g = &self.blocks_in_game[k];
            let gx = g.current_location.x as i128;
            let gy = g.current_location.y as i128;
            if gx <= x as i128 && (x as i128) < gx + g.width as i128 && gy - (g.height as i128) < y as i128 && y as i128 <= gy {
                found = Some(k);
            }
        }
        proof {
            lemma_covering_block_bound(self.blocks_in_game@, x as int, y as int, n as int);
        }
        match found {
            Some(f) => Some(self.blocks_in_game[f].clone()),
            None => None,
        }
    }

    /// The grid as it is shown to the player: one line per row from the top
    /// down (see `grid_text`).
    pub fn grid_lines(&self) -> (s: String)
        ensures
            s@ == grid_text(self.grid@.map_values(|row: Vec<Option<BlockInGame>>| row@), self.grid@.len() as int),
    {
        let ghost rows = self.grid@.map_values(|row: Vec<Option<BlockInGame>>| row@);
        let mut s = String::new();
        let n = self.grid.len();
        let mut y = n;
        while y > 0
            invariant
                y <= n,
                n == self.grid@.len(),
                rows == self.grid@.map_values(|row: Vec<Option<BlockInGame>>| row@),
                s@ + grid_text(rows, y as int) == grid_text(rows, n as int),
            decreases y,
        {
            y = y - 1;
            let row = &self.grid[y];
            assert(rows[y as int] == row@);
            let ghost before = s@;
            let m = row.len();
            for x in 0..m
                invariant
                    m == row@.len(),
                    s@ == before + row_cells_text(row@, x as int),
            {
                match &row[x] {
                    Some(block) => {
                        s.append("B");
                        push_decimal(&mut s, block.block_id as u64);
                        s.append(" ");
                    },
                    None => {
                        s.append(".  ");
                    },
                }
            }
            s.append("  (Row ");
            push_decimal(&mut s, y as u64);
            s.append(")\n");
            assert(grid_text(rows, (y + 1) as int) == grid_row_text(rows[y as int], y as int) + grid_text(rows, y as int));
            assert(s@ =~= before + grid_row_text(rows[y as int], y as int));
            assert(s@ + grid_text(rows, y as int) =~= before + grid_text(rows, (y + 1) as int));
        }
        s
    }

    /// Whether the placement check can be made on this game's board (see
    /// `placement_check_computable`).
    pub fn placement_checkable(&self) -> (ok: bool)
        ensures
            ok == placement_check_computable(self.board_with_blocks),
    {
        let blocks = &self.board_with_blocks.blocks;
        let n = blocks.len();
        for i in 0..n
            invariant
                n == blocks@.len(),
                blocks@ == self.board_with_blocks.blocks@,
                forall|k: int| 0 <= k < i ==> {
                    let b = #[trigger] blocks@[k];
                    &&& 1 <= b.initial_location.0 + b.width <= u8::MAX
                    &&& b.width > 0 && b.height > 0 ==> b.initial_location.1 + 1 >= b.height
                },
        {
            let b = &blocks[i];
            let right: u16 = b.initial_location.0 as u16 + b.width as u16;
            if right < 1 || right > 255 {
                return false;
            }
            if b.width > 0 && b.height > 0 && (b.initial_location.1 as u16) + 1 < b.height as u16 {
                return false;
            }
        }
        true
    }

    /// Whether this game can be set up (see `game_initializable`).
    pub fn can_initialize(&self) -> (ok: bool)
        ensures
            ok == game_initializable(self.board_with_blocks),
    {
        let board = &self.board_with_blocks;
        let blocks = &board.blocks;
        let n = blocks.len();
        for i in 0..n
            invariant
                n == blocks@.len(),
                blocks@ == board.blocks@,
                *board == self.board_with_blocks,
                forall|k: int| 0 <= k < i ==> {
                    let b = #[trigger] blocks@[k];
                    b.width > 0 && b.height > 0 ==> {
                        &&& b.initial_location.0 + b.width <= board.width
                        &&& b.initial_location.1 < board.height
                        &&& b.initial_location.1 + 1 >= b.height
                    }
                },
        {
            let b = &blocks[i];
            if b.width > 0 && b.height > 0 {
                if (b.initial_location.0 as u16) + (b.width as u16) > board.width as u16
                    || b.initial_location.1 >= board.height
                    || (b.initial_location.1 as u16) + 1 < b.height as u16 {
                    assert(board.blocks@[i as int] == *b);
                    assert(!game_initializable(*board));
                    return false;
                }
            }
        }
        let e = board.exit_position;
        if e.length > 0 && (e.distance_to_edge as u16) + (e.length as u16) - 1 > 255 {
            return false;
        }
        if e.length > 0 && e.side == ExitSide::Top && board.height < 1 {
            return false;
        }
        if e.length > 0 && e.side == ExitSide::Right && board.width < 1 {
            return false;
        }
        level_buildable_exec(board)
    }

    /// The state of the game as it is shown to the player (see
    /// `game_state_text`).
    pub fn state_text(&self) -> (s: String)
        ensures
            s@ == game_state_text(*self),
    {
        let mut s = String::new();
        s.append("--- Game State ---\nBoard Dimensions: Width = ");
        push_decimal(&mut s, self.board_with_blocks.width as u64);
        s.append(", Height = ");
        push_decimal(&mut s, self.board_with_blocks.height as u64);
        s.append("\n\nExit Information:\nExit Direction: ");
        s.append(match self.exit.exit_direction {
            ExitSide::Top => "Top",
            ExitSide::Bottom => "Bottom",
            ExitSide::Left => "Left",
            ExitSide::Right => "Right",
        });
        s.append("\nAdjacent Grids to Exit:\n");
        let ghost head = s@;
        let cells = &self.exit.adjacent_grid;
        let n = cells.len();
        for i in 0..n
            invariant
                n == cells@.len(),
                s@ == head + adjacent_lines(cells@, i as int),
        {
            s.append("  - Position: (");
            push_signed(&mut s, cells[i].x);
            s.append(", ");
            push_signed(&mut s, cells[i].y);
            s.append(")\n");
            assert(s@ =~= head + adjacent_lines(cells@, i + 1));
        }
        s.append("\nBlocks In Game:\n");
        let ghost head2 = s@;
        let blocks = &self.blocks_in_game;
        let m = blocks.len();
        for i in 0..m
            invariant
                m == blocks@.len(),
                s@ == head2 + block_lines(blocks@, i as int),
        {
            push_block_line(&mut s, &blocks[i]);
            assert(s@ =~= head2 + block_lines(blocks@, i + 1));
        }
        s.append("\nGrid State:\n");
        let grid = self.grid_lines();
        s.append(grid.as_str());
        s.append("--- End of Game State ---\n");
        assert(s@ =~= game_state_text(*self));
        s
    }

    /// Whether the board holds a block at all.
    pub fn authorize_game_blocks_amount(&self) -> (ok: bool)
        ensures
            ok == (self.board_with_blocks.blocks@.len() > 0),
    {
        if self.board_with_blocks.blocks.is_empty() {
            return false;
        }
        return true;
    }

    /// Whether the exit fits on its side of the board.
    pub fn authorize_game_exit_location(&self) -> (ok: bool)
        requires
            self.board_with_blocks.exit_position.distance_to_edge + self.board_with_blocks.exit_position.length <= u8::MAX,
        ensures
            ok == exit_location_valid(self.board_with_blocks),
    {
        let mut authorization_passed_flag: bool = true;
        let e = self.board_with_blocks.exit_position;
        if e.side == ExitSide::Bottom || e.side == ExitSide::Top {
            if e.distance_to_edge + e.length > self.board_with_blocks.width {
                authorization_passed_flag = false;
            }
        } else {
            if e.distance_to_edge + e.length > self.board_with_blocks.height {
                authorization_passed_flag = false;
            }
        }
        return authorization_passed_flag;
    }

    /// Checks where the blocks lie: whether each lies within the borders of
    /// the board and no cell is covered by two blocks; with the report of
    /// what is wrong (see `placement_report`).
    #[verifier::rlimit(40)]
    pub fn authorize_game_blocks_location_conflict(&self) -> (res: (bool, String))
        requires
            placement_check_computable(self.board_with_blocks),
        ensures
            res.0 == blocks_placement_valid(self.board_with_blocks),
            res.1@ == placement_report(self.board_with_blocks),
    {
        let board = &self.board_with_blocks;
        let blocks = &board.blocks;
        let ghost bs = blocks@;
        let mut return_message = String::new();
        let mut borders_ok: bool = true;
        let mut occupied_grids: Vec<(u8, u8, String)> = Vec::new();
        let nb = blocks.len();
        for bi in 0..nb
            invariant
                nb == bs.len(),
                bs == board.blocks@,
                blocks@ == bs,
                placement_check_computable(*board),
                return_message@ == border_messages(bs, board.width, board.height, bi as int),
                borders_ok == forall|i: int| 0 <= i < bi ==> #[trigger] block_in_borders(bs[i], board.width, board.height),
                cells_view(occupied_grids@) == occupied_cells(bs, bi as int),
        {
            let block = &blocks[bi];
            assert(*block == bs[bi as int]);
            assert(placement_check_computable(*board) ==> {
                let b = board.blocks@[bi as int];
                &&& 1 <= b.initial_location.0 + b.width <= u8::MAX
                &&& b.width > 0 && b.height > 0 ==> b.initial_location.1 + 1 >= b.height
            });
            let in_borders = push_border_messages(&mut return_message, block, board.width, board.height);
            if !in_borders {
                borders_ok = false;
            }
            push_block_cells(&mut occupied_grids, block);
            proof {
                assert(occupied_cells(bs, bi + 1) == occupied_cells(bs, bi as int) + block_cells(bs[bi as int]));
                assert(border_messages(bs, board.width, board.height, bi + 1)
                    == border_messages(bs, board.width, board.height, bi as int) + block_border_messages(bs[bi as int], board.width, board.height));
            }
        }
        let ghost border_msg = return_message@;
        let ghost cells = occupied_cells(bs, bs.len() as int);
        // Group the covered cells by cell.
        let mut grid_map: Vec<(u8, u8, Vec<String>)> = Vec::new();
        let nc = occupied_grids.len();
        assert(cells_view(occupied_grids@).len() == nc);
        for ci in 0..nc
            invariant
                nc == occupied_grids@.len(),
                cells_view(occupied_grids@) == cells,
                groups_view(grid_map@) == group_cells(cells, ci as int),
        {
            let (x, y, ref name) = occupied_grids[ci];
            let ghost g = groups_view(grid_map@);
            assert(cells[ci as int] == (x as int, y as int, name@));
            let ng = grid_map.len();
            let mut found: Option<usize> = None;
            for gi in 0..ng
                invariant
                    ng == grid_map@.len(),
                    g == groups_view(grid_map@),
                    match found {
                        Some(k) => group_index(g, x as int, y as int, gi as int) == Some(k as int),
                        None => group_index(g, x as int, y as int, gi as int) is None,
                    },
            {
                assert(g[gi as int] == (grid_map@[gi as int].0 as int, grid_map@[gi as int].1 as int, grid_map@[gi as int].2@.map_values(|n: String| n@)));
                if grid_map[gi].0 == x && grid_map[gi].1 == y {
                    found = Some(gi);
                }
            }
            proof {
                lemma_group_index_bound(g, x as int, y as int, ng as int);
            }
            match found {
                Some(k) => {
                    let (gx, gy, mut names) = grid_map.remove(k);
                    let ghost names0 = names@;
                    names.push(name.clone());
                    grid_map.insert(k, (gx, gy, names));
                    proof {
                        assert(names@.map_values(|n: String| n@) =~= names0.map_values(|n: String| n@).push(name@));
                        assert(groups_view(grid_map@) =~= g.update(k as int, (x as int, y as int, g[k as int].2.push(name@))));
                    }
                },
                None => {
                    let mut names: Vec<String> = Vec::new();
                    names.push(name.clone());
                    grid_map.push((x, y, names));
                    proof {
                        assert(names@.map_values(|n: String| n@) =~= seq![name@]);
                        assert(groups_view(grid_map@) =~= g.push((x as int, y as int, seq![name@])));
                    }
                },
            }
        }
        // Report the cells covered more than once.
        let ghost groups = group_cells(cells, cells.len() as int);
        let mut overlaps_ok: bool = true;
        let ng = grid_map.len();
        assert(groups_view(grid_map@).len() == ng);
        for gi in 0..ng
            invariant
                ng == grid_map@.len(),
                groups_view(grid_map@) == groups,
                return_message@ == border_msg + overlap_messages(groups, gi as int),
                overlaps_ok == forall|k: int| 0 <= k < gi ==> #[trigger] groups[k].2.len() <= 1,
        {
            let (x, y, ref names) = grid_map[gi];
            assert(groups[gi as int] == (x as int, y as int, names@.map_values(|n: String| n@)));
            if names.len() > 1 {
                overlaps_ok = false;
                let ghost m0 = return_message@;
                return_message.append("Grid (");
                push_decimal(&mut return_message, x as u64);
                return_message.append(", ");
                push_decimal(&mut return_message, y as u64);
                return_message.append(") is occupied by: ");
                let listed = debug_list(names);
                return_message.append(listed.as_str());
                return_message.append("; \n");
                assert(return_message@ =~= m0 + overlap_message(groups[gi as int]));
            } else {
                assert(overlap_messages(groups, gi + 1) =~= overlap_messages(groups, gi as int));
            }
        }
        proof {
            assert(groups == board_groups(*board));
        }
        return (borders_ok && overlaps_ok, return_message);
    }
}

proof fn lemma_border_messages_empty(blocks: Seq<Block>, width: u8, height: u8, n: int)
    requires
        0 <= n <= blocks.len(),
    ensures
        border_messages(blocks, width, height, n).len() == 0
            <==> forall|i: int| 0 <= i < n ==> #[trigger] block_in_borders(blocks[i], width, height),
    decreases n,
{
    reveal_strlit("Block name: ");
    if n > 0 {
        lemma_border_messages_empty(blocks, width, height, n - 1);
        let b = blocks[n - 1];
        let name = b.block_english_name@;
        assert(right_border_message(name).len() > 0);
        assert(top_border_message(name).len() > 0);
        assert(block_border_messages(b, width, height).len() == 0 <==> block_in_borders(b, width, height));
    }
}

proof fn lemma_overlap_messages_empty(groups: Seq<(int, int, Seq<Seq<char>>)>, n: int)
    requires
        0 <= n <= groups.len(),
    ensures
        overlap_messages(groups, n).len() == 0 <==> forall|k: int| 0 <= k < n ==> #[trigger] groups[k].2.len() <= 1,
    decreases n,
{
    reveal_strlit("Grid (");
    if n > 0 {
        lemma_overlap_messages_empty(groups, n - 1);
        assert(overlap_message(groups[n - 1]).len() > 0);
    }
}

/// The placement check passes exactly when its report is empty.
pub proof fn lemma_report_empty_iff_valid(board: Board)
    ensures
        placement_report(board).len() == 0 <==> blocks_placement_valid(board),
{
    lemma_border_messages_empty(board.blocks@, board.width, board.height, board.blocks@.len() as int);
    let g = board_groups(board);
    lemma_overlap_messages_empty(g, g.len() as int);
}

/// The number of the first `n` covered cells that lie at `(x, y)`.
pub open spec fn cell_count(cells: Seq<(int, int, Seq<char>)>, x: int, y: int, n: int) -> int
    decreases n,
{
    if n <= 0 {
        0
    } else {
        cell_count(cells, x, y, n - 1) + (if cells[n - 1].0 == x && cells[n - 1].1 == y { 1int } else { 0int })
    }
}

/// The groups of the first `n` cells have distinct cells, hold as many names
/// as their cell occurs, and every cell has its group.
proof fn lemma_group_cells_counts(cells: Seq<(int, int, Seq<char>)>, n: int)
    requires
        0 <= n <= cells.len(),
    ensures
        ({
            let g = group_cells(cells, n);
            &&& forall|a: int, b: int| 0 <= a < b < g.len() ==> (#[trigger] g[a].0 != #[trigger] g[b].0 || g[a].1 != g[b].1)
            &&& forall|a: int| 0 <= a < g.len() ==> (#[trigger] g[a]).2.len() == cell_count(cells, g[a].0, g[a].1, n)
            &&& forall|k: int| 0 <= k < n ==> (#[trigger] group_index(g, cells[k].0, cells[k].1, g.len() as int)) is Some
        }),
    decreases n,
{
    if n > 0 {
        lemma_group_cells_counts(cells, n - 1);
        let g = group_cells(cells, n - 1);
        let (x, y, name) = cells[n - 1];
        lemma_group_index_bound(g, x, y, g.len() as int);
        let g2 = group_cells(cells, n);
        match group_index(g, x, y, g.len() as int) {
            Some(k) => {
                assert(g2 == g.update(k, (x, y, g[k].2.push(name))));
                assert forall|a: int| 0 <= a < g2.len() implies (#[trigger] g2[a]).2.len() == cell_count(cells, g2[a].0, g2[a].1, n) by {
                    if a != k {
                        assert(g[a].0 != x || g[a].1 != y) by {
                            if a < k { assert(g[a].0 != g[k].0 || g[a].1 != g[k].1); }
                            else { assert(g[k].0 != g[a].0 || g[k].1 != g[a].1); }
                        }
                    }
                }
                assert forall|kk: int| 0 <= kk < n implies (#[trigger] group_index(g2, cells[kk].0, cells[kk].1, g2.len() as int)) is Some by {
                    lemma_group_index_keys(g, k, (x, y, g[k].2.push(name)), cells[kk].0, cells[kk].1, g.len() as int);
                    if kk < n - 1 {
                        assert(group_index(g, cells[kk].0, cells[kk].1, g.len() as int) is Some);
                    } else {
                        lemma_group_index_bound(g2, x, y, g2.len() as int);
                    }
                }
            },
            None => {
                assert(g2 == g.push((x, y, seq![name])));
                lemma_group_index_none(g, x, y, g.len() as int);
                assert forall|a: int| 0 <= a < g2.len() implies (#[trigger] g2[a]).2.len() == cell_count(cells, g2[a].0, g2[a].1, n) by {
                    if a == g.len() {
                        lemma_cell_count_absent(cells, g, x, y, n - 1);
                    } else {
                        assert(g2[a] == g[a]);
                    }
                }
                assert forall|kk: int| 0 <= kk < n implies (#[trigger] group_index(g2, cells[kk].0, cells[kk].1, g2.len() as int)) is Some by {
                    lemma_group_index_push(g, (x, y, seq![name]), cells[kk].0, cells[kk].1);
                    if kk < n - 1 {
                        assert(group_index(g, cells[kk].0, cells[kk].1, g.len() as int) is Some);
                    }
                }
            },
        }
    }
}

proof fn lemma_group_index_none(g: Seq<(int, int, Seq<Seq<char>>)>, x: int, y: int, n: int)
    requires
        0 <= n <= g.len(),
        group_index(g, x, y, n) is None,
    ensures
        forall|a: int| 0 <= a < n ==> (#[trigger] g[a].0 != x || g[a].1 != y),
    decreases n,
{
    if n > 0 {
        lemma_group_index_none(g, x, y, n - 1);
    }
}

proof fn lemma_group_index_some(g: Seq<(int, int, Seq<Seq<char>>)>, a: int, n: int)
    requires
        0 <= a < n <= g.len(),
    ensures
        group_index(g, g[a].0, g[a].1, n) is Some,
    decreases n,
{
    if n - 1 > a {
        lemma_group_index_some(g, a, n - 1);
    }
}

proof fn lemma_group_index_keys(
    g: Seq<(int, int, Seq<Seq<char>>)>,
    k: int,
    v: (int, int, Seq<Seq<char>>),
    x: int,
    y: int,
    n: int,
)
    requires
        0 <= k < g.len(),
        0 <= n <= g.len(),
        v.0 == g[k].0,
        v.1 == g[k].1,
    ensures
        group_index(g.update(k, v), x, y, n) == group_index(g, x, y, n),
    decreases n,
{
    if n > 0 {
        lemma_group_index_keys(g, k, v, x, y, n - 1);
    }
}

proof fn lemma_group_index_push(g: Seq<(int, int, Seq<Seq<char>>)>, e: (int, int, Seq<Seq<char>>), x: int, y: int)
    ensures
        group_index(g, x, y, g.len() as int) is Some ==> group_index(g.push(e), x, y, (g.len() + 1) as int) is Some,
        e.0 == x && e.1 == y ==> group_index(g.push(e), x, y, (g.len() + 1) as int) is Some,
{
    let g2 = g.push(e);
    lemma_group_index_prefix(g, g2, x, y, g.len() as int);
}

proof fn lemma_group_index_prefix(g: Seq<(int, int, Seq<Seq<char>>)>, g2: Seq<(int, int, Seq<Seq<char>>)>, x: int, y: int, n: int)
    requires
        0 <= n <= g.len(),
        g.len() <= g2.len(),
        forall|a: int| 0 <= a < g.len() ==> #[trigger] g2[a] == g[a],
    ensures
        group_index(g2, x, y, n) == group_index(g, x, y, n),
    decreases n,
{
    if n > 0 {
        lemma_group_index_prefix(g, g2, x, y, n - 1);
    }
}

proof fn lemma_cell_count_absent(cells: Seq<(int, int, Seq<char>)>, g: Seq<(int, int, Seq<Seq<char>>)>, x: int, y: int, n: int)
    requires
        0 <= n <= cells.len(),
        forall|k: int| 0 <= k < n ==> (#[trigger] group_index(g, cells[k].0, cells[k].1, g.len() as int)) is Some,
        group_index(g, x, y, g.len() as int) is None,
    ensures
        cell_count(cells, x, y, n) == 0,
    decreases n,
{
    if n > 0 {
        assert(group_index(g, cells[n - 1].0, cells[n - 1].1, g.len() as int) is Some);
        lemma_cell_count_absent(cells, g, x, y, n - 1);
    }
}

proof fn lemma_cell_count_two(cells: Seq<(int, int, Seq<char>)>, k1: int, k2: int, n: int)
    requires
        0 <= k1 < k2 < n <= cells.len(),
        cells[k1].0 == cells[k2].0 && cells[k1].1 == cells[k2].1,
    ensures
        cell_count(cells, cells[k1].0, cells[k1].1, n) >= 2,
    decreases n,
{
    if n - 1 > k2 {
        lemma_cell_count_two(cells, k1, k2, n - 1);
    } else {
        lemma_cell_count_one(cells, k1, n - 1);
    }
}

proof fn lemma_cell_count_one(cells: Seq<(int, int, Seq<char>)>, k: int, n: int)
    requires
        0 <= k < n <= cells.len(),
    ensures
        cell_count(cells, cells[k].0, cells[k].1, n) >= 1,
    decreases n,
{
    if n - 1 > k {
        lemma_cell_count_one(cells, k, n - 1);
    } else {
        lemma_cell_count_nonneg(cells, cells[k].0, cells[k].1, n - 1);
    }
}

proof fn lemma_cell_count_nonneg(cells: Seq<(int, int, Seq<char>)>, x: int, y: int, n: int)
    ensures
        cell_count(cells, x, y, n) >= 0,
    decreases n,
{
    if n > 0 {
        lemma_cell_count_nonneg(cells, x, y, n - 1);
    }
}

/// When the groups of the covered cells hold one name each, no cell occurs
/// twice among them.
proof fn lemma_single_groups_distinct(cells: Seq<(int, int, Seq<char>)>, k1: int, k2: int)
    requires
        0 <= k1 < k2 < cells.len(),
        forall|a: int| 0 <= a < group_cells(cells, cells.len() as int).len()
            ==> (#[trigger] group_cells(cells, cells.len() as int)[a]).2.len() <= 1,
    ensures
        cells[k1].0 != cells[k2].0 || cells[k1].1 != cells[k2].1,
{
    let n = cells.len() as int;
    lemma_group_cells_counts(cells, n);
    let g = group_cells(cells, n);
    if cells[k1].0 == cells[k2].0 && cells[k1].1 == cells[k2].1 {
        lemma_cell_count_two(cells, k1, k2, n);
        assert(group_index(g, cells[k1].0, cells[k1].1, g.len() as int) is Some);
        lemma_group_index_bound(g, cells[k1].0, cells[k1].1, g.len() as int);
        let a = group_index(g, cells[k1].0, cells[k1].1, g.len() as int)->0;
        assert(g[a].2.len() <= 1);
    }
}

proof fn lemma_occupied_prefix(blocks: Seq<Block>, n: int, m: int)
    requires
        0 <= n <= m,
    ensures
        occupied_cells(blocks, m).len() >= occupied_cells(blocks, n).len(),
        forall|k: int| 0 <= k < occupied_cells(blocks, n).len() ==> #[trigger] occupied_cells(blocks, m)[k] == occupied_cells(blocks, n)[k],
    decreases m,
{
    if m > n {
        lemma_occupied_prefix(blocks, n, m - 1);
        assert forall|k: int| 0 <= k < occupied_cells(blocks, n).len() implies #[trigger] occupied_cells(blocks, m)[k] == occupied_cells(blocks, n)[k] by {
            assert(occupied_cells(blocks, m)[k] == occupied_cells(blocks, m - 1)[k]);
        }
    }
}

/// A board whose placement check passes has no cell covered by two blocks:
/// the cells of two different blocks all differ.
pub proof fn lemma_valid_placement_disjoint(board: Board, i: int, j: int, ki: int, kj: int)
    requires
        blocks_placement_valid(board),
        0 <= i < j < board.blocks@.len(),
        0 <= ki < block_cells(board.blocks@[i]).len(),
        0 <= kj < block_cells(board.blocks@[j]).len(),
    ensures
        block_cells(board.blocks@[i])[ki].0 != block_cells(board.blocks@[j])[kj].0
            || block_cells(board.blocks@[i])[ki].1 != block_cells(board.blocks@[j])[kj].1,
{
    let blocks = board.blocks@;
    let nb = blocks.len() as int;
    let cells = occupied_cells(blocks, nb);
    let oi = occupied_cells(blocks, i).len() as int;
    let oj = occupied_cells(blocks, j).len() as int;
    lemma_occupied_prefix(blocks, i + 1, j);
    lemma_occupied_prefix(blocks, i + 1, nb);
    lemma_occupied_prefix(blocks, j + 1, nb);
    assert(occupied_cells(blocks, i + 1) == occupied_cells(blocks, i) + block_cells(blocks[i]));
    assert(occupied_cells(blocks, j + 1) == occupied_cells(blocks, j) + block_cells(blocks[j]));
    assert(cells[oi + ki] == block_cells(blocks[i])[ki]) by {
        assert(occupied_cells(blocks, i + 1)[oi + ki] == block_cells(blocks[i])[ki]);
    }
    assert(cells[oj + kj] == block_cells(blocks[j])[kj]) by {
        assert(occupied_cells(blocks, j + 1)[oj + kj] == block_cells(blocks[j])[kj]);
    }
    assert(oi + ki < oj + kj);
    assert(cells == occupied_cells(board.blocks@, board.blocks@.len() as int));
    assert forall|a: int| 0 <= a < group_cells(cells, cells.len() as int).len()
        implies (#[trigger] group_cells(cells, cells.len() as int)[a]).2.len() <= 1 by {
        assert(board_groups(board)[a].2.len() <= 1);
    }
    lemma_single_groups_distinct(cells, oi + ki, oj + kj);
}

/// The index among the cells of block `b` of a cell it covers.
proof fn lemma_cell_index(b: Block, x: int, y: int) -> (k: int)
    requires
        b.initial_location.0 <= x < b.initial_location.0 + b.width,
        b.initial_location.1 - b.height < y <= b.initial_location.1,
    ensures
        0 <= k < block_cells(b).len(),
        block_cells(b)[k].0 == x,
        block_cells(b)[k].1 == y,
{
    let h = b.height as int;
    let w = b.width as int;
    let dx = x - b.initial_location.0;
    let dy = b.initial_location.1 - y;
    let k = dx * h + dy;
    assert(k / h == dx && k % h == dy) by (nonlinear_arith)
        requires 0 <= dy < h, 0 <= dx, k == dx * h + dy;
    assert(0 <= k < w * h) by (nonlinear_arith)
        requires 0 <= dy < h, 0 <= dx < w, k == dx * h + dy;
    k
}

/// On a board whose placement check passes, no cell of the grid is covered
/// by two of the blocks put in play from it.
pub proof fn lemma_covered_once(board: Board, blocks: Seq<BlockInGame>, i: int, j: int, x: int, y: int)
    requires
        blocks_placement_valid(board),
        blocks.len() == board.blocks@.len(),
        forall|k: int| 0 <= k < blocks.len() ==> #[trigger] in_game_of(blocks[k], board.blocks@[k]),
        0 <= i < j < blocks.len(),
    ensures
        !(covers(blocks[i], x, y) && covers(blocks[j], x, y)),
{
    if covers(blocks[i], x, y) && covers(blocks[j], x, y) {
        assert(in_game_of(blocks[i], board.blocks@[i]));
        assert(in_game_of(blocks[j], board.blocks@[j]));
        let ki = lemma_cell_index(board.blocks@[i], x, y);
        let kj = lemma_cell_index(board.blocks@[j], x, y);
        lemma_valid_placement_disjoint(board, i, j, ki, kj);
    }
}


/// Whether block `b` covers board cell `(x, y)`: `width` columns from its
/// anchor rightwards, `height` rows from its anchor downwards.
pub open spec fn block_covers(b: Block, x: int, y: int) -> bool {
    &&& b.initial_location.0 <= x < b.initial_location.0 + b.width
    &&& b.initial_location.1 - b.height < y <= b.initial_location.1
}

/// The quotient and remainder of `k` by a positive `h`.
proof fn lemma_div_mod_parts(k: int, h: int)
    requires
        0 <= k,
        0 < h,
    ensures
        k == h * (k / h) + k % h,
        0 <= k % h < h,
        0 <= k / h,
{
    vstd::arithmetic::div_mod::lemma_fundamental_div_mod(k, h);
    vstd::arithmetic::div_mod::lemma_mod_pos_bound(k, h);
    vstd::arithmetic::div_mod::lemma_div_pos_is_pos(k, h);
}

/// Each listed cell of a block is one that it covers.
proof fn lemma_block_cell_covered(b: Block, k: int)
    requires
        0 <= k < block_cells(b).len(),
    ensures
        block_covers(b, block_cells(b)[k].0, block_cells(b)[k].1),
{
    let h = b.height as int;
    let w = b.width as int;
    assert(h > 0) by (nonlinear_arith)
        requires 0 <= k < w * h, 0 <= w, 0 <= h;
    lemma_div_mod_parts(k, h);
    let q = k / h;
    assert(q < w) by (nonlinear_arith)
        requires k == h * q + k % h, 0 <= k % h, k < w * h, 0 < h;
}

/// Different listed cells of one block lie apart.
proof fn lemma_block_cells_apart(b: Block, o1: int, o2: int)
    requires
        0 <= o1 < o2 < block_cells(b).len(),
    ensures
        block_cells(b)[o1].0 != block_cells(b)[o2].0 || block_cells(b)[o1].1 != block_cells(b)[o2].1,
{
    let h = b.height as int;
    let w = b.width as int;
    assert(h > 0) by (nonlinear_arith)
        requires 0 <= o2 < w * h, 0 <= w, 0 <= h;
    lemma_div_mod_parts(o1, h);
    lemma_div_mod_parts(o2, h);
}

/// The block and the place among its cells of the `k`-th covered cell.
proof fn lemma_occupied_index(blocks: Seq<Block>, n: int, k: int) -> (r: (int, int))
    requires
        0 <= n <= blocks.len(),
        0 <= k < occupied_cells(blocks, n).len(),
    ensures
        0 <= r.0 < n,
        0 <= r.1 < block_cells(blocks[r.0]).len(),
        occupied_cells(blocks, r.0).len() + r.1 == k,
        occupied_cells(blocks, n)[k] == block_cells(blocks[r.0])[r.1],
    decreases n,
{
    let prev = occupied_cells(blocks, n - 1);
    assert(occupied_cells(blocks, n) == prev + block_cells(blocks[n - 1]));
    if k < prev.len() {
        let r = lemma_occupied_index(blocks, n - 1, k);
        assert(occupied_cells(blocks, n)[k] == prev[k]);
        r
    } else {
        (n - 1, k - prev.len())
    }
}

/// Two of the counted cells lie at `(x, y)` where at least two do.
proof fn lemma_cell_count_pair(cells: Seq<(int, int, Seq<char>)>, x: int, y: int, n: int) -> (r: (int, int))
    requires
        0 <= n <= cells.len(),
        cell_count(cells, x, y, n) >= 2,
    ensures
        0 <= r.0 < r.1 < n,
        cells[r.0].0 == x && cells[r.0].1 == y,
        cells[r.1].0 == x && cells[r.1].1 == y,
    decreases n,
{
    if cells[n - 1].0 == x && cells[n - 1].1 == y {
        let k = lemma_cell_count_witness(cells, x, y, n - 1);
        (k, n - 1)
    } else {
        lemma_cell_count_pair(cells, x, y, n - 1)
    }
}

/// One of the counted cells lies at `(x, y)` where at least one does.
proof fn lemma_cell_count_witness(cells: Seq<(int, int, Seq<char>)>, x: int, y: int, n: int) -> (k: int)
    requires
        0 <= n <= cells.len(),
        cell_count(cells, x, y, n) >= 1,
    ensures
        0 <= k < n,
        cells[k].0 == x && cells[k].1 == y,
    decreases n,
{
    if cells[n - 1].0 == x && cells[n - 1].1 == y {
        n - 1
    } else {
        lemma_cell_count_witness(cells, x, y, n - 1)
    }
}

/// The placement check passes exactly when every block's anchor column and
/// last column are at most the board's width and its anchor row at most the
/// board's height, and no two blocks cover a common cell.
pub proof fn lemma_placement_valid_iff(board: Board)
    ensures
        blocks_placement_valid(board) <==> {
            &&& forall|i: int| 0 <= i < board.blocks@.len() ==> {
                let b = #[trigger] board.blocks@[i];
                &&& b.initial_location.0 <= board.width
                &&& b.initial_location.1 <= board.height
                &&& b.initial_location.0 + b.width - 1 <= board.width
            }
            &&& forall|i: int, j: int, x: int, y: int| 0 <= i < j < board.blocks@.len() ==>
                !(#[trigger] block_covers(board.blocks@[i], x, y) && #[trigger] block_covers(board.blocks@[j], x, y))
        },
{
    let blocks = board.blocks@;
    let nb = blocks.len() as int;
    if blocks_placement_valid(board) {
        assert forall|i: int| 0 <= i < nb implies {
            let b = #[trigger] blocks[i];
            &&& b.initial_location.0 <= board.width
            &&& b.initial_location.1 <= board.height
            &&& b.initial_location.0 + b.width - 1 <= board.width
        } by {
            assert(block_in_borders(blocks[i], board.width, board.height));
        }
        assert forall|i: int, j: int, x: int, y: int| 0 <= i < j < nb implies
            !(#[trigger] block_covers(blocks[i], x, y) && #[trigger] block_covers(blocks[j], x, y)) by {
            if block_covers(blocks[i], x, y) && block_covers(blocks[j], x, y) {
                let ki = lemma_cell_index(blocks[i], x, y);
                let kj = lemma_cell_index(blocks[j], x, y);
                lemma_valid_placement_disjoint(board, i, j, ki, kj);
            }
        }
    }
    if ({
        &&& forall|i: int| 0 <= i < nb ==> {
            let b = #[trigger] blocks[i];
            &&& b.initial_location.0 <= board.width
            &&& b.initial_location.1 <= board.height
            &&& b.initial_location.0 + b.width - 1 <= board.width
        }
        &&& forall|i: int, j: int, x: int, y: int| 0 <= i < j < nb ==>
            !(#[trigger] block_covers(blocks[i], x, y) && #[trigger] block_covers(blocks[j], x, y))
    }) {
        assert forall|i: int| 0 <= i < nb implies #[trigger] block_in_borders(blocks[i], board.width, board.height) by {
            let b = blocks[i];
            assert(b.initial_location.0 <= board.width);
        }
        let cells = occupied_cells(blocks, nb);
        let n = cells.len() as int;
        let g = board_groups(board);
        lemma_group_cells_counts(cells, n);
        assert forall|a: int| 0 <= a < g.len() implies #[trigger] g[a].2.len() <= 1 by {
            if g[a].2.len() > 1 {
                let (k1, k2) = lemma_cell_count_pair(cells, g[a].0, g[a].1, n);
                let (i1, o1) = lemma_occupied_index(blocks, nb, k1);
                let (i2, o2) = lemma_occupied_index(blocks, nb, k2);
                lemma_block_cell_covered(blocks[i1], o1);
                lemma_block_cell_covered(blocks[i2], o2);
                if i1 == i2 {
                    lemma_block_cells_apart(blocks[i1], o1, o2);
                } else if i1 < i2 {
                    lemma_occupied_prefix(blocks, i1 + 1, i2);
                    assert(occupied_cells(blocks, i1 + 1) == occupied_cells(blocks, i1) + block_cells(blocks[i1]));
                    assert(block_covers(blocks[i1], g[a].0, g[a].1));
                    assert(block_covers(blocks[i2], g[a].0, g[a].1));
                } else {
                    lemma_occupied_prefix(blocks, i2 + 1, i1);
                    assert(occupied_cells(blocks, i2 + 1) == occupied_cells(blocks, i2) + block_cells(blocks[i2]));
                }
            }
        }
    }
}


/// The cells next to the exit follow it from its start, one per exit cell:
/// the `i`-th lies in column `distance_to_edge + i` of the top row (exit on
/// the top) or of the bottom row (exit on the bottom), or `distance_to_edge +
/// i` rows below the top row in the left column (exit on the left) or the
/// right column (exit on the right). Where that cell is on the board, the
/// wall token of the level map right beyond it, on the exit's side, is an
/// "E" unless a block is drawn there.
pub proof fn lemma_exit_adjacent_beside_exit(board: Board, i: int)
    requires
        0 <= i < board.exit_position.length,
    ensures
        exit_adjacent_cells(board).len() == board.exit_position.length,
        ({
            let e = board.exit_position;
            let d = e.distance_to_edge as int;
            let c = exit_adjacent_cells(board)[i];
            match e.side {
                ExitSide::Top => c.x as int == d + i && c.y as int == board.height - 1,
                ExitSide::Bottom => c.x as int == d + i && c.y as int == 0,
                ExitSide::Left => c.x as int == 0 && c.y as int == board.height - 1 - d - i,
                ExitSide::Right => c.x as int == board.width - 1 && c.y as int == board.height - 1 - d - i,
            }
        }),
        ({
            let e = board.exit_position;
            let d = e.distance_to_edge as int;
            let c = exit_adjacent_cells(board)[i];
            let (ly, lx) = match e.side {
                ExitSide::Top => (0int, c.x + 1),
                ExitSide::Bottom => (board.height + 1, c.x + 1),
                ExitSide::Left => (board.height - c.y, 0int),
                ExitSide::Right => (board.height - c.y, board.width + 1),
            };
            &&& (if e.side == ExitSide::Top || e.side == ExitSide::Bottom { d + i < board.width } else { d + i < board.height })
            &&& forall|k: int| 0 <= k < board.blocks@.len() ==>
                !((#[trigger] board.blocks@[k]).initial_location.0 + 1 == lx && board.blocks@[k].initial_location.1 + ly == board.height)
        }) ==> ({
            let c = exit_adjacent_cells(board)[i];
            match board.exit_position.side {
                ExitSide::Top => level_rows(board)[0][c.x + 1] == seq!['E'],
                ExitSide::Bottom => level_rows(board)[board.height + 1][c.x + 1] == seq!['E'],
                ExitSide::Left => level_rows(board)[board.height - c.y][0] == seq!['E'],
                ExitSide::Right => level_rows(board)[board.height - c.y][board.width + 1] == seq!['E'],
            }
        }),
{
    let e = board.exit_position;
    let d = e.distance_to_edge as int;
    let c = exit_adjacent_cells(board)[i];
    let (ly, lx) = match e.side {
        ExitSide::Top => (0int, c.x + 1),
        ExitSide::Bottom => (board.height + 1, c.x + 1),
        ExitSide::Left => (board.height - c.y, 0int),
        ExitSide::Right => (board.height - c.y, board.width + 1),
    };
    if (if e.side == ExitSide::Top || e.side == ExitSide::Bottom { d + i < board.width } else { d + i < board.height }) {
        lemma_exit_on_its_side(board, ly, lx);
    }
}


/// On a board with a row and a column, and an exit of positive length, the
/// exit fits on its side exactly when every cell next to it lies on the
/// board: in columns 0 to `width - 1` and rows 0 to `height - 1`.
pub proof fn lemma_exit_valid_iff_adjacent_on_board(board: Board)
    requires
        board.width >= 1,
        board.height >= 1,
        board.exit_position.length >= 1,
    ensures
        exit_location_valid(board) <==> forall|i: int| 0 <= i < exit_adjacent_cells(board).len() ==> {
            let c = #[trigger] exit_adjacent_cells(board)[i];
            &&& 0 <= c.x < board.width
            &&& 0 <= c.y < board.height
        },
{
    let e = board.exit_position;
    let cells = exit_adjacent_cells(board);
    if exit_location_valid(board) {
        assert forall|i: int| 0 <= i < cells.len() implies {
            let c = #[trigger] cells[i];
            &&& 0 <= c.x < board.width
            &&& 0 <= c.y < board.height
        } by {
            lemma_exit_adjacent_beside_exit(board, i);
        }
    } else {
        let i = e.length - 1;
        lemma_exit_adjacent_beside_exit(board, i);
        let c = cells[i];
        assert(!(0 <= c.x < board.width && 0 <= c.y < board.height));
    }
}

/// On a board whose placement check passes, with the blocks put in play from
/// it, a grid cell holds a block exactly when one of the board's blocks covers
/// it, and then the one in play from that block.
pub proof fn lemma_grid_cell_is_cover(board: Board, blocks: Seq<BlockInGame>, x: int, y: int)
    requires
        blocks_placement_valid(board),
        blocks.len() == board.blocks@.len(),
        forall|k: int| 0 <= k < blocks.len() ==> #[trigger] in_game_of(blocks[k], board.blocks@[k]),
    ensures
        grid_cell(blocks, x, y) is Some <==> exists|k: int| 0 <= k < blocks.len() && #[trigger] block_covers(board.blocks@[k], x, y),
        forall|k: int| 0 <= k < blocks.len() && #[trigger] block_covers(board.blocks@[k], x, y) ==> grid_cell(blocks, x, y) == Some(blocks[k]),
{
    let n = blocks.len() as int;
    lemma_covering_block_bound(blocks, x, y, n);
    lemma_covering_block_found(blocks, x, y, n);
    assert forall|k: int| 0 <= k < n implies (#[trigger] block_covers(board.blocks@[k], x, y) <==> covers(blocks[k], x, y)) by {
        assert(in_game_of(blocks[k], board.blocks@[k]));
    }
    assert forall|k: int| 0 <= k < blocks.len() && #[trigger] block_covers(board.blocks@[k], x, y) implies grid_cell(blocks, x, y) == Some(blocks[k]) by {
        let j = covering_block(blocks, x, y, n)->0;
        if j != k {
            if j < k {
                lemma_covered_once(board, blocks, j, k, x, y);
            } else {
                lemma_covered_once(board, blocks, k, j, x, y);
            }
        }
    }
    if grid_cell(blocks, x, y) is Some {
        let j = covering_block(blocks, x, y, n)->0;
        assert(block_covers(board.blocks@[j], x, y));
    }
}

/// The last of the first `n` blocks that covers `(x, y)` is found where some
/// block covers it.
proof fn lemma_covering_block_found(blocks: Seq<BlockInGame>, x: int, y: int, n: int)
    requires
        0 <= n <= blocks.len(),
    ensures
        covering_block(blocks, x, y, n) is Some <==> exists|k: int| 0 <= k < n && #[trigger] covers(blocks[k], x, y),
        covering_block(blocks, x, y, n) matches Some(k) ==> covers(blocks[k], x, y),
    decreases n,
{
    if n > 0 {
        lemma_covering_block_found(blocks, x, y, n - 1);
        if !covers(blocks[n - 1], x, y) && exists|k: int| 0 <= k < n && #[trigger] covers(blocks[k], x, y) {
            let k = choose|k: int| 0 <= k < n && #[trigger] covers(blocks[k], x, y);
            assert(k < n - 1);
        }
    }
}

} // verus!

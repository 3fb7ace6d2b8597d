use klotski::block::Block;
use klotski::board::{initialize_box, Board, ExitPosition, ExitSide};
use klotski::constants::Direction;
use klotski::entity::EntityRecord;
use klotski::game::{Game, Position};

fn classic_board() -> Board {
    let mut board = initialize_box();
    board.add_block(Block::new(0, "Cao Cao", "曹操", 2, 2, (1, 4), true));
    board.add_block(Block::new(1, "Soldier", "兵", 1, 1, (0, 0), false));
    board
}

#[test]
fn blocks_amount_needs_a_block() {
    assert!(!Game::new(initialize_box()).authorize_game_blocks_amount());
    assert!(Game::new(classic_board()).authorize_game_blocks_amount());
}

#[test]
fn exit_location_fits_its_side() {
    assert!(Game::new(initialize_box()).authorize_game_exit_location());
    let too_far = Board::new(4, 5, ExitPosition { side: ExitSide::Top, distance_to_edge: 3, length: 2 });
    assert!(!Game::new(too_far).authorize_game_exit_location());
    let left = Board::new(4, 5, ExitPosition { side: ExitSide::Left, distance_to_edge: 3, length: 2 });
    assert!(Game::new(left).authorize_game_exit_location());
    let right = Board::new(4, 5, ExitPosition { side: ExitSide::Right, distance_to_edge: 4, length: 2 });
    assert!(!Game::new(right).authorize_game_exit_location());
}

#[test]
fn placement_of_the_classic_board_passes() {
    let (ok, message) = Game::new(classic_board()).authorize_game_blocks_location_conflict();
    assert!(ok);
    assert_eq!(message, "");
}

#[test]
fn overlapping_blocks_are_reported() {
    let mut board = initialize_box();
    board.add_block(Block::new(0, "A", "a", 2, 2, (0, 4), false));
    board.add_block(Block::new(1, "B", "b", 1, 1, (1, 3), false));
    let (ok, message) = Game::new(board).authorize_game_blocks_location_conflict();
    assert!(!ok);
    assert_eq!(message, "Grid (1, 3) is occupied by: [\"A\", \"B\"]; \n");
}

#[test]
fn blocks_past_the_borders_are_reported() {
    let mut board = initialize_box();
    board.add_block(Block::new(0, "Far", "f", 1, 1, (5, 6), false));
    board.add_block(Block::new(1, "Wide", "w", 2, 1, (4, 0), false));
    let (ok, message) = Game::new(board).authorize_game_blocks_location_conflict();
    assert!(!ok);
    assert_eq!(
        message,
        "Block name: Far initial location exceeds the right border;\n\
         Block name: Far initial location exceeds the top border;\n\
         Block name: Far initial location exceeds the right border;\n\
         Block name: Wide initial location exceeds the right border;\n"
    );
}

#[test]
fn initialize_places_blocks_on_the_grid() {
    let mut game = Game::new(classic_board());
    let map = game.initialize();
    assert_eq!(game.blocks_in_game.len(), 2);
    assert_eq!(game.blocks_in_game[0].current_location, Position { x: 1, y: 4 });
    assert_eq!(game.grid.len(), 5);
    assert_eq!(game.grid[0].len(), 4);
    let id = |x: usize, y: usize| game.grid[y][x].as_ref().map(|b| b.block_id);
    assert_eq!(id(1, 4), Some(0));
    assert_eq!(id(2, 3), Some(0));
    assert_eq!(id(0, 0), Some(1));
    assert_eq!(id(0, 4), None);
    assert_eq!(id(3, 3), None);
    assert_eq!(game.exit.exit_direction, ExitSide::Bottom);
    assert_eq!(game.exit.adjacent_grid, vec![Position { x: 1, y: 0 }, Position { x: 2, y: 0 }]);
    assert_eq!(
        map,
        "W W W W W W\nW . 0 . . W\nW . . . . W\nW . . . . W\nW . . . . W\nW 1 . . . W\nW W E E W W"
    );
    assert_eq!(game.world.entities.len(), 64);
    assert_eq!(game.globals.map_width, 6);
    assert_eq!(game.globals.map_height, 7);
    assert_eq!(game.globals.exit_key, Direction::Down);
    let exits: Vec<(u8, u8, u8)> = game.globals.exit_positions.iter().map(|p| (p.x, p.y, p.z)).collect();
    assert_eq!(exits, vec![(2, 6, 6), (3, 6, 6)]);
    assert_eq!(
        game.grid_lines(),
        ".  B0 B0 .    (Row 4)\n.  B0 B0 .    (Row 3)\n.  .  .  .    (Row 2)\n.  .  .  .    (Row 1)\nB1 .  .  .    (Row 0)\n"
    );
}

#[test]
fn the_level_holds_the_blocks_at_their_map_cells() {
    let mut game = Game::new(classic_board());
    game.initialize();
    let blocks: Vec<(String, u8, u8, usize)> = game
        .world
        .entities
        .iter()
        .filter_map(|e| match e {
            EntityRecord::Block(b) => {
                Some((b.block_id.block_id.clone(), b.position.x, b.position.y, b.collision_volume.occupied_cells.len()))
            },
            _ => None,
        })
        .collect();
    assert_eq!(blocks, vec![("0".to_string(), 2, 1, 4), ("1".to_string(), 1, 5, 1)]);
}

#[test]
fn top_and_side_exits_have_their_adjacent_cells() {
    let mut top = Game::new(Board::new(4, 5, ExitPosition { side: ExitSide::Top, distance_to_edge: 0, length: 1 }));
    top.initialize();
    assert_eq!(top.exit.adjacent_grid, vec![Position { x: 0, y: 4 }]);
    assert_eq!(top.globals.exit_key, Direction::Up);
    let mut right = Game::new(Board::new(4, 5, ExitPosition { side: ExitSide::Right, distance_to_edge: 2, length: 2 }));
    let map = right.initialize();
    assert_eq!(right.exit.adjacent_grid, vec![Position { x: 3, y: 2 }, Position { x: 3, y: 1 }]);
    assert_eq!(map, "W W W W W W\nW . . . . W\nW . . . . W\nW . . . . E\nW . . . . E\nW . . . . W\nW W W W W W");
    assert_eq!(right.globals.exit_key, Direction::Right);
}

#[test]
fn a_left_exit_at_distance_zero_starts_below_the_top_wall() {
    let mut game = Game::new(Board::new(1, 2, ExitPosition { side: ExitSide::Left, distance_to_edge: 0, length: 1 }));
    let map = game.initialize();
    assert_eq!(map, "W W W\nE . W\nW . W\nW W W");
    assert_eq!(game.exit.adjacent_grid, vec![Position { x: 0, y: 1 }]);
    let mut tall = Game::new(Board::new(4, 5, ExitPosition { side: ExitSide::Left, distance_to_edge: 0, length: 1 }));
    tall.initialize();
    assert_eq!(tall.exit.adjacent_grid, vec![Position { x: 0, y: 4 }]);
}

#[test]
fn the_game_state_text() {
    let mut game = Game::new(classic_board());
    game.initialize();
    let text = game.state_text();
    assert!(text.starts_with("--- Game State ---\nBoard Dimensions: Width = 4, Height = 5\n\nExit Information:\nExit Direction: Bottom\nAdjacent Grids to Exit:\n  - Position: (1, 0)\n  - Position: (2, 0)\n\nBlocks In Game:\n"));
    assert!(text.contains("Block ID: 0, English Name: Cao Cao, Japanese Name: 曹操, Position: (1, 4), Width: 2, Height: 2, Can Escape: true\n"));
    assert!(text.contains("\nGrid State:\n.  B0 B0 .    (Row 4)\n"));
    assert!(text.ends_with("B1 .  .  .    (Row 0)\n--- End of Game State ---\n"));
}

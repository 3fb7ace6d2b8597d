use klotski::block::Block;
use klotski::board::{initialize_box, Board, ExitPosition, ExitSide};

#[test]
fn block_new_keeps_every_field() {
    let b = Block::new(3, "Guan Yu", "関羽", 2, 1, (1, 2), false);
    assert_eq!(b.block_id, 3);
    assert_eq!(b.block_english_name, "Guan Yu");
    assert_eq!(b.block_japanese_name, "関羽");
    assert_eq!(b.width, 2);
    assert_eq!(b.height, 1);
    assert_eq!(b.initial_location, (1, 2));
    assert!(!b.can_escape);
}

#[test]
fn block_details_lists_the_fields() {
    let b = Block::new(12, "Cao Cao", "曹操", 2, 2, (1, 4), true);
    assert_eq!(
        b.details(),
        "Block Details:\n- Blocks ID: 12\n- English Name: Cao Cao\n- Japanese Name: 曹操\n- Dimensions: 2 x 2\n- Initial Location: (1, 4)\n- Can Escape: Yes"
    );
    let c = Block::new(0, "Soldier", "兵", 1, 1, (0, 0), false);
    assert!(c.details().ends_with("- Can Escape: No"));
}

#[test]
fn board_new_is_empty() {
    let exit = ExitPosition { side: ExitSide::Left, distance_to_edge: 2, length: 1 };
    let board = Board::new(7, 3, exit);
    assert_eq!(board.width, 7);
    assert_eq!(board.height, 3);
    assert_eq!(board.exit_position, exit);
    assert!(board.blocks.is_empty());
}

#[test]
fn add_block_appends_in_order() {
    let mut board = initialize_box();
    board.add_block(Block::new(0, "A", "a", 1, 1, (0, 0), false));
    board.add_block(Block::new(1, "B", "b", 1, 1, (1, 0), false));
    assert_eq!(board.blocks.len(), 2);
    assert_eq!(board.blocks[0].block_english_name, "A");
    assert_eq!(board.blocks[1].block_english_name, "B");
}

#[test]
fn initialize_box_is_the_classic_board() {
    let board = initialize_box();
    assert_eq!(board.width, 4);
    assert_eq!(board.height, 5);
    assert_eq!(board.exit_position, ExitPosition { side: ExitSide::Bottom, distance_to_edge: 1, length: 2 });
    assert!(board.blocks.is_empty());
    assert_eq!(board.summary(), "Board - Width: 4, Height: 5, Exit Side: Bottom, Distance to Edge: 1, Length: 2");
}

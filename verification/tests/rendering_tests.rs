use klotski::components::PositionDuringGame;
use klotski::constants::Direction;
use klotski::entity::{create_block, create_floor, create_wall, EntityRecord, World};
use klotski::rendering::{
    get_selected_block_id, move_block, plan_moves, select_block, set_selected_block_id, KeyInput, SelectedBlock,
};

fn pos(x: u8, y: u8) -> PositionDuringGame {
    PositionDuringGame { x, y, z: 0 }
}

fn block_x(world: &World, e: usize) -> (u8, u8) {
    match &world.entities[e] {
        EntityRecord::Block(b) => (b.position.x, b.position.y),
        _ => panic!("not a block"),
    }
}

const RIGHT: KeyInput = KeyInput { repeated: false, up: false, down: false, left: false, right: true };
const LEFT: KeyInput = KeyInput { repeated: false, up: false, down: false, left: true, right: false };

#[test]
fn selection_is_kept_once_made() {
    let mut s = SelectedBlock::new();
    select_block(&mut s, false, false, false);
    assert_eq!(get_selected_block_id(&s), "");
    select_block(&mut s, false, true, true);
    assert_eq!(get_selected_block_id(&s), "1");
    select_block(&mut s, true, false, false);
    assert_eq!(get_selected_block_id(&s), "1");
    let mut t = SelectedBlock::new();
    select_block(&mut t, true, true, false);
    assert_eq!(get_selected_block_id(&t), "0");
    set_selected_block_id(&mut t, "2".to_string());
    assert_eq!(get_selected_block_id(&t), "2");
}

fn row_world() -> World {
    let mut world = World::new();
    create_wall(&mut world, pos(0, 0));
    create_floor(&mut world, pos(1, 0));
    create_block(&mut world, pos(1, 0), "1", Some((1, 1, false)));
    create_block(&mut world, pos(2, 0), "2", Some((1, 1, false)));
    create_wall(&mut world, pos(5, 0));
    world
}

fn selected(id: &str) -> SelectedBlock {
    let mut s = SelectedBlock::new();
    set_selected_block_id(&mut s, id.to_string());
    s
}

#[test]
fn a_wall_stops_the_push() {
    let mut world = row_world();
    move_block(&mut world, &selected("1"), 6, 1, LEFT);
    assert_eq!(block_x(&world, 2), (1, 0));
    assert_eq!(block_x(&world, 3), (2, 0));
    match &world.entities[0] {
        EntityRecord::Wall { position, .. } => assert_eq!((position.x, position.y), (0, 0)),
        _ => panic!("not a wall"),
    }
}

#[test]
fn a_push_moves_the_chain_of_blocks() {
    let mut world = row_world();
    assert_eq!(plan_moves(&world, &selected("1"), 6, 1, RIGHT), vec![(2, Direction::Right), (3, Direction::Right)]);
    move_block(&mut world, &selected("1"), 6, 1, RIGHT);
    assert_eq!(block_x(&world, 2), (2, 0));
    assert_eq!(block_x(&world, 3), (3, 0));
    move_block(&mut world, &selected("1"), 6, 1, RIGHT);
    assert_eq!(block_x(&world, 3), (4, 0));
    // now the chain ends at the wall
    move_block(&mut world, &selected("1"), 6, 1, RIGHT);
    assert_eq!(block_x(&world, 2), (3, 0));
    assert_eq!(block_x(&world, 3), (4, 0));
}

#[test]
fn no_push_while_repeating_or_without_arrow_or_selection() {
    let mut world = row_world();
    let repeating = KeyInput { repeated: true, ..RIGHT };
    assert!(plan_moves(&world, &selected("1"), 6, 1, repeating).is_empty());
    let none = KeyInput { repeated: false, up: false, down: false, left: false, right: false };
    assert!(plan_moves(&world, &selected("1"), 6, 1, none).is_empty());
    assert!(plan_moves(&world, &selected("9"), 6, 1, RIGHT).is_empty());
    move_block(&mut world, &SelectedBlock::new(), 6, 1, RIGHT);
    assert_eq!(block_x(&world, 2), (1, 0));
}

#[test]
fn up_and_down_move_along_rows() {
    let mut world = World::new();
    create_block(&mut world, pos(0, 2), "0", Some((1, 1, true)));
    let up = KeyInput { repeated: false, up: true, down: false, left: false, right: true };
    move_block(&mut world, &selected("0"), 1, 4, up);
    assert_eq!(block_x(&world, 0), (0, 1));
    let down = KeyInput { repeated: false, up: false, down: true, left: false, right: false };
    move_block(&mut world, &selected("0"), 1, 4, down);
    move_block(&mut world, &selected("0"), 1, 4, down);
    assert_eq!(block_x(&world, 0), (0, 3));
}

#[test]
fn a_wall_in_the_chain_stops_everything() {
    let mut world = World::new();
    create_block(&mut world, pos(1, 1), "0", Some((1, 1, false)));
    create_wall(&mut world, pos(2, 1));
    create_block(&mut world, pos(3, 1), "1", Some((1, 1, false)));
    assert!(plan_moves(&world, &selected("0"), 6, 3, RIGHT).is_empty());
    move_block(&mut world, &selected("0"), 6, 3, RIGHT);
    assert_eq!(block_x(&world, 0), (1, 1));
    assert_eq!(block_x(&world, 2), (3, 1));
}

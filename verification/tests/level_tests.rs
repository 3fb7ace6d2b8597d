use klotski::block::Block;
use klotski::board::{initialize_box, ExitSide};
use klotski::components::PositionDuringGame;
use klotski::constants::{Direction, GameGlobals};
use klotski::entity::{EntityRecord, World};
use klotski::level::{initialize_level, load_map};

fn kinds(world: &World) -> Vec<String> {
    world
        .entities
        .iter()
        .map(|e| match e {
            EntityRecord::Floor { position, .. } => format!("F{},{}", position.x, position.y),
            EntityRecord::Wall { position, .. } => format!("W{},{}", position.x, position.y),
            EntityRecord::Exit { position, .. } => format!("E{},{}", position.x, position.y),
            EntityRecord::Block(b) => format!("B{}@{},{}", b.block_id.block_id, b.position.x, b.position.y),
            _ => "other".to_string(),
        })
        .collect()
}

#[test]
fn empty_classic_board_map() {
    let mut world = World::new();
    let mut globals = GameGlobals::new();
    let board = initialize_box();
    let map = initialize_level(&board, &mut world, ExitSide::Bottom, &mut globals);
    assert_eq!(map, "W W W W W W\nW . . . . W\nW . . . . W\nW . . . . W\nW . . . . W\nW . . . . W\nW W E E W W");
    assert_eq!((globals.map_width, globals.map_height), (6, 7));
    assert_eq!(world.entities.len(), 12 + 5 * 8 + 10);
}

#[test]
fn load_map_trims_and_splits() {
    let mut world = World::new();
    let mut globals = GameGlobals::new();
    let dict = vec![(3u8, 1u8, 2u8, true), (3u8, 1u8, 1u8, false)];
    load_map(&mut world, "  W E \n\t . 3  \n", &dict, ExitSide::Left, &mut globals);
    assert_eq!(kinds(&world), vec!["F0,0", "W0,0", "E1,0", "F0,1", "F1,1", "B3@1,1"]);
    assert_eq!(globals.exit_key, Direction::Left);
    assert_eq!(globals.exit_positions, vec![PositionDuringGame { x: 1, y: 0, z: 6 }]);
    match &world.entities[5] {
        EntityRecord::Block(b) => {
            // the last entry of the dictionary for id 3 wins
            assert_eq!((b.size.width, b.size.height), (1, 1));
            assert_eq!(b.collision_volume.occupied_cells.len(), 1);
        },
        _ => panic!("not a block"),
    }
}

#[test]
fn load_map_digit_without_entry_is_an_empty_block() {
    let mut world = World::new();
    let mut globals = GameGlobals::new();
    load_map(&mut world, "9", &Vec::new(), ExitSide::Top, &mut globals);
    assert_eq!(kinds(&world), vec!["F0,0", "B9@0,0"]);
    assert_eq!(globals.exit_key, Direction::Down);
    assert!(globals.exit_positions.is_empty());
}

#[test]
fn block_ids_show_their_first_digit() {
    let mut board = initialize_box();
    board.add_block(Block::new(27, "Big", "b", 1, 1, (3, 0), false));
    let mut world = World::new();
    let mut globals = GameGlobals::new();
    let map = initialize_level(&board, &mut world, ExitSide::Bottom, &mut globals);
    assert_eq!(map.lines().nth(5), Some("W . . . 2 W"));
    // the dictionary has no entry for id 2, so the block drawn is empty
    let block = world.entities.iter().find_map(|e| match e {
        EntityRecord::Block(b) => Some((b.block_id.block_id.clone(), b.size.width)),
        _ => None,
    });
    assert_eq!(block, Some(("2".to_string(), 0)));
}

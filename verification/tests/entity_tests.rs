use klotski::components::{BlockType, GameplayState, PositionDuringGame};
use klotski::entity::{
    create_block, create_event_queue, create_exit, create_floor, create_gameplay, create_time, create_wall,
    EntityRecord, World,
};

fn pos(x: u8, y: u8) -> PositionDuringGame {
    PositionDuringGame { x, y, z: 0 }
}

#[test]
fn create_block_covers_its_cells_column_by_column() {
    let mut world = World::new();
    let e = create_block(&mut world, pos(2, 3), "7", Some((2, 3, true)));
    assert_eq!(e, 0);
    match &world.entities[0] {
        EntityRecord::Block(b) => {
            assert_eq!(b.position, PositionDuringGame { x: 2, y: 3, z: 9 });
            assert_eq!(b.renderable.path(0), "/images/7.png");
            assert_eq!(b.block_id.block_id, "7");
            assert_eq!((b.size.width, b.size.height), (2, 3));
            assert_eq!(b.escape_type.block_type, BlockType::Special);
            let cells: Vec<(u8, u8, u8)> = b.collision_volume.occupied_cells.iter().map(|c| (c.x, c.y, c.z)).collect();
            assert_eq!(cells, vec![(2, 3, 10), (2, 4, 10), (2, 5, 10), (3, 3, 10), (3, 4, 10), (3, 5, 10)]);
        },
        _ => panic!("not a block"),
    }
}

#[test]
fn create_block_without_size_is_empty_and_regular() {
    let mut world = World::new();
    create_block(&mut world, pos(1, 1), "5", None);
    match &world.entities[0] {
        EntityRecord::Block(b) => {
            assert_eq!((b.size.width, b.size.height), (0, 0));
            assert!(b.collision_volume.occupied_cells.is_empty());
            assert_eq!(b.escape_type.block_type, BlockType::Regular);
        },
        _ => panic!("not a block"),
    }
}

#[test]
fn tiles_get_their_layers_and_images() {
    let mut world = World::new();
    assert_eq!(create_floor(&mut world, pos(1, 2)), 0);
    assert_eq!(create_wall(&mut world, pos(1, 2)), 1);
    assert_eq!(create_exit(&mut world, pos(4, 5)), 2);
    match &world.entities[0] {
        EntityRecord::Floor { position, renderable } => {
            assert_eq!(position.z, 5);
            assert_eq!(renderable.path(0), "/images/floor.png");
        },
        _ => panic!("not a floor"),
    }
    match &world.entities[1] {
        EntityRecord::Wall { position, renderable } => {
            assert_eq!(*position, PositionDuringGame { x: 1, y: 2, z: 10 });
            assert_eq!(renderable.path(0), "/images/mountain.png");
        },
        _ => panic!("not a wall"),
    }
    match &world.entities[2] {
        EntityRecord::Exit { position, renderable } => {
            assert_eq!(*position, PositionDuringGame { x: 4, y: 5, z: 6 });
            assert_eq!(renderable.path(0), "/images/exit.png");
        },
        _ => panic!("not an exit"),
    }
}

#[test]
fn bookkeeping_entities() {
    let mut world = World::new();
    assert_eq!(create_gameplay(&mut world), 0);
    assert_eq!(create_time(&mut world), 1);
    assert_eq!(create_event_queue(&mut world), 2);
    match &world.entities[0] {
        EntityRecord::Gameplay(g) => assert_eq!(g.state, GameplayState::Playing),
        _ => panic!("not gameplay"),
    }
    assert!(matches!(world.entities[1], EntityRecord::Time(_)));
    match &world.entities[2] {
        EntityRecord::EventQueue(q) => assert!(q.events.is_empty()),
        _ => panic!("not a queue"),
    }
}

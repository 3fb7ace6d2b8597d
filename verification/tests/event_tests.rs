use klotski::components::PositionDuringGame;
use klotski::entity::{create_block, create_event_queue, create_exit, EntityRecord, World};
use klotski::event_process::{run_process_events, Sound};
use klotski::events::{BlockMoved, Event};

fn queue(world: &mut World) -> &mut Vec<Event> {
    for e in world.entities.iter_mut() {
        if let EntityRecord::EventQueue(q) = e {
            return &mut q.events;
        }
    }
    panic!("no queue")
}

#[test]
fn a_block_on_the_exit_wins() {
    let mut world = World::new();
    create_exit(&mut world, PositionDuringGame { x: 2, y: 6, z: 0 });
    let on_exit = create_block(&mut world, PositionDuringGame { x: 2, y: 6, z: 0 }, "0", Some((1, 1, true)));
    let elsewhere = create_block(&mut world, PositionDuringGame { x: 1, y: 1, z: 0 }, "1", Some((1, 1, false)));
    create_event_queue(&mut world);
    queue(&mut world).push(Event::BlockHitObstacle);
    queue(&mut world).push(Event::BlockMoved(BlockMoved { entities: vec![elsewhere, on_exit, 99] }));
    let sounds = run_process_events(&mut world);
    assert_eq!(sounds, vec![Sound::Wall]);
    let pending = queue(&mut world);
    assert_eq!(pending.len(), 1);
    assert!(matches!(pending[0], Event::TargetBlockReachExit));
    let sounds = run_process_events(&mut world);
    assert_eq!(sounds, vec![Sound::Win]);
    assert!(queue(&mut world).is_empty());
    assert_eq!(Sound::Win.name(), "win");
    assert_eq!(Sound::Wall.name(), "wall");
}

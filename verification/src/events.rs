use vstd::prelude::*;

verus! {

/// An entity of the level, by its index among the level's entities.
pub type Entity = usize;

/// The entities that a move displaced.
pub struct BlockMoved {
    pub entities: Vec<Entity>,
}

/// Something that happened during play.
pub enum Event {
    /// A block ran into an obstacle such as a wall.
    BlockHitObstacle,
    /// Blocks moved.
    BlockMoved(BlockMoved),
    /// A block reached the exit.
    TargetBlockReachExit,
}

/// What an event is, with the moved entities as a sequence.
pub enum EventView {
    BlockHitObstacle,
    BlockMoved(Seq<Entity>),
    TargetBlockReachExit,
}

impl View for Event {
    type V = EventView;

    open spec fn view(&self) -> EventView {
        match self {
            Event::BlockHitObstacle => EventView::BlockHitObstacle,
            Event::BlockMoved(m) => EventView::BlockMoved(m.entities@),
            Event::TargetBlockReachExit => EventView::TargetBlockReachExit,
        }
    }
}

} // verus!

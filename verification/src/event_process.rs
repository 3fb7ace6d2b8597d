use vstd::prelude::*;
use crate::components::EventQueue;
use crate::entity::{EntityRecord, EntityView, World};
use crate::events::{BlockMoved, Entity, Event, EventView};

verus! {

broadcast use vstd::string::group_string_axioms;

/// A sound the game plays.
#[derive(Clone, Copy, PartialEq, Eq, Structural, Debug)]
pub enum Sound {
    /// A block hit an obstacle.
    Wall,
    /// A block reached the exit.
    Win,
}

impl Sound {
    /// The name the sound is stored under.
    pub fn name(&self) -> (s: &'static str)
        ensures
            s@ == (match self {
                Sound::Wall => "wall"@,
                Sound::Win => "win"@,
            }),
    {
        match self {
            Sound::Wall => "wall",
            Sound::Win => "win",
        }
    }
}

/// The first of the first `n` entities that is an event queue.
pub open spec fn queue_index(ents: Seq<EntityView>, n: int) -> Option<int>
    decreases n,
{
    if n <= 0 {
        None
    } else {
        match queue_index(ents, n - 1) {
            Some(q) => Some(q),
            None => if ents[n - 1] is EventQueue { Some(n - 1) } else { None },
        }
    }
}

/// Whether `e` is an exit at `(x, y)`.
pub open spec fn is_exit_at(e: EntityView, x: int, y: int) -> bool {
    e matches EntityView::Exit(p, _) && p.x == x && p.y == y
}

/// Whether an exit stands at `(x, y)`.
pub open spec fn exit_at(ents: Seq<EntityView>, x: int, y: int) -> bool {
    exists|i: int| 0 <= i < ents.len() && #[trigger] is_exit_at(ents[i], x, y)
}

/// Whether entity `e` is a block that stands on an exit.
pub open spec fn reached_exit(ents: Seq<EntityView>, e: Entity) -> bool {
    &&& e < ents.len()
    &&& ents[e as int] matches EntityView::Block(b)
    &&& exit_at(ents, b.position.x as int, b.position.y as int)
}

/// The events that the first `n` moved entities give: one arrival at the exit
/// for each that is a block standing on an exit.
pub open spec fn arrivals(ents: Seq<EntityView>, moved: Seq<Entity>, n: int) -> Seq<EventView>
    decreases n,
{
    if n <= 0 {
        Seq::empty()
    } else {
        arrivals(ents, moved, n - 1) + (if reached_exit(ents, moved[n - 1]) { seq![EventView::TargetBlockReachExit] } else { Seq::empty() })
    }
}

/// The events that processing the first `n` events gives rise to.
pub open spec fn follow_up_events(ents: Seq<EntityView>, events: Seq<EventView>, n: int) -> Seq<EventView>
    decreases n,
{
    if n <= 0 {
        Seq::empty()
    } else {
        follow_up_events(ents, events, n - 1) + match events[n - 1] {
            EventView::BlockMoved(moved) => arrivals(ents, moved, moved.len() as int),
            _ => Seq::empty(),
        }
    }
}

/// The sounds of the first `n` events: an obstacle is heard as the wall
/// sound, an arrival at the exit as the win sound.
pub open spec fn event_sounds(events: Seq<EventView>, n: int) -> Seq<Sound>
    decreases n,
{
    if n <= 0 {
        Seq::empty()
    } else {
        event_sounds(events, n - 1) + match events[n - 1] {
            EventView::BlockHitObstacle => seq![Sound::Wall],
            EventView::TargetBlockReachExit => seq![Sound::Win],
            EventView::BlockMoved(_) => Seq::empty(),
        }
    }
}

proof fn lemma_queue_index_bound(ents: Seq<EntityView>, n: int)
    requires
        n <= ents.len(),
    ensures
        queue_index(ents, n) matches Some(q) ==> 0 <= q < n && ents[q] is EventQueue,
        queue_index(ents, n) is None ==> forall|i: int| 0 <= i < n ==> !(#[trigger] ents[i] is EventQueue),
    decreases n,
{
    if n > 0 {
        lemma_queue_index_bound(ents, n - 1);
    }
}

fn exit_at_exec(world: &World, x: u8, y: u8) -> (r: bool)
    ensures
        r == exit_at(world@, x as int, y as int),
{
    let n = world.entities.len();
    for i in 0..n
        invariant
            n == world@.len(),
            forall|j: int| 0 <= j < i ==> !#[trigger] is_exit_at(world@[j], x as int, y as int),
    {
        assert(world@[i as int] == world.entities@[i as int]@);
        match &world.entities[i] {
            EntityRecord::Exit { position, renderable: _ } => {
                if position.x == x && position.y == y {
                    assert(is_exit_at(world@[i as int], x as int, y as int));
                    return true;
                }
            },
            _ => {},
        }
    }
    false
}

fn reached_exit_exec(world: &World, e: Entity) -> (r: bool)
    ensures
        r == reached_exit(world@, e),
{
    if e >= world.entities.len() {
        return false;
    }
    assert(world@[e as int] == world.entities@[e as int]@);
    match &world.entities[e] {
        EntityRecord::Block(b) => exit_at_exec(world, b.position.x, b.position.y),
        _ => false,
    }
}

fn is_queue_at(world: &World, q: usize) -> (r: bool)
    requires
        q < world@.len(),
    ensures
        r == world@[q as int] is EventQueue,
{
    assert(world@[q as int] == world.entities@[q as int]@);
    match &world.entities[q] {
        EntityRecord::EventQueue(_) => true,
        _ => false,
    }
}

/// Whether the level holds an event queue.
pub fn has_event_queue(world: &World) -> (ok: bool)
    ensures
        ok == queue_index(world@, world@.len() as int) is Some,
{
    let n = world.entities.len();
    proof {
        lemma_queue_index_bound(world@, n as int);
    }
    for q in 0..n
        invariant
            n == world@.len(),
            forall|i: int| 0 <= i < q ==> !(#[trigger] world@[i] is EventQueue),
    {
        if is_queue_at(world, q) {
            proof {
                lemma_first_queue(world@, q as int, n as int);
            }
            return true;
        }
    }
    proof {
        lemma_queue_index_bound(world@, n as int);
        if queue_index(world@, n as int) is Some {
            let qi = queue_index(world@, n as int)->0;
            assert(world@[qi] is EventQueue);
        }
    }
    false
}

/// Takes the events out of the event queue at `q`, leaving it empty.
fn take_events(world: &mut World, q: usize) -> (events: Vec<Event>)
    requires
        q < old(world)@.len(),
        old(world)@[q as int] is EventQueue,
    ensures
        events@.map_values(|e: Event| e@) == old(world)@[q as int]->EventQueue_0,
        final(world)@ == old(world)@.update(q as int, EntityView::EventQueue(Seq::empty())),
{
    let ghost before = world@;
    let record = world.entities.remove(q);
    assert(record@ == before[q as int]);
    let events = match record {
        EntityRecord::EventQueue(queue) => queue.events,
        _ => Vec::new(),
    };
    let empty = EventQueue::new();
    assert(empty.events@.map_values(|e: Event| e@) =~= Seq::<EventView>::empty());
    world.entities.insert(q, EntityRecord::EventQueue(empty));
    assert(world@ =~= before.update(q as int, EntityView::EventQueue(Seq::empty())));
    events
}

/// Puts `events` into the event queue at `q`.
fn put_events(world: &mut World, q: usize, events: Vec<Event>)
    requires
        q < old(world)@.len(),
        old(world)@[q as int] is EventQueue,
    ensures
        final(world)@ == old(world)@.update(q as int, EntityView::EventQueue(events@.map_values(|e: Event| e@))),
{
    let ghost before = world@;
    let _record = world.entities.remove(q);
    world.entities.insert(q, EntityRecord::EventQueue(EventQueue { events }));
    assert(world@ =~= before.update(q as int, EntityView::EventQueue(events@.map_values(|e: Event| e@))));
}

/// Processes the events of the first event queue: each block that moved onto
/// an exit gives an arrival at the exit, which waits in the queue for the next
/// round; the queue then holds just these new events. Returns the sounds of
/// the processed events, in order.
pub fn run_process_events(world: &mut World) -> (sounds: Vec<Sound>)
    requires
        queue_index(old(world)@, old(world)@.len() as int) is Some,
    ensures
        ({
            let q = queue_index(old(world)@, old(world)@.len() as int)->0;
            let events = old(world)@[q]->EventQueue_0;
            let emptied = old(world)@.update(q, EntityView::EventQueue(Seq::empty()));
            &&& final(world)@ == old(world)@.update(q, EntityView::EventQueue(follow_up_events(emptied, events, events.len() as int)))
            &&& sounds@ == event_sounds(events, events.len() as int)
        }),
{
    let n = world.entities.len();
    let mut q: usize = 0;
    proof {
        lemma_queue_index_bound(world@, n as int);
    }
    while q < n && !is_queue_at(world, q)
        invariant
            n == world@.len(),
            q <= n,
            queue_index(world@, n as int) is Some,
            forall|i: int| 0 <= i < q ==> !(#[trigger] world@[i] is EventQueue),
        decreases n - q,
    {
        q = q + 1;
    }
    proof {
        lemma_queue_index_bound(world@, n as int);
        let qi = queue_index(world@, n as int)->0;
        if q == n {
            assert(world@[qi] is EventQueue);
        }
        lemma_first_queue(world@, q as int, n as int);
    }
    let ghost before = world@;
    let events = take_events(world, q);
    let ghost ev = events@.map_values(|e: Event| e@);
    let ghost emptied = world@;
    let mut new_events: Vec<Event> = Vec::new();
    let mut sounds: Vec<Sound> = Vec::new();
    let ne = events.len();
    for i in 0..ne
        invariant
            ne == events@.len(),
            world@ == emptied,
            ev == events@.map_values(|e: Event| e@),
            new_events@.map_values(|e: Event| e@) == follow_up_events(emptied, ev, i as int),
            sounds@ == event_sounds(ev, i as int),
    {
        assert(ev[i as int] == events@[i as int]@);
        match &events[i] {
            Event::BlockHitObstacle => {
                sounds.push(Sound::Wall);
                assert(new_events@.map_values(|e: Event| e@) =~= follow_up_events(emptied, ev, i + 1));
            },
            Event::BlockMoved(moved) => {
                let ghost base = new_events@.map_values(|e: Event| e@);
                let m = moved.entities.len();
                for j in 0..m
                    invariant
                        m == moved.entities@.len(),
                        world@ == emptied,
                        new_events@.map_values(|e: Event| e@) == base + arrivals(emptied, moved.entities@, j as int),
                {
                    let ghost prev = new_events@;
                    if reached_exit_exec(world, moved.entities[j]) {
                        new_events.push(Event::TargetBlockReachExit);
                        assert(new_events@.map_values(|e: Event| e@) =~= prev.map_values(|e: Event| e@).push(EventView::TargetBlockReachExit));
                    }
                    assert(new_events@.map_values(|e: Event| e@) =~= base + arrivals(emptied, moved.entities@, j + 1));
                }
                assert(sounds@ =~= event_sounds(ev, i + 1));
            },
            Event::TargetBlockReachExit => {
                sounds.push(Sound::Win);
                assert(new_events@.map_values(|e: Event| e@) =~= follow_up_events(emptied, ev, i + 1));
            },
        }
    }
    put_events(world, q, new_events);
    assert(world@ =~= before.update(q as int, EntityView::EventQueue(follow_up_events(emptied, ev, ev.len() as int))));
    sounds
}

proof fn lemma_first_queue(ents: Seq<EntityView>, q: int, n: int)
    requires
        0 <= q < n <= ents.len(),
        ents[q] is EventQueue,
        forall|i: int| 0 <= i < q ==> !(#[trigger] ents[i] is EventQueue),
    ensures
        queue_index(ents, n) == Some(q),
    decreases n,
{
    if n - 1 > q {
        lemma_first_queue(ents, q, n - 1);
    } else {
        lemma_queue_index_bound(ents, q);
    }
}


/// A moved entity gives an arrival at the exit exactly when it is a block and
/// some exit stands on its cell, at its column and its row both: the arrivals
/// of the first `n + 1` moved entities are those of the first `n`, followed
/// by one arrival if the `n`-th is such a block and by nothing otherwise. In
/// particular a block whose row differs from the row of every exit, or whose
/// column differs from the column of every exit, gives none.
pub proof fn lemma_arrival_iff_on_exit(ents: Seq<EntityView>, moved: Seq<Entity>, n: int)
    requires
        0 <= n < moved.len(),
    ensures
        arrivals(ents, moved, 0) == Seq::<EventView>::empty(),
        ({
            let e = moved[n] as int;
            let on_exit = 0 <= e < ents.len() && (ents[e] is Block) && exists|i: int| 0 <= i < ents.len()
                && ((#[trigger] ents[i]) is Exit)
                && ents[i]->Exit_0.x == ents[e]->Block_0.position.x
                && ents[i]->Exit_0.y == ents[e]->Block_0.position.y;
            arrivals(ents, moved, n + 1) == arrivals(ents, moved, n) + (if on_exit {
                seq![EventView::TargetBlockReachExit]
            } else {
                Seq::empty()
            })
        }),
        ({
            let e = moved[n] as int;
            (forall|i: int| 0 <= i < ents.len() && (#[trigger] ents[i]) is Exit ==> ents[i]->Exit_0.y != ents[e]->Block_0.position.y)
                || (forall|i: int| 0 <= i < ents.len() && (#[trigger] ents[i]) is Exit ==> ents[i]->Exit_0.x != ents[e]->Block_0.position.x)
                ==> arrivals(ents, moved, n + 1) == arrivals(ents, moved, n)
        }),
{
    let e = moved[n] as int;
    if reached_exit(ents, moved[n]) {
        let i = choose|i: int| 0 <= i < ents.len() && #[trigger] is_exit_at(ents[i], ents[e]->Block_0.position.x as int, ents[e]->Block_0.position.y as int);
        assert(ents[i] is Exit);
    } else if 0 <= e < ents.len() && (ents[e] is Block) {
        assert forall|i: int| 0 <= i < ents.len() && ((#[trigger] ents[i]) is Exit) implies
            !(ents[i]->Exit_0.x == ents[e]->Block_0.position.x && ents[i]->Exit_0.y == ents[e]->Block_0.position.y) by {
            assert(!is_exit_at(ents[i], ents[e]->Block_0.position.x as int, ents[e]->Block_0.position.y as int));
        }
    }
    assert(arrivals(ents, moved, n + 1) =~= arrivals(ents, moved, n) + (if reached_exit(ents, moved[n]) {
        seq![EventView::TargetBlockReachExit]
    } else {
        Seq::empty()
    }));
}

} // verus!

use vstd::prelude::*;
use crate::components::{BlockEscapeType, BlockId, BlockType, CollisionVolume, EventQueue, Gameplay, GameplayState, PositionDuringGame, Renderable, Size, Time};
use crate::events::{Entity, EventView};

verus! {

broadcast use vstd::string::group_string_axioms;

/// The components of a block entity.
pub struct BlockEntity {
    pub position: PositionDuringGame,
    pub renderable: Renderable,
    pub block_id: BlockId,
    pub size: Size,
    pub collision_volume: CollisionVolume,
    pub escape_type: BlockEscapeType,
}

/// An entity of the level with its components. Walls and exits are
/// immovable, blocks are movable.
pub enum EntityRecord {
    Floor { position: PositionDuringGame, renderable: Renderable },
    Wall { position: PositionDuringGame, renderable: Renderable },
    Exit { position: PositionDuringGame, renderable: Renderable },
    Block(BlockEntity),
    Gameplay(Gameplay),
    Time(Time),
    EventQueue(EventQueue),
}

/// The entities of a level, in the order in which they were created; an
/// entity is known by its index.
pub struct World {
    pub entities: Vec<EntityRecord>,
}

/// What a block entity holds, with strings and vectors as sequences.
pub struct BlockView {
    pub position: PositionDuringGame,
    pub paths: Seq<Seq<char>>,
    pub block_id: Seq<char>,
    pub size: Size,
    pub occupied_cells: Seq<PositionDuringGame>,
    pub block_type: BlockType,
}

/// What an entity holds, with strings and vectors as sequences.
pub enum EntityView {
    Floor(PositionDuringGame, Seq<Seq<char>>),
    Wall(PositionDuringGame, Seq<Seq<char>>),
    Exit(PositionDuringGame, Seq<Seq<char>>),
    Block(BlockView),
    Gameplay(Gameplay),
    Time(u64),
    EventQueue(Seq<EventView>),
}

impl View for BlockEntity {
    type V = BlockView;

    open spec fn view(&self) -> BlockView {
        BlockView {
            position: self.position,
            paths: self.renderable@,
            block_id: self.block_id.block_id@,
            size: self.size,
            occupied_cells: self.collision_volume.occupied_cells@,
            block_type: self.escape_type.block_type,
        }
    }
}

impl View for EntityRecord {
    type V = EntityView;

    open spec fn view(&self) -> EntityView {
        match self {
            EntityRecord::Floor { position, renderable } => EntityView::Floor(*position, renderable@),
            EntityRecord::Wall { position, renderable } => EntityView::Wall(*position, renderable@),
            EntityRecord::Exit { position, renderable } => EntityView::Exit(*position, renderable@),
            EntityRecord::Block(b) => EntityView::Block(b@),
            EntityRecord::Gameplay(g) => EntityView::Gameplay(*g),
            EntityRecord::Time(t) => EntityView::Time(t.delta_nanos),
            EntityRecord::EventQueue(q) => EntityView::EventQueue(q.events@.map_values(|e: crate::events::Event| e@)),
        }
    }
}

impl View for World {
    type V = Seq<EntityView>;

    open spec fn view(&self) -> Seq<EntityView> {
        self.entities@.map_values(|e: EntityRecord| e@)
    }
}

/// The cells covered by a block of the given size anchored at `(x, y)`:
/// column by column from `x`, and in each column row by row upwards from `y`,
/// all on layer 10.
pub open spec fn occupied_cells_spec(x: u8, y: u8, width: u8, height: u8) -> Seq<PositionDuringGame> {
    Seq::new(
        (width * height) as nat,
        |k: int| PositionDuringGame { x: (x + k / (height as int)) as u8, y: (y + k % (height as int)) as u8, z: 10 },
    )
}

/// The block entity that `create_block` makes.
pub open spec fn block_view_spec(position: PositionDuringGame, block_id: Seq<char>, size: Option<(u8, u8, bool)>) -> BlockView {
    let (w, h, can_escape) = match size {
        Some(s) => s,
        None => (0u8, 0u8, false),
    };
    BlockView {
        position: PositionDuringGame { x: position.x, y: position.y, z: 9 },
        paths: seq!["/images/"@ + block_id + ".png"@],
        block_id: block_id,
        size: Size { width: w, height: h },
        occupied_cells: occupied_cells_spec(position.x, position.y, w, h),
        block_type: if can_escape { BlockType::Special } else { BlockType::Regular },
    }
}

/// The floor entity that `create_floor` makes at `position`.
pub open spec fn floor_view(position: PositionDuringGame) -> EntityView {
    EntityView::Floor(PositionDuringGame { x: position.x, y: position.y, z: 5 }, seq!["/images/floor.png"@])
}

/// The wall entity that `create_wall` makes at `position`.
pub open spec fn wall_view(position: PositionDuringGame) -> EntityView {
    EntityView::Wall(PositionDuringGame { x: position.x, y: position.y, z: 10 }, seq!["/images/mountain.png"@])
}

/// The exit entity that `create_exit` makes at `position`.
pub open spec fn exit_view(position: PositionDuringGame) -> EntityView {
    EntityView::Exit(PositionDuringGame { x: position.x, y: position.y, z: 6 }, seq!["/images/exit.png"@])
}

/// Whether the cells of a block of the given size anchored at `position` all
/// have coordinates that fit in a byte.
pub open spec fn block_fits(position: PositionDuringGame, size: Option<(u8, u8, bool)>) -> bool {
    match size {
        Some((w, h, _)) => w > 0 && h > 0 ==> position.x + w - 1 <= u8::MAX && position.y + h - 1 <= u8::MAX,
        None => true,
    }
}

impl World {
    /// A level without entities.
    pub fn new() -> (world: Self)
        ensures
            world@.len() == 0,
    {
        World { entities: Vec::new() }
    }

    /// Adds an entity after the others and returns its index.
    fn spawn(&mut self, record: EntityRecord) -> (e: Entity)
        ensures
            e == old(self)@.len(),
            final(self)@ == old(self)@.push(record@),
    {
        let e = self.entities.len();
        self.entities.push(record);
        proof {
            assert(final(self)@ =~= old(self)@.push(record@));
        }
        e
    }
}

/// Creates a block entity at `position`, named `block_id`, with the size and
/// escape flag in `size` (an empty block that cannot escape where `size` is
/// `None`). The block is drawn at layer 9 from "/images/<block_id>.png" and
/// covers the cells of `occupied_cells_spec`.
pub fn create_block(
    world: &mut World,
    position: PositionDuringGame,
    block_id: &str,
    size: Option<(u8, u8, bool)>,
) -> (e: Entity)
    requires
        block_fits(position, size),
    ensures
        e == old(world)@.len(),
        final(world)@ == old(world)@.push(EntityView::Block(block_view_spec(position, block_id@, size))),
{
    let (width, height, can_escape) = match size {
        Some((w, h, c)) => (w, h, c),
        None => (0u8, 0u8, false),
    };
    let ghost cells = occupied_cells_spec(position.x, position.y, width, height);
    let mut occupied_cells: Vec<PositionDuringGame> = Vec::new();
    assert(0 * height == 0);
    for i in 0..width
        invariant
            block_fits(position, size),
            size matches Some(s) ==> s == (width, height, can_escape),
            size is None ==> width == 0,
            cells == occupied_cells_spec(position.x, position.y, width, height),
            occupied_cells@.len() == i * height,
            forall|k: int| 0 <= k < i * height ==> #[trigger] occupied_cells@[k] == cells[k],
    {
        for j in 0..height
            invariant
                block_fits(position, size),
                size matches Some(s) ==> s == (width, height, can_escape),
                size is None ==> width == 0,
                0 <= i < width,
                cells == occupied_cells_spec(position.x, position.y, width, height),
                occupied_cells@.len() == i * height + j,
                forall|k: int| 0 <= k < i * height + j ==> #[trigger] occupied_cells@[k] == cells[k],
        {
            assert(i * height + j < width * height) by (nonlinear_arith)
                requires i < width, j < height;
            assert(size is Some);
            assert(position.x + i <= u8::MAX && position.y + j <= u8::MAX);
            assert((i * height + j) / (height as int) == i && (i * height + j) % (height as int) == j) by (nonlinear_arith)
                requires j < height, 0 <= i;
            occupied_cells.push(PositionDuringGame { x: position.x + i, y: position.y + j, z: 10 });
        }
        assert(i * height + height == (i + 1) * height) by (nonlinear_arith);
    }
    let block_type = match can_escape {
        false => BlockType::Regular,
        true => BlockType::Special,
    };
    let mut path = "/images/".to_string();
    path.append(block_id);
    path.append(".png");
    let renderable = Renderable::new_static(path.as_str());
    let block = BlockEntity {
        position: PositionDuringGame { x: position.x, y: position.y, z: 9 },
        renderable,
        block_id: BlockId { block_id: block_id.to_string() },
        size: Size { width, height },
        collision_volume: CollisionVolume { occupied_cells },
        escape_type: BlockEscapeType { block_type },
    };
    proof {
        assert(occupied_cells@ =~= cells);
        assert(block@ == block_view_spec(position, block_id@, size));
    }
    world.spawn(EntityRecord::Block(block))
}

/// Creates an exit entity at `position`, drawn at layer 6.
pub fn create_exit(world: &mut World, position: PositionDuringGame) -> (e: Entity)
    ensures
        e == old(world)@.len(),
        final(world)@ == old(world)@.push(exit_view(position)),
{
    let renderable = Renderable::new_static("/images/exit.png");
    world.spawn(EntityRecord::Exit { position: PositionDuringGame { x: position.x, y: position.y, z: 6 }, renderable })
}

/// Creates a wall entity at `position`, drawn at layer 10.
pub fn create_wall(world: &mut World, position: PositionDuringGame) -> (e: Entity)
    ensures
        e == old(world)@.len(),
        final(world)@ == old(world)@.push(wall_view(position)),
{
    let renderable = Renderable::new_static("/images/mountain.png");
    world.spawn(EntityRecord::Wall { position: PositionDuringGame { x: position.x, y: position.y, z: 10 }, renderable })
}

/// Creates a floor entity at `position`, drawn at layer 5.
pub fn create_floor(world: &mut World, position: PositionDuringGame) -> (e: Entity)
    ensures
        e == old(world)@.len(),
        final(world)@ == old(world)@.push(floor_view(position)),
{
    let renderable = Renderable::new_static("/images/floor.png");
    world.spawn(EntityRecord::Floor { position: PositionDuringGame { x: position.x, y: position.y, z: 5 }, renderable })
}

/// Creates the entity that holds the state of play, at its default.
pub fn create_gameplay(world: &mut World) -> (e: Entity)
    ensures
        e == old(world)@.len(),
        final(world)@ == old(world)@.push(EntityView::Gameplay(Gameplay { state: GameplayState::Playing, moves_count: 0 })),
{
    world.spawn(EntityRecord::Gameplay(Gameplay::default()))
}

/// Creates the entity that holds the frame time, with no time passed.
pub fn create_time(world: &mut World) -> (e: Entity)
    ensures
        e == old(world)@.len(),
        final(world)@ == old(world)@.push(EntityView::Time(0)),
{
    world.spawn(EntityRecord::Time(Time::new()))
}

/// Creates the entity that holds the event queue, empty.
pub fn create_event_queue(world: &mut World) -> (e: Entity)
    ensures
        e == old(world)@.len(),
        final(world)@ == old(world)@.push(EntityView::EventQueue(Seq::empty())),
{
    let q = EventQueue::new();
    proof {
        assert(q.events@.map_values(|e: crate::events::Event| e@) =~= Seq::<EventView>::empty());
    }
    world.spawn(EntityRecord::EventQueue(q))
}

} // verus!

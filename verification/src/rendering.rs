use vstd::prelude::*;
use crate::components::PositionDuringGame;
use crate::constants::Direction;
use crate::entity::{BlockView, EntityRecord, EntityView, World};
use crate::events::Entity;

verus! {

broadcast use vstd::string::group_string_axioms;

/// The name of the block the player has selected; empty while none is.
pub struct SelectedBlock {
    pub block_id: String,
}

impl SelectedBlock {
    /// Nothing selected yet.
    pub fn new() -> (s: Self)
        ensures
            s.block_id@.len() == 0,
    {
        SelectedBlock { block_id: String::new() }
    }
}

/// Records `id` as the selected block.
pub fn set_selected_block_id(selected: &mut SelectedBlock, id: String)
    ensures
        final(selected).block_id@ == id@,
{
    selected.block_id = id;
}

/// The name of the selected block.
pub fn get_selected_block_id(selected: &SelectedBlock) -> (id: String)
    ensures
        id@ == selected.block_id@,
{
    selected.block_id.clone()
}

/// The selection after the number keys: a selection, once made, is kept;
/// otherwise block "0", "1" or "2" is selected by the first of its keys that
/// is down, and nothing if none is.
pub open spec fn selection_after(selected: Seq<char>, key0_just_pressed: bool, key1_pressed: bool, key2_pressed: bool) -> Seq<char> {
    if selected.len() != 0 {
        selected
    } else if key0_just_pressed {
        "0"@
    } else if key1_pressed {
        "1"@
    } else if key2_pressed {
        "2"@
    } else {
        selected
    }
}

/// Selects a block by the number keys: see `selection_after`.
pub fn select_block(selected: &mut SelectedBlock, key0_just_pressed: bool, key1_pressed: bool, key2_pressed: bool)
    ensures
        final(selected).block_id@ == selection_after(old(selected).block_id@, key0_just_pressed, key1_pressed, key2_pressed),
{
    if !get_selected_block_id(selected).as_str().is_empty() {
        return;
    }
    let selected_id = if key0_just_pressed {
        "0"
    } else if key1_pressed {
        "1"
    } else if key2_pressed {
        "2"
    } else {
        return;
    };
    set_selected_block_id(selected, selected_id.to_string());
}

/// The state of the arrow keys in one frame.
#[derive(Clone, Copy, PartialEq, Eq, Structural, Debug)]
pub struct KeyInput {
    /// A key is held down and repeating.
    pub repeated: bool,
    pub up: bool,
    pub down: bool,
    pub left: bool,
    pub right: bool,
}

/// The direction of the first arrow key, in the order up, down, left,
/// right, that is down.
pub open spec fn chosen_direction(input: KeyInput) -> Option<Direction> {
    if input.up {
        Some(Direction::Up)
    } else if input.down {
        Some(Direction::Down)
    } else if input.left {
        Some(Direction::Left)
    } else if input.right {
        Some(Direction::Right)
    } else {
        None
    }
}

/// The last block entity among the first `n` whose cell is `(x, y)`.
pub open spec fn movable_at(ents: Seq<EntityView>, x: int, y: int, n: int) -> Option<int>
    decreases n,
{
    if n <= 0 {
        None
    } else if ents[n - 1] matches EntityView::Block(b) && b.position.x == x && b.position.y == y {
        Some(n - 1)
    } else {
        movable_at(ents, x, y, n - 1)
    }
}

/// Whether `e` is a wall or an exit at `(x, y)`.
pub open spec fn is_immovable_at(e: EntityView, x: int, y: int) -> bool {
    match e {
        EntityView::Wall(p, _) => p.x == x && p.y == y,
        EntityView::Exit(p, _) => p.x == x && p.y == y,
        _ => false,
    }
}

/// Whether a wall or an exit stands at `(x, y)`.
pub open spec fn immovable_at(ents: Seq<EntityView>, x: int, y: int) -> bool {
    exists|i: int| 0 <= i < ents.len() && #[trigger] is_immovable_at(ents[i], x, y)
}

/// The first and last coordinate that a push from `p` towards `d` looks at,
/// and whether that coordinate is a column (else a row). Upwards and to the
/// left the scan runs to 0; downwards and to the right to the last row
/// `map_height - 1` or column `map_width - 1`.
pub open spec fn scan_bounds(p: PositionDuringGame, d: Direction, map_width: u8, map_height: u8) -> (int, int, bool) {
    match d {
        Direction::Up => (p.y as int, 0, false),
        Direction::Down => (p.y as int, map_height - 1, false),
        Direction::Left => (p.x as int, 0, true),
        Direction::Right => (p.x as int, map_width - 1, true),
    }
}

/// The number of cells from `start` to `end`, both included.
pub open spec fn scan_len(start: int, end: int) -> int {
    if start < end { end - start + 1 } else { start - end + 1 }
}

/// The `k`-th coordinate from `start` towards `end`.
pub open spec fn scan_value(start: int, end: int, k: int) -> int {
    if start < end { start + k } else { start - k }
}

/// The `k`-th cell that a push from `p` towards `d` looks at.
pub open spec fn scan_cell(p: PositionDuringGame, d: Direction, map_width: u8, map_height: u8, k: int) -> (int, int) {
    let (start, end, is_x) = scan_bounds(p, d, map_width, map_height);
    let v = scan_value(start, end, k);
    if is_x { (v, p.y as int) } else { (p.x as int, v) }
}

/// The moves planned by a push from `p` towards `d`, from the `k`-th cell on,
/// given the moves `acc` planned so far: each block met is pushed along; a
/// wall or an exit stops the push and cancels every move planned so far; an
/// empty cell ends the push.
pub open spec fn push_chain(
    ents: Seq<EntityView>,
    acc: Seq<(Entity, Direction)>,
    p: PositionDuringGame,
    d: Direction,
    map_width: u8,
    map_height: u8,
    k: int,
) -> Seq<(Entity, Direction)>
    decreases ({ let (s, e, x) = scan_bounds(p, d, map_width, map_height); scan_len(s, e) }) - k,
{
    let (start, end, is_x) = scan_bounds(p, d, map_width, map_height);
    if k < 0 || k >= scan_len(start, end) {
        acc
    } else {
        let (cx, cy) = scan_cell(p, d, map_width, map_height, k);
        match movable_at(ents, cx, cy, ents.len() as int) {
            Some(e) => push_chain(ents, acc.push((e as Entity, d)), p, d, map_width, map_height, k + 1),
            None => if immovable_at(ents, cx, cy) {
                Seq::empty()
            } else {
                acc
            },
        }
    }
}

/// Whether `e` is a block named `selected`.
pub open spec fn is_selected_block(e: EntityView, selected: Seq<char>) -> bool {
    e matches EntityView::Block(b) && b.block_id == selected
}

/// The moves planned for the first `n` entities: a push from every selected
/// block, in entity order, towards the direction of the keys; no push while
/// a key repeats or no arrow key is down.
pub open spec fn plan_moves_spec(
    ents: Seq<EntityView>,
    selected: Seq<char>,
    map_width: u8,
    map_height: u8,
    input: KeyInput,
    n: int,
) -> Seq<(Entity, Direction)>
    decreases n,
{
    if n <= 0 {
        Seq::empty()
    } else {
        let acc = plan_moves_spec(ents, selected, map_width, map_height, input, n - 1);
        if is_selected_block(ents[n - 1], selected) && !input.repeated && chosen_direction(input) is Some {
            push_chain(ents, acc, ents[n - 1]->Block_0.position, chosen_direction(input)->0, map_width, map_height, 0)
        } else {
            acc
        }
    }
}

/// A push downwards needs a map with a row and a push to the right a map
/// with a column, when a selected block is pushed.
pub open spec fn plan_computable(ents: Seq<EntityView>, selected: Seq<char>, map_width: u8, map_height: u8, input: KeyInput) -> bool {
    (exists|i: int| 0 <= i < ents.len() && #[trigger] is_selected_block(ents[i], selected)) && !input.repeated ==> {
        &&& chosen_direction(input) == Some(Direction::Down) ==> map_height >= 1
        &&& chosen_direction(input) == Some(Direction::Right) ==> map_width >= 1
    }
}

fn movable_at_exec(world: &World, x: u8, y: u8) -> (r: Option<Entity>)
    ensures
        match r {
            Some(e) => movable_at(world@, x as int, y as int, world@.len() as int) == Some(e as int),
            None => movable_at(world@, x as int, y as int, world@.len() as int) is None,
        },
{
    let n = world.entities.len();
    let mut r: Option<Entity> = None;
    for i in 0..n
        invariant
            n == world@.len(),
            match r {
                Some(e) => movable_at(world@, x as int, y as int, i as int) == Some(e as int),
                None => movable_at(world@, x as int, y as int, i as int) is None,
            },
    {
        assert(world@[i as int] == world.entities@[i as int]@);
        match &world.entities[i] {
            EntityRecord::Block(b) => {
                if b.position.x == x && b.position.y == y {
                    r = Some(i);
                }
            },
            _ => {},
        }
    }
    r
}

fn immovable_at_exec(world: &World, x: u8, y: u8) -> (r: bool)
    ensures
        r == immovable_at(world@, x as int, y as int),
{
    let n = world.entities.len();
    for i in 0..n
        invariant
            n == world@.len(),
            forall|j: int| 0 <= j < i ==> !#[trigger] is_immovable_at(world@[j], x as int, y as int),
    {
        assert(world@[i as int] == world.entities@[i as int]@);
        let found = match &world.entities[i] {
            EntityRecord::Wall { position, renderable: _ } => position.x == x && position.y == y,
            EntityRecord::Exit { position, renderable: _ } => position.x == x && position.y == y,
            _ => false,
        };
        if found {
            assert(is_immovable_at(world@[i as int], x as int, y as int));
            return true;
        }
    }
    false
}

/// Plans the moves of a push from `p` towards `d`, on top of `to_move`.
fn push_from(
    world: &World,
    to_move: &mut Vec<(Entity, Direction)>,
    p: PositionDuringGame,
    d: Direction,
    map_width: u8,
    map_height: u8,
)
    requires
        d == Direction::Down ==> map_height >= 1,
        d == Direction::Right ==> map_width >= 1,
    ensures
        final(to_move)@ == push_chain(world@, old(to_move)@, p, d, map_width, map_height, 0),
{
    let (start, end, is_x): (u8, u8, bool) = match d {
        Direction::Up => (p.y, 0, false),
        Direction::Down => (p.y, map_height - 1, false),
        Direction::Left => (p.x, 0, true),
        Direction::Right => (p.x, map_width - 1, true),
    };
    let ghost target = push_chain(world@, to_move@, p, d, map_width, map_height, 0);
    let count: usize = if start < end { (end - start) as usize + 1 } else { (start - end) as usize + 1 };
    assert(count == scan_len(start as int, end as int));
    let mut k: usize = 0;
    while k < count
        invariant
            count == scan_len(start as int, end as int),
            (start as int, end as int, is_x) == scan_bounds(p, d, map_width, map_height),
            k <= count,
            push_chain(world@, to_move@, p, d, map_width, map_height, k as int) == target,
            target == push_chain(world@, old(to_move)@, p, d, map_width, map_height, 0),
        decreases count - k,
    {
        let v: u8 = if start < end { start + k as u8 } else { start - k as u8 };
        assert(v == scan_value(start as int, end as int, k as int));
        let (cx, cy): (u8, u8) = if is_x { (v, p.y) } else { (p.x, v) };
        assert((cx as int, cy as int) == scan_cell(p, d, map_width, map_height, k as int));
        match movable_at_exec(world, cx, cy) {
            Some(e) => {
                to_move.push((e, d));
            },
            None => {
                if immovable_at_exec(world, cx, cy) {
                    to_move.clear();
                    return;
                } else {
                    assert(push_chain(world@, to_move@, p, d, map_width, map_height, k as int) == to_move@);
                    return;
                }
            },
        }
        k = k + 1;
    }
}

/// The moves that the arrow keys make from the selected block: see
/// `plan_moves_spec`.
pub fn plan_moves(world: &World, selected: &SelectedBlock, map_width: u8, map_height: u8, input: KeyInput) -> (plan: Vec<(Entity, Direction)>)
    requires
        plan_computable(world@, selected.block_id@, map_width, map_height, input),
    ensures
        plan@ == plan_moves_spec(world@, selected.block_id@, map_width, map_height, input, world@.len() as int),
{
    let mut to_move: Vec<(Entity, Direction)> = Vec::new();
    let n = world.entities.len();
    for i in 0..n
        invariant
            n == world@.len(),
            plan_computable(world@, selected.block_id@, map_width, map_height, input),
            to_move@ == plan_moves_spec(world@, selected.block_id@, map_width, map_height, input, i as int),
    {
        assert(world@[i as int] == world.entities@[i as int]@);
        match &world.entities[i] {
            EntityRecord::Block(b) => {
                if b.block_id.block_id == selected.block_id && !input.repeated {
                    assert(is_selected_block(world@[i as int], selected.block_id@));
                    let key = if input.up {
                        Some(Direction::Up)
                    } else if input.down {
                        Some(Direction::Down)
                    } else if input.left {
                        Some(Direction::Left)
                    } else if input.right {
                        Some(Direction::Right)
                    } else {
                        None
                    };
                    match key {
                        Some(d) => {
                            push_from(world, &mut to_move, b.position, d, map_width, map_height);
                        },
                        None => {},
                    }
                }
            },
            _ => {},
        }
    }
    to_move
}

/// Whether a push towards `d` keeps the coordinate of `p` within a byte.
pub open spec fn move_fits(p: PositionDuringGame, d: Direction) -> bool {
    match d {
        Direction::Up => p.y >= 1,
        Direction::Down => p.y < u8::MAX,
        Direction::Left => p.x >= 1,
        Direction::Right => p.x < u8::MAX,
    }
}

/// `p` one cell further towards `d`: up lowers the row, down raises it, left
/// lowers the column, right raises it.
pub open spec fn shifted(p: PositionDuringGame, d: Direction) -> PositionDuringGame {
    match d {
        Direction::Up => PositionDuringGame { x: p.x, y: (p.y - 1) as u8, z: p.z },
        Direction::Down => PositionDuringGame { x: p.x, y: (p.y + 1) as u8, z: p.z },
        Direction::Left => PositionDuringGame { x: (p.x - 1) as u8, y: p.y, z: p.z },
        Direction::Right => PositionDuringGame { x: (p.x + 1) as u8, y: p.y, z: p.z },
    }
}

/// The block view `b` at position `p`.
pub open spec fn block_at(b: BlockView, p: PositionDuringGame) -> BlockView {
    BlockView {
        position: p,
        paths: b.paths,
        block_id: b.block_id,
        size: b.size,
        occupied_cells: b.occupied_cells,
        block_type: b.block_type,
    }
}

/// The entities after block `e` moved one cell towards `d`.
pub open spec fn move_entity(ents: Seq<EntityView>, e: Entity, d: Direction) -> Seq<EntityView> {
    if e < ents.len() && ents[e as int] is Block {
        let b = ents[e as int]->Block_0;
        ents.update(e as int, EntityView::Block(block_at(b, shifted(b.position, d))))
    } else {
        ents
    }
}

/// The entities after the moves of `plan`, one after the other.
pub open spec fn apply_moves_spec(ents: Seq<EntityView>, plan: Seq<(Entity, Direction)>) -> Seq<EntityView>
    decreases plan.len(),
{
    if plan.len() == 0 {
        ents
    } else {
        apply_moves_spec(move_entity(ents, plan[0].0, plan[0].1), plan.drop_first())
    }
}

/// Whether every move of `plan`, made one after the other, keeps its block's
/// coordinates within a byte.
pub open spec fn moves_fit(ents: Seq<EntityView>, plan: Seq<(Entity, Direction)>) -> bool
    decreases plan.len(),
{
    if plan.len() == 0 {
        true
    } else {
        &&& (plan[0].0 < ents.len() && ents[plan[0].0 as int] is Block ==> move_fits(ents[plan[0].0 as int]->Block_0.position, plan[0].1))
        &&& moves_fit(move_entity(ents, plan[0].0, plan[0].1), plan.drop_first())
    }
}

/// Whether every move of `plan` is that of a block.
pub open spec fn plan_targets_blocks(ents: Seq<EntityView>, plan: Seq<(Entity, Direction)>) -> bool {
    forall|i: int| 0 <= i < plan.len() ==> #[trigger] plan[i].0 < ents.len() && ents[plan[i].0 as int] is Block
}

proof fn lemma_move_keeps_blocks(ents: Seq<EntityView>, e: Entity, d: Direction, plan: Seq<(Entity, Direction)>)
    requires
        plan_targets_blocks(ents, plan),
    ensures
        plan_targets_blocks(move_entity(ents, e, d), plan),
        move_entity(ents, e, d).len() == ents.len(),
{
    let m = move_entity(ents, e, d);
    assert forall|i: int| 0 <= i < plan.len() implies #[trigger] plan[i].0 < m.len() && m[plan[i].0 as int] is Block by {
        assert(plan[i].0 < ents.len() && ents[plan[i].0 as int] is Block);
    }
}

/// Moves each block of `plan`, in order, one cell towards its direction.
pub fn apply_moves(world: &mut World, plan: &Vec<(Entity, Direction)>)
    requires
        plan_targets_blocks(old(world)@, plan@),
        moves_fit(old(world)@, plan@),
    ensures
        final(world)@ == apply_moves_spec(old(world)@, plan@),
{
    let n = plan.len();
    assert(plan@.skip(0) =~= plan@);
    for i in 0..n
        invariant
            n == plan@.len(),
            plan_targets_blocks(world@, plan@),
            moves_fit(world@, plan@.skip(i as int)),
            apply_moves_spec(world@, plan@.skip(i as int)) == apply_moves_spec(old(world)@, plan@),
    {
        let (e, d) = plan[i];
        let ghost before = world@;
        assert(plan@.skip(i as int)[0] == plan@[i as int]);
        assert(plan@.skip(i as int).drop_first() =~= plan@.skip(i + 1));
        assert(plan@[i as int].0 < world@.len() && world@[e as int] is Block);
        let record = world.entities.remove(e);
        assert(record@ == before[e as int]);
        let moved = match record {
            EntityRecord::Block(mut b) => {
                match d {
                    Direction::Up => { b.position.y = b.position.y - 1; },
                    Direction::Down => { b.position.y = b.position.y + 1; },
                    Direction::Left => { b.position.x = b.position.x - 1; },
                    Direction::Right => { b.position.x = b.position.x + 1; },
                }
                EntityRecord::Block(b)
            },
            other => other,
        };
        world.entities.insert(e, moved);
        proof {
            assert(world@ =~= move_entity(before, e, d));
            lemma_move_keeps_blocks(before, e, d, plan@);
        }
    }
    proof {
        assert(plan@.skip(n as int) =~= Seq::<(Entity, Direction)>::empty());
    }
}

/// Pushes the selected block with the arrow keys: the moves of `plan_moves`,
/// made one after the other.
pub fn move_block(world: &mut World, selected: &SelectedBlock, map_width: u8, map_height: u8, input: KeyInput)
    requires
        plan_computable(old(world)@, selected.block_id@, map_width, map_height, input),
        moves_fit(old(world)@, plan_moves_spec(old(world)@, selected.block_id@, map_width, map_height, input, old(world)@.len() as int)),
    ensures
        final(world)@ == apply_moves_spec(
            old(world)@,
            plan_moves_spec(old(world)@, selected.block_id@, map_width, map_height, input, old(world)@.len() as int),
        ),
{
    let to_move = plan_moves(world, selected, map_width, map_height, input);
    assert(world@.len() == world.entities.len());
    proof {
        lemma_plan_targets_blocks(world@, selected.block_id@, map_width, map_height, input, world@.len() as int);
    }
    apply_moves(world, &to_move);
}

proof fn lemma_push_chain_targets_blocks(
    ents: Seq<EntityView>,
    acc: Seq<(Entity, Direction)>,
    p: PositionDuringGame,
    d: Direction,
    map_width: u8,
    map_height: u8,
    k: int,
)
    requires
        plan_targets_blocks(ents, acc),
        ents.len() <= usize::MAX,
    ensures
        plan_targets_blocks(ents, push_chain(ents, acc, p, d, map_width, map_height, k)),
    decreases ({ let (s, e, x) = scan_bounds(p, d, map_width, map_height); scan_len(s, e) }) - k,
{
    let (start, end, is_x) = scan_bounds(p, d, map_width, map_height);
    if k < 0 || k >= scan_len(start, end) {
    } else {
        let (cx, cy) = scan_cell(p, d, map_width, map_height, k);
        match movable_at(ents, cx, cy, ents.len() as int) {
            Some(e) => {
                lemma_movable_at_is_block(ents, cx, cy, ents.len() as int);
                let acc2 = acc.push((e as Entity, d));
                assert forall|i: int| 0 <= i < acc2.len() implies #[trigger] acc2[i].0 < ents.len() && ents[acc2[i].0 as int] is Block by {
                    if i < acc.len() {
                        assert(acc2[i] == acc[i]);
                    }
                }
                lemma_push_chain_targets_blocks(ents, acc2, p, d, map_width, map_height, k + 1);
            },
            None => {},
        }
    }
}

proof fn lemma_movable_at_is_block(ents: Seq<EntityView>, x: int, y: int, n: int)
    requires
        n <= ents.len(),
    ensures
        movable_at(ents, x, y, n) matches Some(e) ==> 0 <= e < n && ents[e] is Block,
    decreases n,
{
    if n > 0 {
        lemma_movable_at_is_block(ents, x, y, n - 1);
    }
}

proof fn lemma_plan_targets_blocks(ents: Seq<EntityView>, selected: Seq<char>, map_width: u8, map_height: u8, input: KeyInput, n: int)
    requires
        n <= ents.len(),
        ents.len() <= usize::MAX,
    ensures
        plan_targets_blocks(ents, plan_moves_spec(ents, selected, map_width, map_height, input, n)),
    decreases n,
{
    if n > 0 {
        lemma_plan_targets_blocks(ents, selected, map_width, map_height, input, n - 1);
        let acc = plan_moves_spec(ents, selected, map_width, map_height, input, n - 1);
        if is_selected_block(ents[n - 1], selected) && !input.repeated && chosen_direction(input) is Some {
            lemma_push_chain_targets_blocks(ents, acc, ents[n - 1]->Block_0.position, chosen_direction(input)->0, map_width, map_height, 0);
        }
    }
}

/// Once a block is selected, no key changes the selection: selecting again,
/// with any keys, keeps it.
pub proof fn lemma_selection_kept(selected: Seq<char>, a0: bool, a1: bool, a2: bool, b0: bool, b1: bool, b2: bool)
    requires
        selection_after(selected, a0, a1, a2).len() != 0,
    ensures
        selection_after(selection_after(selected, a0, a1, a2), b0, b1, b2) == selection_after(selected, a0, a1, a2),
{
}

/// Starting from no selection, the selection is always empty or one of the
/// blocks "0", "1", "2".
pub proof fn lemma_selection_values(selected: Seq<char>, k0: bool, k1: bool, k2: bool)
    requires
        selected.len() == 0,
    ensures
        ({
            let s = selection_after(selected, k0, k1, k2);
            s.len() == 0 || s == "0"@ || s == "1"@ || s == "2"@
        }),
{
}

/// No move is planned while a key repeats, while no arrow key is down, or
/// while no block is selected.
pub proof fn lemma_no_push_no_moves(
    ents: Seq<EntityView>,
    selected: Seq<char>,
    map_width: u8,
    map_height: u8,
    input: KeyInput,
    n: int,
)
    requires
        input.repeated || chosen_direction(input) is None
            || forall|i: int| 0 <= i < n ==> !#[trigger] is_selected_block(ents[i], selected),
    ensures
        plan_moves_spec(ents, selected, map_width, map_height, input, n) == Seq::<(Entity, Direction)>::empty(),
    decreases n,
{
    if n > 0 {
        lemma_no_push_no_moves(ents, selected, map_width, map_height, input, n - 1);
    }
}

/// Moving blocks changes nothing but the positions of blocks: every other
/// entity stays as it is, and a block keeps its name, size, cells, image and
/// escape type.
pub proof fn lemma_moves_only_shift_blocks(ents: Seq<EntityView>, plan: Seq<(Entity, Direction)>)
    ensures
        apply_moves_spec(ents, plan).len() == ents.len(),
        forall|i: int| 0 <= i < ents.len() && !(ents[i] is Block) ==> #[trigger] apply_moves_spec(ents, plan)[i] == ents[i],
        forall|i: int| 0 <= i < ents.len() && ents[i] is Block ==> {
            &&& (#[trigger] apply_moves_spec(ents, plan)[i]) is Block
            &&& apply_moves_spec(ents, plan)[i]->Block_0 == block_at(ents[i]->Block_0, apply_moves_spec(ents, plan)[i]->Block_0.position)
        },
    decreases plan.len(),
{
    if plan.len() > 0 {
        let m = move_entity(ents, plan[0].0, plan[0].1);
        lemma_moves_only_shift_blocks(m, plan.drop_first());
        assert forall|i: int| 0 <= i < ents.len() && !(ents[i] is Block) implies #[trigger] apply_moves_spec(ents, plan)[i] == ents[i] by {
            assert(m[i] == ents[i]);
        }
        assert forall|i: int| 0 <= i < ents.len() && ents[i] is Block implies {
            &&& (#[trigger] apply_moves_spec(ents, plan)[i]) is Block
            &&& apply_moves_spec(ents, plan)[i]->Block_0 == block_at(ents[i]->Block_0, apply_moves_spec(ents, plan)[i]->Block_0.position)
        } by {
            assert(m[i] is Block);
            assert(m[i]->Block_0 == block_at(ents[i]->Block_0, m[i]->Block_0.position));
        }
    }
}

/// Whether the moves can be planned (see `plan_computable`).
pub fn plan_is_computable(world: &World, selected: &SelectedBlock, map_width: u8, map_height: u8, input: KeyInput) -> (ok: bool)
    ensures
        ok == plan_computable(world@, selected.block_id@, map_width, map_height, input),
{
    if input.repeated {
        return true;
    }
    let n = world.entities.len();
    let mut any_selected = false;
    for i in 0..n
        invariant
            n == world@.len(),
            any_selected == exists|j: int| 0 <= j < i && #[trigger] is_selected_block(world@[j], selected.block_id@),
    {
        assert(world@[i as int] == world.entities@[i as int]@);
        match &world.entities[i] {
            EntityRecord::Block(b) => {
                if b.block_id.block_id == selected.block_id {
                    any_selected = true;
                }
            },
            _ => {},
        }
        proof {
            if any_selected && !(exists|j: int| 0 <= j < i && #[trigger] is_selected_block(world@[j], selected.block_id@)) {
                assert(is_selected_block(world@[i as int], selected.block_id@));
            }
        }
    }
    if !any_selected {
        return true;
    }
    if !input.up && input.down && map_height < 1 {
        return false;
    }
    if !input.up && !input.down && !input.left && input.right && map_width < 1 {
        return false;
    }
    true
}

/// Whether `plan` moves blocks only, each within the byte range of its
/// coordinates (see `plan_targets_blocks` and `moves_fit`).
pub fn moves_fit_exec(world: &World, plan: &Vec<(Entity, Direction)>) -> (ok: bool)
    ensures
        ok == (plan_targets_blocks(world@, plan@) && moves_fit(world@, plan@)),
{
    let n = world.entities.len();
    let m = plan.len();
    // The positions of the entities that are blocks, as they move.
    let mut positions: Vec<Option<PositionDuringGame>> = Vec::new();
    for i in 0..n
        invariant
            n == world@.len(),
            positions@.len() == i,
            forall|k: int| 0 <= k < i ==> #[trigger] positions@[k] == (if world@[k] is Block { Some(world@[k]->Block_0.position) } else { None::<PositionDuringGame> }),
    {
        assert(world@[i as int] == world.entities@[i as int]@);
        let p = match &world.entities[i] {
            EntityRecord::Block(b) => Some(b.position),
            _ => None,
        };
        positions.push(p);
    }
    let ghost mut cur = world@;
    assert(plan@.skip(0) =~= plan@);
    for j in 0..m
        invariant
            m == plan@.len(),
            n == world@.len(),
            positions@.len() == n,
            cur.len() == n,
            forall|k: int| 0 <= k < j ==> #[trigger] plan@[k].0 < n && world@[plan@[k].0 as int] is Block,
            forall|k: int| 0 <= k < n ==> #[trigger] positions@[k] == (if cur[k] is Block { Some(cur[k]->Block_0.position) } else { None::<PositionDuringGame> }),
            forall|k: int| 0 <= k < n ==> (#[trigger] cur[k] is Block <==> world@[k] is Block),
            moves_fit(world@, plan@) <==> moves_fit(cur, plan@.skip(j as int)),
    {
        let (e, d) = plan[j];
        proof {
            assert(plan@.skip(j as int)[0] == plan@[j as int]);
            assert(plan@.skip(j as int).drop_first() =~= plan@.skip(j + 1));
        }
        if e >= n {
            assert(!(plan@[j as int].0 < world@.len()));
            return false;
        }
        let p = match positions[e] {
            Some(p) => p,
            None => {
                assert(!(world@[e as int] is Block));
                return false;
            },
        };
        let fits = match d {
            Direction::Up => p.y >= 1,
            Direction::Down => p.y < 255,
            Direction::Left => p.x >= 1,
            Direction::Right => p.x < 255,
        };
        if !fits {
            assert(!moves_fit(cur, plan@.skip(j as int)));
            return false;
        }
        let q = match d {
            Direction::Up => PositionDuringGame { x: p.x, y: p.y - 1, z: p.z },
            Direction::Down => PositionDuringGame { x: p.x, y: p.y + 1, z: p.z },
            Direction::Left => PositionDuringGame { x: p.x - 1, y: p.y, z: p.z },
            Direction::Right => PositionDuringGame { x: p.x + 1, y: p.y, z: p.z },
        };
        positions.set(e, Some(q));
        proof {
            let old_cur = cur;
            cur = move_entity(cur, e, d);
            assert(q == shifted(old_cur[e as int]->Block_0.position, d));
            assert forall|k: int| 0 <= k < n implies #[trigger] positions@[k] == (if cur[k] is Block { Some(cur[k]->Block_0.position) } else { None::<PositionDuringGame> }) by {
                if k != e {
                    assert(cur[k] == old_cur[k]);
                }
            }
            assert forall|k: int| 0 <= k < n implies (#[trigger] cur[k] is Block <==> world@[k] is Block) by {
                if k != e {
                    assert(cur[k] == old_cur[k]);
                }
            }
        }
    }
    proof {
        assert(plan@.skip(m as int) =~= Seq::<(Entity, Direction)>::empty());
    }
    true
}

/// Whether `s` is the one entity that is a block named `selected`.
pub open spec fn single_selected(ents: Seq<EntityView>, selected: Seq<char>, s: int) -> bool {
    &&& 0 <= s < ents.len()
    &&& is_selected_block(ents[s], selected)
    &&& forall|i: int| 0 <= i < ents.len() && i != s ==> !#[trigger] is_selected_block(ents[i], selected)
}

/// Whether `e` is the entity of one of the moves of `plan`.
pub open spec fn in_plan(plan: Seq<(Entity, Direction)>, e: int) -> bool {
    exists|a: int| 0 <= a < plan.len() && (#[trigger] plan[a]).0 == e
}

/// The entities after each block of `plan` moved one cell towards `d`, once.
pub open spec fn moved_once(ents: Seq<EntityView>, plan: Seq<(Entity, Direction)>, d: Direction) -> Seq<EntityView> {
    Seq::new(ents.len(), |e: int|
        if in_plan(plan, e) && ents[e] is Block {
            EntityView::Block(block_at(ents[e]->Block_0, shifted(ents[e]->Block_0.position, d)))
        } else {
            ents[e]
        })
}

/// Whether the moves of `plan` push, towards `d`, the blocks that stand on the
/// first cells of the push from `p`, one move per cell in order.
pub open spec fn chain_of_cells(
    ents: Seq<EntityView>,
    plan: Seq<(Entity, Direction)>,
    p: PositionDuringGame,
    d: Direction,
    map_width: u8,
    map_height: u8,
) -> bool {
    forall|m: int| 0 <= m < plan.len() ==> {
        &&& (#[trigger] plan[m]).1 == d
        &&& plan[m].0 < ents.len()
        &&& ents[plan[m].0 as int] is Block
        &&& (ents[plan[m].0 as int]->Block_0.position.x as int, ents[plan[m].0 as int]->Block_0.position.y as int)
            == scan_cell(p, d, map_width, map_height, m)
    }
}

proof fn lemma_movable_at_cell(ents: Seq<EntityView>, x: int, y: int, n: int)
    requires
        n <= ents.len(),
    ensures
        movable_at(ents, x, y, n) matches Some(e) ==> 0 <= e < n && ents[e] is Block
            && ents[e]->Block_0.position.x == x && ents[e]->Block_0.position.y == y,
    decreases n,
{
    if n > 0 {
        lemma_movable_at_cell(ents, x, y, n - 1);
    }
}

proof fn lemma_push_chain_cells(
    ents: Seq<EntityView>,
    acc: Seq<(Entity, Direction)>,
    p: PositionDuringGame,
    d: Direction,
    map_width: u8,
    map_height: u8,
    k: int,
)
    requires
        0 <= k,
        acc.len() == k,
        ents.len() <= usize::MAX,
        chain_of_cells(ents, acc, p, d, map_width, map_height),
    ensures
        chain_of_cells(ents, push_chain(ents, acc, p, d, map_width, map_height, k), p, d, map_width, map_height),
    decreases ({ let (s, e, x) = scan_bounds(p, d, map_width, map_height); scan_len(s, e) }) - k,
{
    let (start, end, is_x) = scan_bounds(p, d, map_width, map_height);
    if k < scan_len(start, end) {
        let (cx, cy) = scan_cell(p, d, map_width, map_height, k);
        match movable_at(ents, cx, cy, ents.len() as int) {
            Some(e) => {
                lemma_movable_at_cell(ents, cx, cy, ents.len() as int);
                let acc2 = acc.push((e as Entity, d));
                assert forall|m: int| 0 <= m < acc2.len() implies {
                    &&& (#[trigger] acc2[m]).1 == d
                    &&& acc2[m].0 < ents.len()
                    &&& ents[acc2[m].0 as int] is Block
                    &&& (ents[acc2[m].0 as int]->Block_0.position.x as int, ents[acc2[m].0 as int]->Block_0.position.y as int)
                        == scan_cell(p, d, map_width, map_height, m)
                } by {
                    if m < acc.len() {
                        assert(acc2[m] == acc[m]);
                    }
                }
                lemma_push_chain_cells(ents, acc2, p, d, map_width, map_height, k + 1);
            },
            None => {},
        }
    }
}

/// The moves of a push chain are those of different blocks.
proof fn lemma_chain_distinct(
    ents: Seq<EntityView>,
    plan: Seq<(Entity, Direction)>,
    p: PositionDuringGame,
    d: Direction,
    map_width: u8,
    map_height: u8,
)
    requires
        chain_of_cells(ents, plan, p, d, map_width, map_height),
    ensures
        forall|a: int, b: int| 0 <= a < b < plan.len() ==> (#[trigger] plan[a]).0 != (#[trigger] plan[b]).0,
{
    assert forall|a: int, b: int| 0 <= a < b < plan.len() implies (#[trigger] plan[a]).0 != (#[trigger] plan[b]).0 by {
        let ca = scan_cell(p, d, map_width, map_height, a);
        let cb = scan_cell(p, d, map_width, map_height, b);
        assert(ca != cb);
    }
}

/// The moves planned with a single selected block: none before it, and its
/// push from there on.
proof fn lemma_single_plan(
    ents: Seq<EntityView>,
    selected: Seq<char>,
    map_width: u8,
    map_height: u8,
    input: KeyInput,
    s: int,
    n: int,
)
    requires
        single_selected(ents, selected, s),
        s < n <= ents.len(),
    ensures
        plan_moves_spec(ents, selected, map_width, map_height, input, n) == (if !input.repeated && chosen_direction(input) is Some {
            push_chain(ents, Seq::empty(), ents[s]->Block_0.position, chosen_direction(input)->0, map_width, map_height, 0)
        } else {
            Seq::empty()
        }),
    decreases n,
{
    if n == s + 1 {
        lemma_no_push_no_moves(ents, selected, map_width, map_height, input, s);
    } else {
        lemma_single_plan(ents, selected, map_width, map_height, input, s, n - 1);
        assert(!is_selected_block(ents[n - 1], selected));
    }
}

/// Moves of different blocks, all towards `d`, move each of them once.
proof fn lemma_apply_distinct(ents: Seq<EntityView>, plan: Seq<(Entity, Direction)>, d: Direction)
    requires
        plan_targets_blocks(ents, plan),
        forall|a: int| 0 <= a < plan.len() ==> (#[trigger] plan[a]).1 == d,
        forall|a: int, b: int| 0 <= a < b < plan.len() ==> (#[trigger] plan[a]).0 != (#[trigger] plan[b]).0,
    ensures
        apply_moves_spec(ents, plan) == moved_once(ents, plan, d),
    decreases plan.len(),
{
    if plan.len() == 0 {
        assert(apply_moves_spec(ents, plan) =~= moved_once(ents, plan, d));
    } else {
        let e0 = plan[0].0;
        let m = move_entity(ents, e0, d);
        let rest = plan.drop_first();
        lemma_move_keeps_blocks(ents, e0, d, plan);
        assert(plan_targets_blocks(m, rest)) by {
            assert forall|i: int| 0 <= i < rest.len() implies #[trigger] rest[i].0 < m.len() && m[rest[i].0 as int] is Block by {
                assert(rest[i] == plan[i + 1]);
            }
        }
        assert forall|a: int| 0 <= a < rest.len() implies (#[trigger] rest[a]).1 == d by {
            assert(rest[a] == plan[a + 1]);
        }
        assert forall|a: int, b: int| 0 <= a < b < rest.len() implies (#[trigger] rest[a]).0 != (#[trigger] rest[b]).0 by {
            assert(rest[a] == plan[a + 1]);
            assert(rest[b] == plan[b + 1]);
        }
        lemma_apply_distinct(m, rest, d);
        assert(plan[0].0 < ents.len() && ents[e0 as int] is Block);
        assert forall|e: int| 0 <= e < ents.len() implies #[trigger] moved_once(m, rest, d)[e] == moved_once(ents, plan, d)[e] by {
            if e == e0 {
                assert(in_plan(plan, e)) by { assert(plan[0].0 == e); }
                if in_plan(rest, e) {
                    let a = choose|a: int| 0 <= a < rest.len() && (#[trigger] rest[a]).0 == e;
                    assert(rest[a] == plan[a + 1]);
                    assert(plan[0].0 != plan[a + 1].0);
                }
            } else {
                assert(m[e] == ents[e]);
                if in_plan(rest, e) {
                    let a = choose|a: int| 0 <= a < rest.len() && (#[trigger] rest[a]).0 == e;
                    assert(rest[a] == plan[a + 1]);
                    assert(in_plan(plan, e));
                }
                if in_plan(plan, e) {
                    let a = choose|a: int| 0 <= a < plan.len() && (#[trigger] plan[a]).0 == e;
                    assert(a != 0);
                    assert(rest[a - 1] == plan[a]);
                    assert(in_plan(rest, e));
                }
            }
        }
        assert(moved_once(m, rest, d) =~= moved_once(ents, plan, d));
    }
}

/// With a single block selected, a push moves each block of its chain
/// exactly once, by one cell towards the direction of the keys; nothing else
/// changes.
pub proof fn lemma_single_push_moves_once(
    ents: Seq<EntityView>,
    selected: Seq<char>,
    map_width: u8,
    map_height: u8,
    input: KeyInput,
    s: int,
)
    requires
        single_selected(ents, selected, s),
        ents.len() <= usize::MAX,
    ensures
        ({
            let plan = plan_moves_spec(ents, selected, map_width, map_height, input, ents.len() as int);
            &&& forall|a: int, b: int| 0 <= a < b < plan.len() ==> (#[trigger] plan[a]).0 != (#[trigger] plan[b]).0
            &&& forall|a: int| 0 <= a < plan.len() ==> (#[trigger] plan[a]).1 == chosen_direction(input)->0
            &&& apply_moves_spec(ents, plan) == moved_once(ents, plan, chosen_direction(input)->0)
        }),
{
    let n = ents.len() as int;
    lemma_single_plan(ents, selected, map_width, map_height, input, s, n);
    let plan = plan_moves_spec(ents, selected, map_width, map_height, input, n);
    let d = chosen_direction(input)->0;
    lemma_plan_targets_blocks(ents, selected, map_width, map_height, input, n);
    if !input.repeated && chosen_direction(input) is Some {
        let p = ents[s]->Block_0.position;
        assert(chain_of_cells(ents, Seq::empty(), p, d, map_width, map_height));
        lemma_push_chain_cells(ents, Seq::empty(), p, d, map_width, map_height, 0);
        lemma_chain_distinct(ents, plan, p, d, map_width, map_height);
    }
    lemma_apply_distinct(ents, plan, d);
}


/// The cell `m` steps from `p` towards `d`: up lowers the row, down raises
/// it, left lowers the column, right raises it.
pub open spec fn cell_toward(p: PositionDuringGame, d: Direction, m: int) -> (int, int) {
    match d {
        Direction::Up => (p.x as int, p.y - m),
        Direction::Down => (p.x as int, p.y + m),
        Direction::Left => (p.x - m, p.y as int),
        Direction::Right => (p.x + m, p.y as int),
    }
}

/// Whether `d` is the direction that the arrow keys of `input` give: up
/// before down, down before left, left before right.
pub open spec fn keys_give(input: KeyInput, d: Direction) -> bool {
    match d {
        Direction::Up => input.up,
        Direction::Down => !input.up && input.down,
        Direction::Left => !input.up && !input.down && input.left,
        Direction::Right => !input.up && !input.down && !input.left && input.right,
    }
}

/// Whether `e` is a block whose cell is `(x, y)`.
pub open spec fn is_block_on(e: EntityView, x: int, y: int) -> bool {
    e matches EntityView::Block(b) && b.position.x == x && b.position.y == y
}

/// Whether some entity is a block whose cell is `c`.
pub open spec fn has_block_on(ents: Seq<EntityView>, c: (int, int)) -> bool {
    exists|i: int| 0 <= i < ents.len() && #[trigger] is_block_on(ents[i], c.0, c.1)
}

/// Whether some entity is a wall or an exit whose cell is `c`.
pub open spec fn has_wall_or_exit_on(ents: Seq<EntityView>, c: (int, int)) -> bool {
    exists|i: int| 0 <= i < ents.len() && match #[trigger] ents[i] {
        EntityView::Wall(q, _) => q.x == c.0 && q.y == c.1,
        EntityView::Exit(q, _) => q.x == c.0 && q.y == c.1,
        _ => false,
    }
}

/// Whether the cell `m` steps from `p` towards `d` lies on the map: rows and
/// columns run from 0 to `map_height - 1` and `map_width - 1`.
pub open spec fn step_on_map(p: PositionDuringGame, d: Direction, map_width: u8, map_height: u8, m: int) -> bool {
    match d {
        Direction::Up => m <= p.y,
        Direction::Down => p.y + m <= map_height - 1,
        Direction::Left => m <= p.x,
        Direction::Right => p.x + m <= map_width - 1,
    }
}

proof fn lemma_movable_at_found(ents: Seq<EntityView>, x: int, y: int, n: int)
    requires
        n <= ents.len(),
    ensures
        movable_at(ents, x, y, n) is Some <==> exists|i: int| 0 <= i < n && #[trigger] is_block_on(ents[i], x, y),
    decreases n,
{
    if n > 0 {
        lemma_movable_at_found(ents, x, y, n - 1);
        if is_block_on(ents[n - 1], x, y) {
            assert(movable_at(ents, x, y, n) is Some);
        } else {
            assert(movable_at(ents, x, y, n) == movable_at(ents, x, y, n - 1));
            if movable_at(ents, x, y, n - 1) is Some {
                let i = choose|i: int| 0 <= i < n - 1 && #[trigger] is_block_on(ents[i], x, y);
                assert(0 <= i < n);
            }
            if exists|i: int| 0 <= i < n && #[trigger] is_block_on(ents[i], x, y) {
                let i = choose|i: int| 0 <= i < n && #[trigger] is_block_on(ents[i], x, y);
                assert(i < n - 1);
            }
        }
    }
}

/// Within the map, the cells that a push looks at are the cells towards its
/// direction, one step further each.
proof fn lemma_scan_steps(p: PositionDuringGame, d: Direction, map_width: u8, map_height: u8, m: int)
    requires
        0 <= m,
        step_on_map(p, d, map_width, map_height, m),
    ensures
        ({ let (s, e, x) = scan_bounds(p, d, map_width, map_height); m < scan_len(s, e) }),
        scan_cell(p, d, map_width, map_height, m) == cell_toward(p, d, m),
{
}

proof fn lemma_push_blocked(
    ents: Seq<EntityView>,
    acc: Seq<(Entity, Direction)>,
    p: PositionDuringGame,
    d: Direction,
    map_width: u8,
    map_height: u8,
    k: int,
    m: int,
)
    requires
        1 <= k,
        0 <= m <= k,
        step_on_map(p, d, map_width, map_height, k),
        forall|j: int| m <= j < k ==> #[trigger] has_block_on(ents, cell_toward(p, d, j)),
        has_wall_or_exit_on(ents, cell_toward(p, d, k)),
        !has_block_on(ents, cell_toward(p, d, k)),
    ensures
        push_chain(ents, acc, p, d, map_width, map_height, m) == Seq::<(Entity, Direction)>::empty(),
    decreases k - m,
{
    lemma_scan_steps(p, d, map_width, map_height, m);
    let c = cell_toward(p, d, m);
    lemma_movable_at_found(ents, c.0, c.1, ents.len() as int);
    if m < k {
        assert(has_block_on(ents, c));
        let e = movable_at(ents, c.0, c.1, ents.len() as int)->0;
        lemma_push_blocked(ents, acc.push((e as Entity, d)), p, d, map_width, map_height, k, m + 1);
    } else {
        let i = choose|i: int| 0 <= i < ents.len() && match #[trigger] ents[i] {
            EntityView::Wall(q, _) => q.x == c.0 && q.y == c.1,
            EntityView::Exit(q, _) => q.x == c.0 && q.y == c.1,
            _ => false,
        };
        assert(is_immovable_at(ents[i], c.0, c.1));
    }
}

/// A push is stopped by the first wall or exit in its way: where the selected
/// block has blocks on the next `k - 1` cells of the map towards the arrow
/// key's direction and a wall or an exit with no block on the `k`-th, nothing
/// moves. In particular a block right under the top wall row cannot be pushed
/// up, nor one right beside a wall or an exit towards it.
pub proof fn lemma_push_into_wall_moves_nothing(
    ents: Seq<EntityView>,
    selected: Seq<char>,
    map_width: u8,
    map_height: u8,
    input: KeyInput,
    s: int,
    d: Direction,
    k: int,
)
    requires
        single_selected(ents, selected, s),
        !input.repeated,
        keys_give(input, d),
        1 <= k,
        step_on_map(ents[s]->Block_0.position, d, map_width, map_height, k),
        forall|j: int| 1 <= j < k ==> #[trigger] has_block_on(ents, cell_toward(ents[s]->Block_0.position, d, j)),
        has_wall_or_exit_on(ents, cell_toward(ents[s]->Block_0.position, d, k)),
        !has_block_on(ents, cell_toward(ents[s]->Block_0.position, d, k)),
    ensures
        plan_moves_spec(ents, selected, map_width, map_height, input, ents.len() as int) == Seq::<(Entity, Direction)>::empty(),
        apply_moves_spec(ents, plan_moves_spec(ents, selected, map_width, map_height, input, ents.len() as int)) == ents,
{
    let p = ents[s]->Block_0.position;
    lemma_single_plan(ents, selected, map_width, map_height, input, s, ents.len() as int);
    assert(chosen_direction(input) == Some(d));
    assert(has_block_on(ents, cell_toward(p, d, 0))) by {
        assert(is_block_on(ents[s], p.x as int, p.y as int));
    }
    lemma_push_blocked(ents, Seq::empty(), p, d, map_width, map_height, k, 0);
}


proof fn lemma_push_free(
    ents: Seq<EntityView>,
    acc: Seq<(Entity, Direction)>,
    p: PositionDuringGame,
    d: Direction,
    map_width: u8,
    map_height: u8,
    k: int,
    m: int,
)
    requires
        0 <= m <= k,
        step_on_map(p, d, map_width, map_height, k - 1) || m == k,
        forall|j: int| m <= j < k ==> #[trigger] has_block_on(ents, cell_toward(p, d, j)),
        step_on_map(p, d, map_width, map_height, k) ==> !has_block_on(ents, cell_toward(p, d, k))
            && !has_wall_or_exit_on(ents, cell_toward(p, d, k)),
        !step_on_map(p, d, map_width, map_height, k) ==> ({ let (s, e, x) = scan_bounds(p, d, map_width, map_height); scan_len(s, e) }) <= k,
    ensures
        push_chain(ents, acc, p, d, map_width, map_height, m).len() == acc.len() + (k - m),
    decreases k - m,
{
    if m < k {
        lemma_scan_steps(p, d, map_width, map_height, m);
        let c = cell_toward(p, d, m);
        lemma_movable_at_found(ents, c.0, c.1, ents.len() as int);
        assert(has_block_on(ents, c));
        let e = movable_at(ents, c.0, c.1, ents.len() as int)->0;
        lemma_push_free(ents, acc.push((e as Entity, d)), p, d, map_width, map_height, k, m + 1);
    } else if step_on_map(p, d, map_width, map_height, k) {
        lemma_scan_steps(p, d, map_width, map_height, k);
        let c = cell_toward(p, d, k);
        lemma_movable_at_found(ents, c.0, c.1, ents.len() as int);
        if immovable_at(ents, c.0, c.1) {
            let i = choose|i: int| 0 <= i < ents.len() && #[trigger] is_immovable_at(ents[i], c.0, c.1);
            assert(match ents[i] {
                EntityView::Wall(q, _) => q.x == c.0 && q.y == c.1,
                EntityView::Exit(q, _) => q.x == c.0 && q.y == c.1,
                _ => false,
            });
        }
    }
}

/// A free push moves the whole chain in front of the selected block: where
/// the selected block has blocks on the next `k - 1` cells of the map towards
/// the arrow key's direction, and the `k`-th cell is off the map or holds no
/// block, wall or exit, the push plans `k` moves, the `m`-th that of a block
/// on the cell `m` steps from the selected block, each towards the key's
/// direction.
pub proof fn lemma_free_push_moves_chain(
    ents: Seq<EntityView>,
    selected: Seq<char>,
    map_width: u8,
    map_height: u8,
    input: KeyInput,
    s: int,
    d: Direction,
    k: int,
)
    requires
        single_selected(ents, selected, s),
        ents.len() <= usize::MAX,
        !input.repeated,
        keys_give(input, d),
        1 <= k,
        step_on_map(ents[s]->Block_0.position, d, map_width, map_height, k - 1),
        forall|j: int| 1 <= j < k ==> #[trigger] has_block_on(ents, cell_toward(ents[s]->Block_0.position, d, j)),
        step_on_map(ents[s]->Block_0.position, d, map_width, map_height, k) ==> !has_block_on(ents, cell_toward(ents[s]->Block_0.position, d, k))
            && !has_wall_or_exit_on(ents, cell_toward(ents[s]->Block_0.position, d, k)),
    ensures
        ({
            let plan = plan_moves_spec(ents, selected, map_width, map_height, input, ents.len() as int);
            let p = ents[s]->Block_0.position;
            &&& plan.len() == k
            &&& forall|m: int| 0 <= m < k ==> {
                &&& (#[trigger] plan[m]).1 == d
                &&& plan[m].0 < ents.len()
                &&& is_block_on(ents[plan[m].0 as int], cell_toward(p, d, m).0, cell_toward(p, d, m).1)
            }
        }),
{
    let p = ents[s]->Block_0.position;
    lemma_single_plan(ents, selected, map_width, map_height, input, s, ents.len() as int);
    assert(chosen_direction(input) == Some(d));
    let plan = plan_moves_spec(ents, selected, map_width, map_height, input, ents.len() as int);
    assert(has_block_on(ents, cell_toward(p, d, 0))) by {
        assert(is_block_on(ents[s], p.x as int, p.y as int));
    }
    lemma_push_free(ents, Seq::empty(), p, d, map_width, map_height, k, 0);
    assert(chain_of_cells(ents, Seq::empty(), p, d, map_width, map_height));
    lemma_push_chain_cells(ents, Seq::empty(), p, d, map_width, map_height, 0);
    assert forall|m: int| 0 <= m < k implies {
        &&& (#[trigger] plan[m]).1 == d
        &&& plan[m].0 < ents.len()
        &&& is_block_on(ents[plan[m].0 as int], cell_toward(p, d, m).0, cell_toward(p, d, m).1)
    } by {
        lemma_scan_steps(p, d, map_width, map_height, m);
    }
}

} // verus!

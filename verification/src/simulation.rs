use vstd::prelude::*;
use crate::base::Base;
use crate::communication::Message;
use crate::grid::{lemma_grid_set, shaped};
use crate::path::{bfs_next_step, can_reach, is_first_next_step};
use crate::robot::{Robot, RobotType, fresh_robot};
use crate::map::{
    CellType, Position, Resource, ResourceType, WorldMap, adjacent, cell_of, in_grid, lemma_surrounding,
    spec_surrounding, touching,
};
use crate::posmap::PositionMap;
use crate::random::{random_usize_in, random_u64, random_ratio};
use rand_chacha::ChaCha8Rng;

verus! {

/// What the robots have reported of deposits: for each position, the kind
/// and the units last heard of.
pub type Knowledge = PositionMap<(ResourceType, u32)>;

/// The positions of `s`, in order, whose cell is an obstacle (`blocked`) or
/// is not (`!blocked`).
pub open spec fn cells_where(m: WorldMap, s: Seq<Position>, blocked: bool) -> Seq<Position> {
    s.filter(|p: Position| (m.cell(p) == CellType::Obstacle) == blocked)
}

/// The deposit at `pos`, as a scout reports it: only while units are left.
pub open spec fn deposit_at(m: WorldMap, pos: Position) -> Option<(Position, ResourceType, u32)> {
    if m.resources@.contains_key(pos) && m.resources@[pos].quantity > 0 {
        Some((pos, m.resources@[pos].resource_type, m.resources@[pos].quantity))
    } else {
        None
    }
}

/// The deposit at `pos` as seen on stepping there: its cell must show it
/// and units must be left.
pub open spec fn deposit_seen(m: WorldMap, pos: Position) -> Option<(ResourceType, u32)> {
    if (m.cell(pos) == CellType::Energy || m.cell(pos) == CellType::Crystal)
        && m.resources@.contains_key(pos) && m.resources@[pos].quantity > 0 {
        Some((m.resources@[pos].resource_type, m.resources@[pos].quantity))
    } else {
        None
    }
}

/// Steps along rows plus steps along columns from `a` to `b`.
pub open spec fn manhattan(a: Position, b: Position) -> int {
    (if a.x >= b.x { a.x - b.x } else { b.x - a.x }) + (if a.y >= b.y { a.y - b.y } else { b.y - a.y })
}

/// The eight cells around `pos` that are free of obstacles and those that
/// are obstacles, row by row from the row above, each row from left to
/// right, and the deposit at `pos` if it still holds units.
pub fn scan_surroundings(map: &WorldMap, pos: Position) -> (r: (
    Vec<Position>,
    Vec<Position>,
    Option<(Position, ResourceType, u32)>,
))
    requires
        map.grid_ok(),
        map.resources.wf(),
    ensures
        r.0@ == cells_where(*map, spec_surrounding(pos, map.width as int, map.height as int), false),
        r.1@ == cells_where(*map, spec_surrounding(pos, map.width as int, map.height as int), true),
        r.2 == deposit_at(*map, pos),
{
    let all = pos.neighbors_around(map.width, map.height);
    let mut walkable: Vec<Position> = Vec::new();
    let mut obstacles: Vec<Position> = Vec::new();
    let mut i: usize = 0;
    while i < all.len()
        invariant
            map.grid_ok(),
            i <= all@.len(),
            walkable@ == cells_where(*map, all@.take(i as int), false),
            obstacles@ == cells_where(*map, all@.take(i as int), true),
        decreases all@.len() - i,
    {
        let p = all[i];
        proof {
            reveal(Seq::filter);
        }
        assert(all@.take(i + 1).drop_last() =~= all@.take(i as int));
        assert(all@.take(i + 1).last() == p);
        if map.get_cell(p) != CellType::Obstacle {
            walkable.push(p);
        } else {
            obstacles.push(p);
        }
        i = i + 1;
    }
    assert(all@.take(all@.len() as int) =~= all@);
    let resource_at = match map.resources.get(pos) {
        Some(res) => if res.quantity > 0 {
            Some((pos, res.resource_type, res.quantity))
        } else {
            None
        },
        None => None,
    };
    (walkable, obstacles, resource_at)
}

/// A random entry of `walkable`, or `None` when it is empty.
pub fn choose_random_neighbor(rng: &mut ChaCha8Rng, walkable: &[Position]) -> (r: Option<Position>)
    ensures
        r is None <==> walkable@.len() == 0,
        r matches Some(p) ==> walkable@.contains(p),
{
    if walkable.len() == 0 {
        None
    } else {
        let i = random_usize_in(rng, 0, walkable.len());
        let p = walkable[i];
        assert(walkable@[i as int] == p);
        Some(p)
    }
}

/// The kind and units of the deposit at `pos`, if its cell shows one and
/// units are left.
pub fn scan_resource_at(map: &WorldMap, pos: Position) -> (r: Option<(ResourceType, u32)>)
    requires
        map.grid_ok(),
        map.resources.wf(),
    ensures
        r == deposit_seen(*map, pos),
{
    match map.get_cell(pos) {
        CellType::Energy | CellType::Crystal => match map.resources.get(pos) {
            Some(res) => if res.quantity > 0 {
                Some((res.resource_type, res.quantity))
            } else {
                None
            },
            None => None,
        },
        _ => None,
    }
}

/// `manhattan(a, b)`, computed without overflow.
fn distance(a: Position, b: Position) -> (d: u128)
    ensures
        d == manhattan(a, b),
{
    let dx: usize = if a.x >= b.x { a.x - b.x } else { b.x - a.x };
    let dy: usize = if a.y >= b.y { a.y - b.y } else { b.y - a.y };
    dx as u128 + dy as u128
}

/// The robot's current target if it has one; else a known deposit nearest
/// to `pos` in steps along rows and columns, ties going either way by a
/// fair coin; `None` when nothing is known.
pub fn choose_target(
    pos: Position,
    current_target: Option<Position>,
    known: &Knowledge,
    rng: &mut ChaCha8Rng,
) -> (r: Option<Position>)
    requires
        known.wf(),
    ensures
        current_target is Some ==> r == current_target && *final(rng) == *old(rng),
        current_target is None ==> (r is None <==> known@.dom().len() == 0),
        current_target is None ==> (r matches Some(t) ==> {
            &&& known@.contains_key(t)
            &&& forall|q: Position| #[trigger] known@.contains_key(q) ==> manhattan(pos, t) <= manhattan(pos, q)
        }),
{
    if current_target.is_some() {
        return current_target;
    }
    proof {
        known.lemma_view();
    }
    let n = known.len();
    if n == 0 {
        return None;
    }
    let mut best = known.entry(0).0;
    let mut best_dist = distance(best, pos);
    let mut i: usize = 1;
    while i < n
        invariant
            known.wf(),
            n == known.entries().len(),
            1 <= i <= n,
            known@.contains_key(best),
            best_dist == manhattan(best, pos),
            forall|j: int| 0 <= j < i ==> best_dist <= manhattan(#[trigger] known.entries()[j].0, pos),
        decreases n - i,
    {
        proof {
            known.lemma_view();
        }
        let q = known.entry(i).0;
        let d = distance(q, pos);
        if best_dist > d {
            best = q;
            best_dist = d;
        } else if best_dist == d {
            // ties go either way: a fair coin keeps the earlier one
            if !random_ratio(rng, 1, 2) {
                best = q;
            }
        }
        i = i + 1;
    }
    proof {
        known.lemma_view();
        assert forall|q: Position| #[trigger] known@.contains_key(q) implies manhattan(pos, best) <= manhattan(pos, q) by {
            let j = choose|j: int| 0 <= j < known.entries().len() && #[trigger] known.entries()[j].0 == q;
            assert(best_dist <= manhattan(known.entries()[j].0, pos));
        }
    }
    Some(best)
}

/// What taking a unit from `tgt` does to the map and to what is known,
/// `r` being the kind of the unit taken, if any.
pub open spec fn take_outcome(
    m0: WorldMap,
    m1: WorldMap,
    k0: Map<Position, (ResourceType, u32)>,
    k1: Map<Position, (ResourceType, u32)>,
    tgt: Position,
    r: Option<ResourceType>,
) -> bool {
    let res = m0.resources@;
    if !res.contains_key(tgt) || res[tgt].quantity == 0 {
        &&& r is None
        &&& m1 == m0
        &&& k1 == k0.remove(tgt)
    } else {
        let left = (res[tgt].quantity - 1) as u32;
        &&& r == Some(res[tgt].resource_type)
        &&& m1.width == m0.width
        &&& m1.height == m0.height
        &&& m1.base_position == m0.base_position
        &&& m1.resources@ == if left == 0 {
            res.remove(tgt)
        } else {
            res.insert(tgt, Resource { resource_type: res[tgt].resource_type, quantity: left })
        }
        &&& forall|p: Position| #[trigger] m1.cell(p)
            == if p == tgt && left == 0 { CellType::Empty } else { m0.cell(p) }
        &&& k1 == if left == 0 {
            k0.remove(tgt)
        } else if k0.contains_key(tgt) {
            k0.insert(tgt, (k0[tgt].0, left))
        } else {
            k0
        }
    }
}

/// Takes one unit from the deposit at `tgt`. With no deposit there, or an
/// empty one, nothing is taken and `tgt` is forgotten. The last unit
/// removes the deposit and clears its cell; otherwise the units now left are
/// written into what is known of `tgt`, if anything is.
pub fn try_collect_resource(
    map: &mut WorldMap,
    known: &mut Knowledge,
    tgt: Position,
) -> (r: Option<ResourceType>)
    requires
        old(map).wf(),
        old(known).wf(),
    ensures
        final(map).wf(),
        final(known).wf(),
        old(map).deposits_consistent() ==> final(map).deposits_consistent(),
        take_outcome(*old(map), *final(map), old(known)@, final(known)@, tgt, r),
{
    match map.resources.get(tgt) {
        Some(res) => {
            if res.quantity == 0 {
                known.remove(tgt);
                return None;
            }
            let left = res.quantity - 1;
            let resource_type = res.resource_type;
            if left == 0 {
                let ghost cells0 = map.cells@;
                let ghost m0 = *map;
                map.resources.remove(tgt);
                assert(in_grid(tgt, map.width as int, map.height as int));
                assert(map.cells@[tgt.y as int]@.len() == map.width);
                map.cells[tgt.y][tgt.x] = CellType::Empty;
                proof {
                    lemma_grid_set(cells0, map.cells@[tgt.y as int], map.width as int, map.height as int, tgt, CellType::Empty);
                    assert(map.cells@ == cells0.update(tgt.y as int, map.cells@[tgt.y as int]));
                    assert forall|p: Position| #[trigger] map.cell(p)
                        == if p == tgt { CellType::Empty } else { m0.cell(p) } by {}
                    if m0.deposits_consistent() {
                        assert forall|p: Position| #[trigger] map.resources@.contains_key(p) implies {
                            &&& in_grid(p, map.width as int, map.height as int)
                            &&& map.cell(p) == cell_of(map.resources@[p].resource_type)
                            &&& map.resources@[p].quantity > 0
                        } by {
                            assert(m0.resources@.contains_key(p));
                        }
                        assert forall|p: Position|
                            (#[trigger] map.cell(p) == CellType::Energy || map.cell(p) == CellType::Crystal)
                            implies map.resources@.contains_key(p) by {
                            assert(m0.cell(p) == map.cell(p));
                        }
                    }
                }
                known.remove(tgt);
            } else {
                let ghost m0 = *map;
                map.resources.insert(tgt, Resource { resource_type, quantity: left });
                proof {
                    assert(map.cells == m0.cells);
                    assert forall|p: Position| #[trigger] map.cell(p) == m0.cell(p) by {}
                    if m0.deposits_consistent() {
                        assert forall|p: Position| #[trigger] map.resources@.contains_key(p) implies {
                            &&& in_grid(p, map.width as int, map.height as int)
                            &&& map.cell(p) == cell_of(map.resources@[p].resource_type)
                            &&& map.resources@[p].quantity > 0
                        } by {
                            assert(m0.resources@.contains_key(p));
                            assert(map.cell(p) == m0.cell(p));
                        }
                        assert forall|p: Position|
                            (#[trigger] map.cell(p) == CellType::Energy || map.cell(p) == CellType::Crystal)
                            implies map.resources@.contains_key(p) by {
                            assert(m0.cell(p) == map.cell(p));
                        }
                    }
                }
                match known.get(tgt) {
                    Some(entry) => {
                        known.insert(tgt, (entry.0, left));
                    },
                    None => {},
                }
            }
            Some(resource_type)
        },
        None => {
            known.remove(tgt);
            None
        },
    }
}

/// What a collector at `r0.position` does about its target `tgt`: on the
/// target it takes a unit (and reports it) or, finding nothing, forgets the
/// target; elsewhere it steps toward the target or, with no way there,
/// forgets it.
pub open spec fn target_outcome(
    m0: WorldMap,
    m1: WorldMap,
    k0: Map<Position, (ResourceType, u32)>,
    k1: Map<Position, (ResourceType, u32)>,
    r0: Robot,
    r1: Robot,
    tgt: Position,
    msg: Option<Message>,
) -> bool {
    if r0.position == tgt {
        let res = m0.resources@;
        if res.contains_key(tgt) && res[tgt].quantity > 0 {
            let rt = res[tgt].resource_type;
            &&& take_outcome(m0, m1, k0, k1, tgt, Some(rt))
            &&& msg == Some(Message::ResourceCollected { robot_id: r0.id, position: tgt, resource_type: rt, quantity: 1 })
            &&& r1 == (Robot {
                inventory: 1,
                carrying_type: Some(rt),
                returning_to_base: true,
                target: Some(tgt),
                ..r0
            })
        } else {
            &&& m1 == m0
            &&& k1 == k0.remove(tgt)
            &&& msg is None
            &&& r1 == (Robot { target: None, ..r0 })
        }
    } else {
        &&& m1 == m0
        &&& msg is None
        &&& if can_reach(m0, r0.position, tgt) {
            &&& k1 == k0
            &&& is_first_next_step(m0, r0.position, tgt, r1.position)
            &&& r1 == (Robot { position: r1.position, target: Some(tgt), ..r0 })
        } else {
            &&& k1 == k0.remove(tgt)
            &&& r1 == (Robot { target: None, ..r0 })
        }
    }
}

/// Taking a unit that leaves units behind brings what is known of the
/// target, if it was known, in line with the map: its kind stays and its
/// units are those the deposit now holds.
pub proof fn lemma_take_syncs_knowledge(
    m0: WorldMap,
    m1: WorldMap,
    k0: Map<Position, (ResourceType, u32)>,
    k1: Map<Position, (ResourceType, u32)>,
    tgt: Position,
    r: Option<ResourceType>,
)
    requires
        take_outcome(m0, m1, k0, k1, tgt, r),
        k0.contains_key(tgt),
        m1.resources@.contains_key(tgt),
        m1.resources@[tgt].quantity > 0,
    ensures
        r is Some,
        m1.resources@[tgt].quantity + 1 == m0.resources@[tgt].quantity,
        k1.contains_key(tgt),
        k1[tgt] == (k0[tgt].0, m1.resources@[tgt].quantity),
{
}

/// Taking the last unit of a deposit removes it from the map, clears its
/// cell and forgets it; finding no units there takes nothing and forgets
/// it too. Nothing else on the map changes.
pub proof fn lemma_take_last_or_nothing(
    m0: WorldMap,
    m1: WorldMap,
    k0: Map<Position, (ResourceType, u32)>,
    k1: Map<Position, (ResourceType, u32)>,
    tgt: Position,
    r: Option<ResourceType>,
)
    requires
        take_outcome(m0, m1, k0, k1, tgt, r),
        !(m0.resources@.contains_key(tgt) && m0.resources@[tgt].quantity > 1),
    ensures
        !m1.resources@.contains_key(tgt) || m1.resources@[tgt].quantity == 0,
        !k1.contains_key(tgt),
        forall|o: Position| o != tgt ==> (#[trigger] k1.contains_key(o) <==> k0.contains_key(o)),
        forall|o: Position| o != tgt && #[trigger] k0.contains_key(o) ==> k1[o] == k0[o],
        r is Some <==> (m0.resources@.contains_key(tgt) && m0.resources@[tgt].quantity == 1),
        r is Some ==> m1.cell(tgt) == CellType::Empty && r == Some(m0.resources@[tgt].resource_type),
        forall|o: Position| o != tgt ==> #[trigger] m1.cell(o) == m0.cell(o),
{
}

/// Collecting conserves units: what the deposit at the target loses, the
/// collector gains, one unit at a time.
pub proof fn lemma_collect_conserves(
    m0: WorldMap,
    m1: WorldMap,
    k0: Map<Position, (ResourceType, u32)>,
    k1: Map<Position, (ResourceType, u32)>,
    r0: Robot,
    r1: Robot,
    tgt: Position,
    msg: Option<Message>,
)
    requires
        target_outcome(m0, m1, k0, k1, r0, r1, tgt, msg),
        r0.inventory == 0,
    ensures
        units_at(m1, tgt) + r1.inventory == units_at(m0, tgt),
        r1.inventory <= 1,
        forall|p: Position| p != tgt ==> #[trigger] units_at(m1, p) == units_at(m0, p),
{
}


pub fn handle_collector_target(
    robot: &mut Robot,
    map: &mut WorldMap,
    known: &mut Knowledge,
    tgt: Position,
) -> (msg: Option<Message>)
    requires
        old(map).wf(),
        old(known).wf(),
    ensures
        final(map).wf(),
        final(known).wf(),
        old(map).deposits_consistent() ==> final(map).deposits_consistent(),
        target_outcome(*old(map), *final(map), old(known)@, final(known)@, *old(robot), *final(robot), tgt, msg),
{
    let pos = robot.position;
    if pos == tgt {
        match try_collect_resource(map, known, tgt) {
            Some(rt) => {
                robot.inventory = 1;
                robot.carrying_type = Some(rt);
                robot.returning_to_base = true;
                robot.target = Some(tgt);
                Some(Message::ResourceCollected { robot_id: robot.id, position: tgt, resource_type: rt, quantity: 1 })
            },
            None => {
                known.remove(tgt);
                robot.target = None;
                assert(final(known)@ =~= old(known)@.remove(tgt));
                None
            },
        }
    } else {
        match bfs_next_step(map, pos, tgt) {
            Some(next_pos) => {
                robot.position = next_pos;
                robot.target = Some(tgt);
                None
            },
            None => {
                known.remove(tgt);
                robot.target = None;
                None
            },
        }
    }
}

/// The kind a collector delivers: what it carries, energy if unrecorded.
pub open spec fn load_kind(r: Robot) -> ResourceType {
    match r.carrying_type {
        Some(rt) => rt,
        None => ResourceType::Energy,
    }
}

/// What a loaded collector does: away from the base it steps toward it (or
/// stays put with no way there); at the base it hands over its load and
/// reports it.
pub open spec fn return_outcome(m: WorldMap, b0: Base, b1: Base, r0: Robot, r1: Robot, msg: Option<Message>) -> bool {
    if r0.position != r0.base_position {
        &&& b1 == b0
        &&& msg is None
        &&& r1 == (Robot { position: r1.position, ..r0 })
        &&& if can_reach(m, r0.position, r0.base_position) {
            is_first_next_step(m, r0.position, r0.base_position, r1.position)
        } else {
            r1.position == r0.position
        }
    } else {
        let rt = load_kind(r0);
        &&& b1.energy() == b0.energy() + if rt == ResourceType::Energy { r0.inventory } else { 0 }
        &&& b1.crystals() == b0.crystals() + if rt == ResourceType::Crystal { r0.inventory } else { 0 }
        &&& msg == Some(Message::ResourceDepositedAtBase { robot_id: r0.id, resource_type: rt, quantity: r0.inventory })
        &&& r1 == (Robot {
            inventory: 0,
            carrying_type: None,
            returning_to_base: false,
            target: None,
            ..r0
        })
    }
}

/// Delivering conserves units: what the collector carries goes into the
/// base's store of its kind, and a collector never ends up carrying more.
pub proof fn lemma_delivery_conserves(m: WorldMap, b0: Base, b1: Base, r0: Robot, r1: Robot, msg: Option<Message>)
    requires
        return_outcome(m, b0, b1, r0, r1, msg),
    ensures
        b1.energy() + b1.crystals() + r1.inventory == b0.energy() + b0.crystals() + r0.inventory,
        r1.inventory <= r0.inventory,
{
}


pub fn handle_return_to_base(robot: &mut Robot, map: &WorldMap, base: &mut Base) -> (msg: Option<Message>)
    requires
        map.wf(),
        old(robot).position == old(robot).base_position
            ==> old(base).can_deposit(load_kind(*old(robot)), old(robot).inventory),
    ensures
        return_outcome(*map, *old(base), *final(base), *old(robot), *final(robot), msg),
{
    let pos = robot.position;
    let base_pos = robot.base_position;
    if pos != base_pos {
        let next = bfs_next_step(map, pos, base_pos);
        if let Some(next_pos) = next {
            robot.position = next_pos;
        }
        return None;
    }
    let ct = match robot.carrying_type {
        Some(rt) => rt,
        None => ResourceType::Energy,
    };
    let inventory = robot.inventory;
    base.deposit_resource(ct, inventory);
    robot.inventory = 0;
    robot.carrying_type = None;
    robot.returning_to_base = false;
    robot.target = None;
    Some(Message::ResourceDepositedAtBase { robot_id: robot.id, resource_type: ct, quantity: inventory })
}

/// Units left in the deposit at `p`, 0 where there is none.
pub open spec fn units_at(m: WorldMap, p: Position) -> int {
    if m.resources@.contains_key(p) { m.resources@[p].quantity as int } else { 0 }
}

/// Scouts step only onto free cells around them: a position is among the
/// free cells that a scan lists exactly when it is on the grid, one of the
/// eight cells around and no obstacle.
pub proof fn lemma_free_neighbors(m: WorldMap, pos: Position, q: Position)
    ensures
        cells_where(m, spec_surrounding(pos, m.width as int, m.height as int), false).contains(q)
            <==> (in_grid(q, m.width as int, m.height as int) && touching(pos, q)
                && m.cell(q) != CellType::Obstacle),
{
    let nbs = spec_surrounding(pos, m.width as int, m.height as int);
    lemma_surrounding(pos, m.width, m.height, q);
    lemma_cells_where_contains(m, nbs, false, q);
}

/// A filtered list holds exactly the listed positions that pass the filter.
proof fn lemma_cells_where_contains(m: WorldMap, s: Seq<Position>, blocked: bool, q: Position)
    ensures
        cells_where(m, s, blocked).contains(q)
            <==> (s.contains(q) && (m.cell(q) == CellType::Obstacle) == blocked),
    decreases s.len(),
{
    reveal(Seq::filter);
    if s.len() > 0 {
        let rest = s.drop_last();
        lemma_cells_where_contains(m, rest, blocked, q);
        let c = cells_where(m, rest, blocked);
        if s.contains(q) && q != s.last() {
            let i = choose|i: int| 0 <= i < s.len() && s[i] == q;
            assert(rest[i] == q);
        }
        if rest.contains(q) {
            let i = choose|i: int| 0 <= i < rest.len() && rest[i] == q;
            assert(s[i] == q);
        }
        if (m.cell(s.last()) == CellType::Obstacle) == blocked {
            if c.push(s.last()).contains(q) && q != s.last() {
                let i = choose|i: int| 0 <= i < c.push(s.last()).len() && c.push(s.last())[i] == q;
                assert(c[i] == q);
            }
            if c.contains(q) {
                let i = choose|i: int| 0 <= i < c.len() && c[i] == q;
                assert(c.push(s.last())[i] == q);
            }
            assert(c.push(s.last())[c.len() as int] == s.last());
        }
        assert(s[s.len() - 1] == s.last());
    }
}

/// What is known after `msg`: a discovery records the deposit's kind and
/// units; a collection lowers the units known, forgetting the deposit when
/// none would be left; other messages change nothing.
pub open spec fn apply_message(k: Map<Position, (ResourceType, u32)>, msg: Message) -> Map<Position, (ResourceType, u32)> {
    match msg {
        Message::ResourceDiscovered { position, resource_type, quantity, .. } => k.insert(position, (resource_type, quantity)),
        Message::ResourceCollected { position, quantity, .. } => if k.contains_key(position) {
            if k[position].1 <= quantity {
                k.remove(position)
            } else {
                k.insert(position, (k[position].0, (k[position].1 - quantity) as u32))
            }
        } else {
            k
        },
        _ => k,
    }
}

/// What is known after the messages of `msgs`, in order.
pub open spec fn apply_messages(k: Map<Position, (ResourceType, u32)>, msgs: Seq<Message>) -> Map<Position, (ResourceType, u32)>
    decreases msgs.len(),
{
    if msgs.len() == 0 {
        k
    } else {
        apply_message(apply_messages(k, msgs.drop_last()), msgs.last())
    }
}

/// Messages may be split across ticks: handling `a` and then `b` leaves
/// the same knowledge as handling `a` followed by `b` in one tick.
pub proof fn lemma_apply_messages_split(k: Map<Position, (ResourceType, u32)>, a: Seq<Message>, b: Seq<Message>)
    ensures
        apply_messages(k, a + b) == apply_messages(apply_messages(k, a), b),
    decreases b.len(),
{
    if b.len() == 0 {
        assert(a + b =~= a);
    } else {
        lemma_apply_messages_split(k, a, b.drop_last());
        assert((a + b).drop_last() =~= a + b.drop_last());
        assert((a + b).last() == b.last());
    }
}

/// A report of a deposit overrides what was known of its position: after
/// any messages followed by a discovery of `p`, knowledge binds `p` to the
/// reported kind and units, whether or not `p` was known before, and keeps
/// every other position as the earlier messages left it.
pub proof fn lemma_discovery_overrides(
    k: Map<Position, (ResourceType, u32)>,
    msgs: Seq<Message>,
    robot_id: u32,
    p: Position,
    rt: ResourceType,
    q: u32,
)
    ensures
        apply_messages(k, msgs.push(Message::ResourceDiscovered { robot_id, position: p, resource_type: rt, quantity: q }))
            == apply_messages(k, msgs).insert(p, (rt, q)),
{
    let d = Message::ResourceDiscovered { robot_id, position: p, resource_type: rt, quantity: q };
    assert(msgs.push(d).drop_last() =~= msgs);
    assert(msgs.push(d).last() == d);
}

/// A report of a collection lowers the units known at its position by the
/// units taken, forgetting the position when none would be left; a position
/// not known stays unknown, and other positions are untouched.
pub proof fn lemma_collection_lowers(
    k: Map<Position, (ResourceType, u32)>,
    msgs: Seq<Message>,
    robot_id: u32,
    p: Position,
    rt: ResourceType,
    q: u32,
)
    ensures
        ({
            let before = apply_messages(k, msgs);
            let after = apply_messages(k, msgs.push(Message::ResourceCollected { robot_id, position: p, resource_type: rt, quantity: q }));
            &&& forall|o: Position| o != p ==> (#[trigger] after.contains_key(o) <==> before.contains_key(o))
                && (before.contains_key(o) ==> after[o] == before[o])
            &&& !before.contains_key(p) ==> !after.contains_key(p)
            &&& before.contains_key(p) && before[p].1 <= q ==> !after.contains_key(p)
            &&& before.contains_key(p) && before[p].1 > q ==> after.contains_key(p)
                && after[p] == (before[p].0, (before[p].1 - q) as u32)
        }),
{
    let c = Message::ResourceCollected { robot_id, position: p, resource_type: rt, quantity: q };
    assert(msgs.push(c).drop_last() =~= msgs);
    assert(msgs.push(c).last() == c);
}

/// Reports of obstacles and of deliveries to the base leave what is known
/// of deposits as it was.
pub proof fn lemma_other_reports_keep_knowledge(k: Map<Position, (ResourceType, u32)>, msgs: Seq<Message>, m: Message)
    requires
        m is ObstacleDiscovered || m is ResourceDepositedAtBase,
    ensures
        apply_messages(k, msgs.push(m)) == apply_messages(k, msgs),
{
    assert(msgs.push(m).drop_last() =~= msgs);
    assert(msgs.push(m).last() == m);
}

/// The reports of obstacles at the positions of `s`, in order.
pub open spec fn obstacle_reports(id: u32, s: Seq<Position>) -> Seq<Message> {
    s.map_values(|p: Position| Message::ObstacleDiscovered { robot_id: id, position: p })
}

/// The report of a deposit, if there is one to report.
pub open spec fn discovery_report(id: u32, d: Option<(Position, ResourceType, u32)>) -> Seq<Message> {
    match d {
        Some((p, rt, q)) => seq![Message::ResourceDiscovered { robot_id: id, position: p, resource_type: rt, quantity: q }],
        None => Seq::empty(),
    }
}

/// The target a collector heads for: the one it has, else a nearest known
/// deposit.
pub open spec fn chosen_target(k: Map<Position, (ResourceType, u32)>, r: Robot, t: Position) -> bool {
    match r.target {
        Some(t0) => t == t0,
        None => {
            &&& k.contains_key(t)
            &&& forall|q: Position| #[trigger] k.contains_key(q)
                ==> manhattan(r.position, t) <= manhattan(r.position, q)
        },
    }
}

/// What the renderer needs of the simulation at one moment.
pub struct RenderSnapshot {
    pub map: WorldMap,
    pub robot_positions: Vec<(u32, Position, RobotType)>,
    pub energy: u32,
    pub crystals: u32,
    pub turn: u32,
}

/// The world that the robots share: the map, the robots, the base's stores,
/// what has been reported of deposits, and how many ticks have passed.
pub struct Simulation {
    pub robots: Vec<Robot>,
    pub base: Base,
    /// Knowledge shared between all robots (updated via messages)
    pub shared_resources: Knowledge,
    pub map: WorldMap,
    pub running: bool,
    /// Ticks so far.
    pub turn: u32,
}

/// One turn of a collector `r0` on map `m0` with knowledge `k0` and base
/// `b0`: loaded, it heads home and delivers (see `return_outcome`); empty-
/// handed, it works toward its chosen target (see `target_outcome`), or,
/// knowing of nothing, drops its target.
pub open spec fn collector_turn(
    m0: WorldMap,
    m1: WorldMap,
    k0: Map<Position, (ResourceType, u32)>,
    k1: Map<Position, (ResourceType, u32)>,
    b0: Base,
    b1: Base,
    r0: Robot,
    r1: Robot,
    msg: Option<Message>,
) -> bool {
    if r0.inventory > 0 {
        &&& m1 == m0
        &&& k1 == k0
        &&& return_outcome(m0, b0, b1, r0, r1, msg)
    } else if r0.target is None && k0.dom().len() == 0 {
        &&& m1 == m0
        &&& b1 == b0
        &&& k1 == k0
        &&& msg is None
        &&& r1 == (Robot { target: None, ..r0 })
    } else {
        &&& b1 == b0
        &&& exists|t: Position| #[trigger] chosen_target(k0, r0, t)
            && target_outcome(m0, m1, k0, k1, r0, r1, t, msg)
    }
}

/// Units of kind `kind` left in the deposit at `p`, 0 where there is none
/// or it is of the other kind.
pub open spec fn units_of(m: WorldMap, p: Position, kind: ResourceType) -> int {
    if m.resources@.contains_key(p) && m.resources@[p].resource_type == kind {
        m.resources@[p].quantity as int
    } else {
        0
    }
}

/// Units of kind `kind` that robot `r` carries.
pub open spec fn load_of(r: Robot, kind: ResourceType) -> int {
    if load_kind(r) == kind { r.inventory as int } else { 0 }
}

/// Units of kind `kind` in the base's store.
pub open spec fn store_of(b: Base, kind: ResourceType) -> int {
    match kind {
        ResourceType::Energy => b.energy() as int,
        ResourceType::Crystal => b.crystals() as int,
    }
}

/// A collector's load is sound: at most one unit, a unit exactly when its
/// kind is recorded, and the return flag set while loaded.
pub open spec fn load_ok(r: Robot) -> bool {
    &&& r.inventory <= 1
    &&& (r.inventory > 0 <==> r.carrying_type is Some)
    &&& (r.inventory > 0 ==> r.returning_to_base)
}

/// Units of each kind are conserved with every deposit but the one at `t`
/// unchanged: what that deposit, the robot and the base hold together of a
/// kind is what they held before.
pub open spec fn conserved_around(m0: WorldMap, m1: WorldMap, b0: Base, b1: Base, r0: Robot, r1: Robot, t: Position) -> bool {
    &&& forall|p: Position, kind: ResourceType| p != t ==>
        #[trigger] units_of(m1, p, kind) == units_of(m0, p, kind)
    &&& forall|kind: ResourceType|
        #[trigger] units_of(m1, t, kind) + load_of(r1, kind) + store_of(b1, kind)
            == units_of(m0, t, kind) + load_of(r0, kind) + store_of(b0, kind)
}

/// A collector's turn conserves units of each kind: at most one deposit
/// changes, and what it loses goes to the collector or what the collector
/// loses goes to the base, kind for kind.
pub proof fn lemma_collector_turn_conserves(
    m0: WorldMap,
    m1: WorldMap,
    k0: Map<Position, (ResourceType, u32)>,
    k1: Map<Position, (ResourceType, u32)>,
    b0: Base,
    b1: Base,
    r0: Robot,
    r1: Robot,
    msg: Option<Message>,
)
    requires
        collector_turn(m0, m1, k0, k1, b0, b1, r0, r1, msg),
        load_ok(r0),
    ensures
        exists|t: Position| #[trigger] conserved_around(m0, m1, b0, b1, r0, r1, t),
{
    if r0.inventory > 0 || (r0.target is None && k0.dom().len() == 0) {
        let t = r0.position;
        assert forall|kind: ResourceType|
            #[trigger] units_of(m1, t, kind) + load_of(r1, kind) + store_of(b1, kind)
                == units_of(m0, t, kind) + load_of(r0, kind) + store_of(b0, kind) by {}
        assert(conserved_around(m0, m1, b0, b1, r0, r1, t));
    } else {
        let t = choose|t: Position| #[trigger] chosen_target(k0, r0, t)
            && target_outcome(m0, m1, k0, k1, r0, r1, t, msg);
        assert forall|p: Position, kind: ResourceType| p != t implies
            #[trigger] units_of(m1, p, kind) == units_of(m0, p, kind) by {}
        assert forall|kind: ResourceType|
            #[trigger] units_of(m1, t, kind) + load_of(r1, kind) + store_of(b1, kind)
                == units_of(m0, t, kind) + load_of(r0, kind) + store_of(b0, kind) by {}
        assert(conserved_around(m0, m1, b0, b1, r0, r1, t));
    }
}

/// Units of kind `kind` in the deposits at the positions of `s`.
pub open spec fn units_in(m: WorldMap, s: Set<Position>, kind: ResourceType) -> int
    decreases s.len(),
    when s.finite()
{
    if s.len() == 0 {
        0
    } else {
        let p = s.choose();
        units_of(m, p, kind) + units_in(m, s.remove(p), kind)
    }
}

/// Units of kind `kind` in all the deposits of the map.
pub open spec fn map_units(m: WorldMap, kind: ResourceType) -> int {
    units_in(m, m.resources@.dom(), kind)
}

/// The sum over `s` is the term at `t` plus the sum over the rest.
pub proof fn lemma_units_in_remove(m: WorldMap, s: Set<Position>, t: Position, kind: ResourceType)
    requires
        s.finite(),
        s.contains(t),
    ensures
        units_in(m, s, kind) == units_of(m, t, kind) + units_in(m, s.remove(t), kind),
    decreases s.len(),
{
    let p = s.choose();
    if p != t {
        lemma_units_in_remove(m, s.remove(p), t, kind);
        lemma_units_in_remove(m, s.remove(t), p, kind);
        assert(s.remove(p).remove(t) =~= s.remove(t).remove(p));
    }
}

/// Two maps whose deposits agree on `s` hold as many units over `s`.
pub proof fn lemma_units_in_agree(m0: WorldMap, m1: WorldMap, s: Set<Position>, kind: ResourceType)
    requires
        s.finite(),
        forall|p: Position| s.contains(p) ==> #[trigger] units_of(m1, p, kind) == units_of(m0, p, kind),
    ensures
        units_in(m1, s, kind) == units_in(m0, s, kind),
    decreases s.len(),
{
    if s.len() != 0 {
        let p = s.choose();
        lemma_units_in_agree(m0, m1, s.remove(p), kind);
    }
}

/// Positions with no units of the kind add nothing to a sum.
pub proof fn lemma_units_in_extend(m: WorldMap, s: Set<Position>, u: Set<Position>, kind: ResourceType)
    requires
        u.finite(),
        s.subset_of(u),
        forall|p: Position| u.contains(p) && !s.contains(p) ==> #[trigger] units_of(m, p, kind) == 0,
    ensures
        units_in(m, u, kind) == units_in(m, s, kind),
    decreases u.len(),
{
    if !(u =~= s) {
        let q = choose|q: Position| u.contains(q) && !s.contains(q);
        lemma_units_in_remove(m, u, q, kind);
        lemma_units_in_extend(m, s, u.remove(q), kind);
    }
}

/// Across a collector's turn, units of each kind are conserved over the
/// whole world: all the map's deposits, the collector's load and the base's
/// store hold together what they held before.
pub proof fn lemma_collector_turn_total(
    m0: WorldMap,
    m1: WorldMap,
    k0: Map<Position, (ResourceType, u32)>,
    k1: Map<Position, (ResourceType, u32)>,
    b0: Base,
    b1: Base,
    r0: Robot,
    r1: Robot,
    msg: Option<Message>,
    kind: ResourceType,
)
    requires
        collector_turn(m0, m1, k0, k1, b0, b1, r0, r1, msg),
        load_ok(r0),
        m0.wf(),
        m1.wf(),
    ensures
        map_units(m1, kind) + load_of(r1, kind) + store_of(b1, kind)
            == map_units(m0, kind) + load_of(r0, kind) + store_of(b0, kind),
{
    lemma_collector_turn_conserves(m0, m1, k0, k1, b0, b1, r0, r1, msg);
    let t = choose|t: Position| #[trigger] conserved_around(m0, m1, b0, b1, r0, r1, t);
    m0.resources.lemma_view();
    m1.resources.lemma_view();
    let d0 = m0.resources@.dom();
    let d1 = m1.resources@.dom();
    let u = d0.union(d1).insert(t);
    assert(u.finite());
    lemma_units_in_extend(m0, d0, u, kind);
    lemma_units_in_extend(m1, d1, u, kind);
    lemma_units_in_remove(m0, u, t, kind);
    lemma_units_in_remove(m1, u, t, kind);
    assert(units_of(m1, t, kind) + load_of(r1, kind) + store_of(b1, kind)
        == units_of(m0, t, kind) + load_of(r0, kind) + store_of(b0, kind));
    assert forall|p: Position| u.remove(t).contains(p) implies
        #[trigger] units_of(m1, p, kind) == units_of(m0, p, kind) by {
        assert(units_of(m1, p, kind) == units_of(m0, p, kind));
    }
    lemma_units_in_agree(m0, m1, u.remove(t), kind);
}

/// An empty-handed collector standing on its target where no units are
/// left forgets the target, and so does what is known: it stays where it
/// is, changes nothing on the map and reports nothing, and on a later turn
/// is free to choose another deposit.
pub proof fn lemma_empty_target_forgotten(
    m0: WorldMap,
    m1: WorldMap,
    k0: Map<Position, (ResourceType, u32)>,
    k1: Map<Position, (ResourceType, u32)>,
    b0: Base,
    b1: Base,
    r0: Robot,
    r1: Robot,
    msg: Option<Message>,
    t: Position,
)
    requires
        collector_turn(m0, m1, k0, k1, b0, b1, r0, r1, msg),
        r0.inventory == 0,
        r0.target == Some(t),
        r0.position == t,
        !(m0.resources@.contains_key(t) && m0.resources@[t].quantity > 0),
    ensures
        r1.target is None,
        r1.position == r0.position,
        r1.inventory == 0,
        !k1.contains_key(t),
        m1 == m0,
        b1 == b0,
        msg is None,
{
    let c = choose|c: Position| #[trigger] chosen_target(k0, r0, c)
        && target_outcome(m0, m1, k0, k1, r0, r1, c, msg);
    assert(c == t);
}

/// A collector's turn keeps its load sound: it never carries more than one
/// unit. A fresh collector's load is sound to start with.
pub proof fn lemma_collector_turn_load(
    m0: WorldMap,
    m1: WorldMap,
    k0: Map<Position, (ResourceType, u32)>,
    k1: Map<Position, (ResourceType, u32)>,
    b0: Base,
    b1: Base,
    r0: Robot,
    r1: Robot,
    msg: Option<Message>,
)
    requires
        collector_turn(m0, m1, k0, k1, b0, b1, r0, r1, msg),
        load_ok(r0),
    ensures
        load_ok(r1),
        forall|id: u32, p: Position, b: Position| load_ok(#[trigger] fresh_robot(id, RobotType::Collector, p, b)),
{
    if !(r0.inventory > 0) && !(r0.target is None && k0.dom().len() == 0) {
        let t = choose|t: Position| #[trigger] chosen_target(k0, r0, t)
            && target_outcome(m0, m1, k0, k1, r0, r1, t, msg);
    }
}

/// A collector's turn moves it at most one cell, along a row or a column,
/// onto the grid and onto no obstacle, given that its base and every
/// target it may pick are free of obstacles.
pub proof fn lemma_collector_turn_moves(
    m0: WorldMap,
    m1: WorldMap,
    k0: Map<Position, (ResourceType, u32)>,
    k1: Map<Position, (ResourceType, u32)>,
    b0: Base,
    b1: Base,
    r0: Robot,
    r1: Robot,
    msg: Option<Message>,
)
    requires
        collector_turn(m0, m1, k0, k1, b0, b1, r0, r1, msg),
        m0.cell(r0.base_position) != CellType::Obstacle,
        forall|t: Position| #[trigger] k0.contains_key(t) ==> m0.cell(t) != CellType::Obstacle,
        r0.target matches Some(t) ==> m0.cell(t) != CellType::Obstacle,
    ensures
        r1.position == r0.position || {
            &&& adjacent(r0.position, r1.position)
            &&& in_grid(r1.position, m0.width as int, m0.height as int)
            &&& m0.cell(r1.position) != CellType::Obstacle
        },
{
    if !(r0.inventory > 0) && !(r0.target is None && k0.dom().len() == 0) {
        let t = choose|t: Position| #[trigger] chosen_target(k0, r0, t)
            && target_outcome(m0, m1, k0, k1, r0, r1, t, msg);
        if r0.target is None {
            assert(k0.contains_key(t));
        }
    }
}

/// Units of kind `kind` that the robots of `rs` carry together.
pub open spec fn robots_load(rs: Seq<Robot>, kind: ResourceType) -> int
    decreases rs.len(),
{
    if rs.len() == 0 {
        0
    } else {
        robots_load(rs.drop_last(), kind) + load_of(rs.last(), kind)
    }
}

/// Replacing one robot changes what the robots carry by the difference in
/// its load alone.
pub proof fn lemma_robots_load_update(rs: Seq<Robot>, i: int, r: Robot, kind: ResourceType)
    requires
        0 <= i < rs.len(),
    ensures
        robots_load(rs.update(i, r), kind) == robots_load(rs, kind) - load_of(rs[i], kind) + load_of(r, kind),
    decreases rs.len(),
{
    let u = rs.update(i, r);
    if i == rs.len() - 1 {
        assert(u.drop_last() =~= rs.drop_last());
    } else {
        assert(u.drop_last() =~= rs.drop_last().update(i, r));
        lemma_robots_load_update(rs.drop_last(), i, r, kind);
    }
}

/// Robots that carry nothing carry no units of any kind.
pub proof fn lemma_robots_load_empty(rs: Seq<Robot>, kind: ResourceType)
    requires
        forall|i: int| 0 <= i < rs.len() ==> (#[trigger] rs[i]).inventory == 0,
    ensures
        robots_load(rs, kind) == 0,
    decreases rs.len(),
{
    if rs.len() > 0 {
        assert(rs.last() == rs[rs.len() - 1]);
        lemma_robots_load_empty(rs.drop_last(), kind);
    }
}

/// `m1` has the size of `m0` and obstacles on exactly the same cells.
pub open spec fn obstacles_kept(m0: WorldMap, m1: WorldMap) -> bool {
    &&& m1.width == m0.width
    &&& m1.height == m0.height
    &&& forall|p: Position| (#[trigger] m1.cell(p) == CellType::Obstacle) == (m0.cell(p) == CellType::Obstacle)
}

/// Every position that knowledge `k` names is free of obstacles on `m`.
pub open spec fn known_clear(m: WorldMap, k: Map<Position, (ResourceType, u32)>) -> bool {
    forall|t: Position| #[trigger] k.contains_key(t) ==> m.cell(t) != CellType::Obstacle
}

/// Robot `r`'s base and its target, if it has one, are free of obstacles
/// on `m`.
pub open spec fn robot_clear(m: WorldMap, r: Robot) -> bool {
    &&& m.cell(r.base_position) != CellType::Obstacle
    &&& r.target matches Some(t) ==> m.cell(t) != CellType::Obstacle
}

/// A report of a deposit names a position free of obstacles on `m`; other
/// reports name nothing that knowledge takes up.
pub open spec fn report_clear(m: WorldMap, msg: Message) -> bool {
    match msg {
        Message::ResourceDiscovered { position, .. } => m.cell(position) != CellType::Obstacle,
        _ => true,
    }
}

/// Each report of `msgs` is clear on `m`.
pub open spec fn reports_clear(m: WorldMap, msgs: Seq<Message>) -> bool {
    forall|i: int| 0 <= i < msgs.len() ==> #[trigger] report_clear(m, msgs[i])
}

/// Handling clear reports keeps knowledge clear: a discovery adds a clear
/// position, a collection only lowers or drops what is known.
pub proof fn lemma_apply_messages_clear(m: WorldMap, k: Map<Position, (ResourceType, u32)>, msgs: Seq<Message>)
    requires
        known_clear(m, k),
        reports_clear(m, msgs),
    ensures
        known_clear(m, apply_messages(k, msgs)),
    decreases msgs.len(),
{
    if msgs.len() > 0 {
        let rest = msgs.drop_last();
        assert forall|i: int| 0 <= i < rest.len() implies #[trigger] report_clear(m, rest[i]) by {
            assert(report_clear(m, msgs[i]));
        }
        lemma_apply_messages_clear(m, k, rest);
        assert(report_clear(m, msgs[msgs.len() - 1]));
    }
}

/// Reports clear on one map stay clear on a map with the same obstacles.
pub proof fn lemma_reports_clear_kept(m0: WorldMap, m1: WorldMap, msgs: Seq<Message>)
    requires
        obstacles_kept(m0, m1),
        reports_clear(m0, msgs),
    ensures
        reports_clear(m1, msgs),
{
    assert forall|i: int| 0 <= i < msgs.len() implies #[trigger] report_clear(m1, msgs[i]) by {
        assert(report_clear(m0, msgs[i]));
        match msgs[i] {
            Message::ResourceDiscovered { position, .. } => {
                assert(m1.cell(position) == CellType::Obstacle <==> m0.cell(position) == CellType::Obstacle);
            },
            _ => {},
        }
    }
}

/// Clear reports, joined, are clear.
pub proof fn lemma_reports_clear_add(m: WorldMap, a: Seq<Message>, b: Seq<Message>)
    requires
        reports_clear(m, a),
        reports_clear(m, b),
    ensures
        reports_clear(m, a + b),
{
    assert forall|i: int| 0 <= i < (a + b).len() implies #[trigger] report_clear(m, (a + b)[i]) by {
        if i < a.len() {
            assert(report_clear(m, a[i]));
        } else {
            assert(report_clear(m, b[i - a.len()]));
        }
    }
}

/// A collector's turn keeps obstacles where they were, and keeps what is
/// known, the collector's target and its base free of obstacles; whatever
/// it reports is clear.
pub proof fn lemma_collector_turn_clear(
    m0: WorldMap,
    m1: WorldMap,
    k0: Map<Position, (ResourceType, u32)>,
    k1: Map<Position, (ResourceType, u32)>,
    b0: Base,
    b1: Base,
    r0: Robot,
    r1: Robot,
    msg: Option<Message>,
)
    requires
        collector_turn(m0, m1, k0, k1, b0, b1, r0, r1, msg),
        m0.deposits_consistent(),
        known_clear(m0, k0),
        robot_clear(m0, r0),
    ensures
        obstacles_kept(m0, m1),
        known_clear(m1, k1),
        robot_clear(m1, r1),
        r1.base_position == r0.base_position,
        msg matches Some(x) ==> report_clear(m1, x),
{
    if !(r0.inventory > 0) && !(r0.target is None && k0.dom().len() == 0) {
        let t = choose|t: Position| #[trigger] chosen_target(k0, r0, t)
            && target_outcome(m0, m1, k0, k1, r0, r1, t, msg);
        if r0.target is None {
            assert(k0.contains_key(t));
        }
        assert(m0.cell(t) != CellType::Obstacle);
        if r0.position == t && m0.resources@.contains_key(t) && m0.resources@[t].quantity > 0 {
            assert(m0.cell(t) == cell_of(m0.resources@[t].resource_type));
            assert forall|p: Position| (#[trigger] m1.cell(p) == CellType::Obstacle)
                == (m0.cell(p) == CellType::Obstacle) by {}
            assert forall|q: Position| #[trigger] k1.contains_key(q) implies m1.cell(q) != CellType::Obstacle by {
                assert(k0.contains_key(q));
                assert(m1.cell(q) == CellType::Obstacle <==> m0.cell(q) == CellType::Obstacle);
            }
            assert(m1.cell(t) != CellType::Obstacle);
            assert(m1.cell(r0.base_position) == CellType::Obstacle
                <==> m0.cell(r0.base_position) == CellType::Obstacle);
        }
    }
}

impl Simulation {
    pub open spec fn wf(&self) -> bool {
        &&& self.map.wf()
        &&& self.shared_resources.wf()
    }

    /// Every robot's load is sound (see `load_ok`).
    pub open spec fn loads_ok(&self) -> bool {
        forall|i: int| 0 <= i < self.robots@.len() ==> #[trigger] load_ok(self.robots@[i])
    }

    /// Units of kind `kind` in the whole world: in the map's deposits, carried
    /// by the robots and stored at the base.
    pub open spec fn world_units(&self, kind: ResourceType) -> int {
        map_units(self.map, kind) + robots_load(self.robots@, kind) + store_of(self.base, kind)
    }

    /// Nothing the robots aim for lies on an obstacle: deposits and their
    /// cells agree, every known position is free of obstacles, and so is
    /// each robot's base and target.
    pub open spec fn plans_clear(&self) -> bool {
        &&& self.map.deposits_consistent()
        &&& known_clear(self.map, self.shared_resources@)
        &&& forall|i: int| 0 <= i < self.robots@.len() ==> #[trigger] robot_clear(self.map, self.robots@[i])
    }

    /// A new world on a `width` by `height` map generated from `obstacles`
    /// and `rng` (see `WorldMap::generate`), with `num_scouts` scouts and then
    /// `num_collectors` collectors, numbered from 0 and all at the base; and,
    /// drawn from `rng` after the map, a seed for each robot in turn.
    pub fn new(
        width: usize,
        height: usize,
        num_scouts: u32,
        num_collectors: u32,
        obstacles: &Vec<Vec<bool>>,
        rng: &mut ChaCha8Rng,
    ) -> (r: (Simulation, Vec<u64>))
        requires
            width > 0,
            height > 0,
            shaped(obstacles@, width as int, height as int),
            num_scouts + num_collectors <= u32::MAX,
        ensures
            r.0.wf(),
            r.0.map.generated_from(width, height, obstacles@),
            r.0.robots@.len() == num_scouts + num_collectors,
            forall|i: int| 0 <= i < num_scouts ==> #[trigger] r.0.robots@[i]
                == fresh_robot(i as u32, RobotType::Scout, r.0.map.base_position, r.0.map.base_position),
            forall|i: int| num_scouts <= i < num_scouts + num_collectors ==> #[trigger] r.0.robots@[i]
                == fresh_robot(i as u32, RobotType::Collector, r.0.map.base_position, r.0.map.base_position),
            r.0.base.energy() == 0,
            r.0.base.crystals() == 0,
            r.0.shared_resources@ == Map::<Position, (ResourceType, u32)>::empty(),
            r.0.running,
            r.0.turn == 0,
            r.1@.len() == num_scouts + num_collectors,
            r.0.plans_clear(),
            r.0.loads_ok(),
            forall|kind: ResourceType| #[trigger] r.0.world_units(kind) == map_units(r.0.map, kind),
    {
        let map = WorldMap::generate(width, height, obstacles, rng);
        let base_position = map.base_position;
        let mut robots: Vec<Robot> = Vec::new();
        let mut seeds: Vec<u64> = Vec::new();
        let mut i: u32 = 0;
        while i < num_scouts
            invariant
                i <= num_scouts,
                robots@.len() == i,
                seeds@.len() == i,
                forall|j: int| 0 <= j < i ==> #[trigger] robots@[j]
                    == fresh_robot(j as u32, RobotType::Scout, base_position, base_position),
            decreases num_scouts - i,
        {
            robots.push(Robot::new_scout(i, base_position, base_position));
            seeds.push(random_u64(rng));
            i = i + 1;
        }
        let mut c: u32 = 0;
        while c < num_collectors
            invariant
                num_scouts + num_collectors <= u32::MAX,
                c <= num_collectors,
                robots@.len() == num_scouts + c,
                seeds@.len() == num_scouts + c,
                forall|j: int| 0 <= j < num_scouts ==> #[trigger] robots@[j]
                    == fresh_robot(j as u32, RobotType::Scout, base_position, base_position),
                forall|j: int| num_scouts <= j < num_scouts + c ==> #[trigger] robots@[j]
                    == fresh_robot(j as u32, RobotType::Collector, base_position, base_position),
            decreases num_collectors - c,
        {
            robots.push(Robot::new_collector(num_scouts + c, base_position, base_position));
            seeds.push(random_u64(rng));
            c = c + 1;
        }
        let sim = Simulation {
            robots,
            base: Base::new(),
            shared_resources: PositionMap::new(),
            map,
            running: true,
            turn: 0,
        };
        proof {
            // the base lies in the cleared square at the centre
            assert(in_grid(base_position, width as int, height as int));
            assert(sim.map.cell(base_position) == CellType::Empty);
            assert forall|i: int| 0 <= i < sim.robots@.len() implies #[trigger] robot_clear(sim.map, sim.robots@[i]) by {
                if i < num_scouts {
                    assert(sim.robots@[i] == fresh_robot(i as u32, RobotType::Scout, base_position, base_position));
                } else {
                    assert(sim.robots@[i] == fresh_robot(i as u32, RobotType::Collector, base_position, base_position));
                }
            }
            assert forall|i: int| 0 <= i < sim.robots@.len() implies (#[trigger] sim.robots@[i]).inventory == 0
                && load_ok(sim.robots@[i]) by {
                if i < num_scouts {
                    assert(sim.robots@[i] == fresh_robot(i as u32, RobotType::Scout, base_position, base_position));
                } else {
                    assert(sim.robots@[i] == fresh_robot(i as u32, RobotType::Collector, base_position, base_position));
                }
            }
            assert forall|kind: ResourceType| #[trigger] sim.world_units(kind) == map_units(sim.map, kind) by {
                lemma_robots_load_empty(sim.robots@, kind);
            }
        }
        (sim, seeds)
    }

    /// A new tick: the turn count goes up by one and the messages, in order,
    /// update what is known of deposits.
    pub fn tick(&mut self, messages: Vec<Message>)
        requires
            old(self).wf(),
            old(self).turn < u32::MAX,
        ensures
            final(self).wf(),
            final(self).turn == old(self).turn + 1,
            final(self).shared_resources@ == apply_messages(old(self).shared_resources@, messages@),
            final(self).robots == old(self).robots,
            final(self).base == old(self).base,
            final(self).map == old(self).map,
            final(self).running == old(self).running,
            old(self).plans_clear() && reports_clear(old(self).map, messages@) ==> final(self).plans_clear(),
            old(self).loads_ok() ==> final(self).loads_ok(),
            forall|kind: ResourceType| #[trigger] final(self).world_units(kind) == old(self).world_units(kind),
    {
        self.turn = self.turn + 1;
        let mut i: usize = 0;
        while i < messages.len()
            invariant
                self.shared_resources.wf(),
                i <= messages@.len(),
                self.shared_resources@ == apply_messages(old(self).shared_resources@, messages@.take(i as int)),
                self.turn == old(self).turn + 1,
                self.robots == old(self).robots,
                self.base == old(self).base,
                self.map == old(self).map,
                self.running == old(self).running,
            decreases messages@.len() - i,
        {
            assert(messages@.take(i + 1).drop_last() =~= messages@.take(i as int));
            self.handle_message(messages[i]);
            i = i + 1;
        }
        assert(messages@.take(messages@.len() as int) =~= messages@);
        proof {
            if old(self).plans_clear() && reports_clear(old(self).map, messages@) {
                lemma_apply_messages_clear(self.map, old(self).shared_resources@, messages@);
            }
        }
    }

    /// Updates what is known of deposits from one message.
    fn handle_message(&mut self, msg: Message)
        requires
            old(self).shared_resources.wf(),
        ensures
            final(self).shared_resources.wf(),
            final(self).shared_resources@ == apply_message(old(self).shared_resources@, msg),
            final(self).turn == old(self).turn,
            final(self).robots == old(self).robots,
            final(self).base == old(self).base,
            final(self).map == old(self).map,
            final(self).running == old(self).running,
    {
        match msg {
            Message::ResourceDiscovered { position, resource_type, quantity, .. } => {
                self.handle_resource_discovered(position, resource_type, quantity);
            },
            Message::ResourceCollected { position, quantity, .. } => {
                self.handle_resource_collected(position, quantity);
            },
            Message::ResourceDepositedAtBase { .. } => {},
            Message::ObstacleDiscovered { .. } => {},
        }
    }

    fn handle_resource_discovered(&mut self, position: Position, resource_type: ResourceType, quantity: u32)
        requires
            old(self).shared_resources.wf(),
        ensures
            final(self).shared_resources.wf(),
            final(self).shared_resources@ == old(self).shared_resources@.insert(position, (resource_type, quantity)),
            final(self).turn == old(self).turn,
            final(self).robots == old(self).robots,
            final(self).base == old(self).base,
            final(self).map == old(self).map,
            final(self).running == old(self).running,
    {
        self.shared_resources.insert(position, (resource_type, quantity));
    }

    fn handle_resource_collected(&mut self, position: Position, quantity: u32)
        requires
            old(self).shared_resources.wf(),
        ensures
            final(self).shared_resources.wf(),
            final(self).shared_resources@ == apply_message(
                old(self).shared_resources@,
                (Message::ResourceCollected { robot_id: 0, position, resource_type: ResourceType::Energy, quantity }),
            ),
            final(self).turn == old(self).turn,
            final(self).robots == old(self).robots,
            final(self).base == old(self).base,
            final(self).map == old(self).map,
            final(self).running == old(self).running,
    {
        match self.shared_resources.get(position) {
            Some(entry) => {
                if entry.1 <= quantity {
                    self.shared_resources.remove(position);
                } else {
                    self.shared_resources.insert(position, (entry.0, entry.1 - quantity));
                }
            },
            None => {},
        }
    }

    /// One turn of the scout `robots[index]`: it looks at the eight cells
    /// around it, reports each obstacle among them and the deposit it stands
    /// on, then steps to a random one of them free of obstacles, if any, and
    /// reports the deposit it finds there.
    #[verifier::rlimit(30)]
    pub fn scout_step(&mut self, index: usize, rng: &mut ChaCha8Rng) -> (msgs: Vec<Message>)
        requires
            old(self).wf(),
            index < old(self).robots@.len(),
        ensures
            final(self).wf(),
            final(self).map == old(self).map,
            final(self).base == old(self).base,
            final(self).shared_resources == old(self).shared_resources,
            final(self).running == old(self).running,
            final(self).turn == old(self).turn,
            final(self).robots@.len() == old(self).robots@.len(),
            forall|j: int| 0 <= j < old(self).robots@.len() && j != index
                ==> #[trigger] final(self).robots@[j] == old(self).robots@[j],
            old(self).map.deposits_consistent() ==> reports_clear(old(self).map, msgs@),
            old(self).plans_clear() ==> final(self).plans_clear(),
            old(self).loads_ok() ==> final(self).loads_ok(),
            forall|kind: ResourceType| #[trigger] final(self).world_units(kind) == old(self).world_units(kind),
            ({
                let m = old(self).map;
                let r0 = old(self).robots@[index as int];
                let r1 = final(self).robots@[index as int];
                let nbs = spec_surrounding(r0.position, m.width as int, m.height as int);
                let free = cells_where(m, nbs, false);
                &&& r1 == (Robot { position: r1.position, ..r0 })
                &&& free.len() == 0 ==> r1.position == r0.position
                &&& free.len() > 0 ==> free.contains(r1.position)
                &&& msgs@ == obstacle_reports(r0.id, cells_where(m, nbs, true))
                    + discovery_report(r0.id, deposit_at(m, r0.position))
                    + if free.len() > 0 {
                        discovery_report(r0.id, match deposit_seen(m, r1.position) {
                            Some((rt, q)) => Some((r1.position, rt, q)),
                            None => None,
                        })
                    } else {
                        Seq::empty()
                    }
            }),
    {
        let mut robot = self.robots[index];
        let pos = robot.position;
        let id = robot.id;
        let (walkable, obstacles, resource_at) = scan_surroundings(&self.map, pos);
        let mut msgs: Vec<Message> = Vec::new();
        let mut i: usize = 0;
        while i < obstacles.len()
            invariant
                i <= obstacles@.len(),
                msgs@ == obstacle_reports(id, obstacles@.take(i as int)),
            decreases obstacles@.len() - i,
        {
            msgs.push(Message::ObstacleDiscovered { robot_id: id, position: obstacles[i] });
            assert(obstacles@.take(i + 1) =~= obstacles@.take(i as int).push(obstacles@[i as int]));
            assert(msgs@ =~= obstacle_reports(id, obstacles@.take(i + 1)));
            i = i + 1;
        }
        assert(obstacles@.take(obstacles@.len() as int) =~= obstacles@);
        let ghost after_obstacles = msgs@;
        if let Some((rpos, rt, qty)) = resource_at {
            msgs.push(Message::ResourceDiscovered { robot_id: id, position: rpos, resource_type: rt, quantity: qty });
        }
        assert(msgs@ =~= after_obstacles + discovery_report(id, deposit_at(self.map, pos)));
        let ghost before_move = msgs@;
        if let Some(next_pos) = choose_random_neighbor(rng, walkable.as_slice()) {
            if let Some((rt, qty)) = scan_resource_at(&self.map, next_pos) {
                msgs.push(Message::ResourceDiscovered { robot_id: id, position: next_pos, resource_type: rt, quantity: qty });
            }
            robot.position = next_pos;
        }
        self.robots.set(index, robot);
        proof {
            let r1 = self.robots@[index as int];
            if walkable@.len() > 0 {
                assert(msgs@ =~= before_move + discovery_report(id, match deposit_seen(self.map, r1.position) {
                    Some((rt, q)) => Some((r1.position, rt, q)),
                    None => None,
                }));
            } else {
                assert(msgs@ =~= before_move + Seq::empty());
            }
            let m = self.map;
            if m.deposits_consistent() {
                // obstacle reports add nothing to knowledge; the deposits
                // reported lie on cells that show them
                assert forall|j: int| 0 <= j < after_obstacles.len() implies
                    #[trigger] report_clear(m, after_obstacles[j]) by {
                    assert(after_obstacles[j] == Message::ObstacleDiscovered { robot_id: id, position: obstacles@[j] });
                }
                let here = discovery_report(id, deposit_at(m, pos));
                if m.resources@.contains_key(pos) && m.resources@[pos].quantity > 0 {
                    assert(m.cell(pos) == cell_of(m.resources@[pos].resource_type));
                    assert(report_clear(m, here[0]));
                }
                lemma_reports_clear_add(m, after_obstacles, here);
                let tail = msgs@.subrange(before_move.len() as int, msgs@.len() as int);
                assert(msgs@ =~= before_move + tail);
                assert forall|j: int| 0 <= j < tail.len() implies #[trigger] report_clear(m, tail[j]) by {
                    assert(deposit_seen(m, r1.position) is Some);
                }
                lemma_reports_clear_add(m, before_move, tail);
            }
            assert forall|j: int| 0 <= j < self.robots@.len() && old(self).plans_clear()
                implies #[trigger] robot_clear(self.map, self.robots@[j]) by {
                assert(robot_clear(old(self).map, old(self).robots@[j]));
            }
            assert(self.robots@ =~= old(self).robots@.update(index as int, r1));
            assert forall|j: int| 0 <= j < self.robots@.len() && old(self).loads_ok()
                implies #[trigger] load_ok(self.robots@[j]) by {
                assert(load_ok(old(self).robots@[j]));
            }
            assert forall|kind: ResourceType| #[trigger] self.world_units(kind) == old(self).world_units(kind) by {
                lemma_robots_load_update(old(self).robots@, index as int, r1, kind);
            }
        }
        msgs
    }

    /// One turn of the collector `robots[index]`: while it carries something
    /// it heads for the base and delivers there (see `return_outcome`);
    /// empty-handed it picks its target (see `chosen_target`) and works
    /// toward it (see `target_outcome`), or, knowing of nothing, drops its
    /// target. Returns the report to send, if any.
    pub fn collector_step(&mut self, index: usize, rng: &mut ChaCha8Rng) -> (msg: Option<Message>)
        requires
            old(self).wf(),
            index < old(self).robots@.len(),
            ({
                let r = old(self).robots@[index as int];
                r.inventory > 0 && r.position == r.base_position
                    ==> old(self).base.can_deposit(load_kind(r), r.inventory)
            }),
        ensures
            final(self).wf(),
            final(self).running == old(self).running,
            final(self).turn == old(self).turn,
            final(self).robots@.len() == old(self).robots@.len(),
            forall|j: int| 0 <= j < old(self).robots@.len() && j != index
                ==> #[trigger] final(self).robots@[j] == old(self).robots@[j],
            old(self).map.deposits_consistent() ==> final(self).map.deposits_consistent(),
            old(self).loads_ok() ==> final(self).loads_ok(),
            old(self).loads_ok() ==> forall|kind: ResourceType|
                #[trigger] final(self).world_units(kind) == old(self).world_units(kind),
            old(self).plans_clear() ==> {
                &&& final(self).plans_clear()
                &&& obstacles_kept(old(self).map, final(self).map)
                &&& msg matches Some(x) ==> report_clear(final(self).map, x)
                &&& ({
                    let p0 = old(self).robots@[index as int].position;
                    let p1 = final(self).robots@[index as int].position;
                    p1 == p0 || {
                        &&& adjacent(p0, p1)
                        &&& in_grid(p1, old(self).map.width as int, old(self).map.height as int)
                        &&& old(self).map.cell(p1) != CellType::Obstacle
                    }
                })
            },
            collector_turn(
                old(self).map,
                final(self).map,
                old(self).shared_resources@,
                final(self).shared_resources@,
                old(self).base,
                final(self).base,
                old(self).robots@[index as int],
                final(self).robots@[index as int],
                msg,
            ),
    {
        let mut robot = self.robots[index];
        let msg = if robot.inventory > 0 {
            let msg = handle_return_to_base(&mut robot, &self.map, &mut self.base);
            self.robots.set(index, robot);
            msg
        } else {
            let tgt = choose_target(robot.position, robot.target, &self.shared_resources, rng);
            match tgt {
                Some(t) => {
                    let msg = handle_collector_target(&mut robot, &mut self.map, &mut self.shared_resources, t);
                    self.robots.set(index, robot);
                    assert(chosen_target(old(self).shared_resources@, old(self).robots@[index as int], t));
                    msg
                },
                None => {
                    robot.target = None;
                    self.robots.set(index, robot);
                    None
                },
            }
        };
        proof {
            let m0 = old(self).map;
            let m1 = self.map;
            let r0 = old(self).robots@[index as int];
            let r1 = self.robots@[index as int];
            assert(self.robots@ =~= old(self).robots@.update(index as int, r1));
            if old(self).loads_ok() {
                assert(load_ok(r0));
                lemma_collector_turn_load(m0, m1, old(self).shared_resources@, self.shared_resources@,
                    old(self).base, self.base, r0, r1, msg);
                assert forall|j: int| 0 <= j < self.robots@.len() implies #[trigger] load_ok(self.robots@[j]) by {
                    assert(load_ok(old(self).robots@[j]));
                }
                assert forall|kind: ResourceType| #[trigger] self.world_units(kind) == old(self).world_units(kind) by {
                    lemma_collector_turn_total(m0, m1, old(self).shared_resources@, self.shared_resources@,
                        old(self).base, self.base, r0, r1, msg, kind);
                    lemma_robots_load_update(old(self).robots@, index as int, r1, kind);
                }
            }
            if old(self).plans_clear() {
                assert(robot_clear(m0, old(self).robots@[index as int]));
                lemma_collector_turn_clear(m0, m1, old(self).shared_resources@, self.shared_resources@,
                    old(self).base, self.base, old(self).robots@[index as int], self.robots@[index as int], msg);
                lemma_collector_turn_moves(m0, m1, old(self).shared_resources@, self.shared_resources@,
                    old(self).base, self.base, r0, r1, msg);
                assert forall|j: int| 0 <= j < self.robots@.len() implies #[trigger] robot_clear(m1, self.robots@[j]) by {
                    if j != index {
                        let r = old(self).robots@[j];
                        assert(robot_clear(m0, r));
                        assert(m1.cell(r.base_position) == CellType::Obstacle
                            <==> m0.cell(r.base_position) == CellType::Obstacle);
                        if let Some(t) = r.target {
                            assert(m1.cell(t) == CellType::Obstacle <==> m0.cell(t) == CellType::Obstacle);
                        }
                    }
                }
            }
        }
        msg
    }

    /// A copy of what the renderer needs: the map, each robot's number,
    /// position and kind in order, the base's stores and the turn count.
    pub fn get_snapshot(&self) -> (snap: RenderSnapshot)
        requires
            self.wf(),
        ensures
            snap.map.wf(),
            snap.map.same_as(self.map),
            snap.robot_positions@.len() == self.robots@.len(),
            forall|i: int| 0 <= i < self.robots@.len() ==> #[trigger] snap.robot_positions@[i]
                == (self.robots@[i].id, self.robots@[i].position, self.robots@[i].robot_type),
            snap.energy == self.base.energy(),
            snap.crystals == self.base.crystals(),
            snap.turn == self.turn,
    {
        let map = self.map.clone();
        let mut robot_positions: Vec<(u32, Position, RobotType)> = Vec::new();
        let mut i: usize = 0;
        while i < self.robots.len()
            invariant
                i <= self.robots@.len(),
                robot_positions@.len() == i,
                forall|j: int| 0 <= j < i ==> #[trigger] robot_positions@[j]
                    == (self.robots@[j].id, self.robots@[j].position, self.robots@[j].robot_type),
            decreases self.robots@.len() - i,
        {
            let r = self.robots[i];
            robot_positions.push((r.id, r.position, r.robot_type));
            i = i + 1;
        }
        RenderSnapshot {
            map,
            robot_positions,
            energy: self.base.get_total_energy(),
            crystals: self.base.get_total_crystals(),
            turn: self.turn,
        }
    }

    /// Asks the robots to stop.
    pub fn stop(&mut self)
        ensures
            !final(self).running,
            final(self).turn == old(self).turn,
            final(self).robots == old(self).robots,
            final(self).base == old(self).base,
            final(self).map == old(self).map,
            final(self).shared_resources == old(self).shared_resources,
    {
        self.running = false;
    }
}

} // verus!

use vstd::prelude::*;
use crate::posmap::PositionMap;
use crate::grid::{shaped, at, lemma_grid_set};
use crate::random::{random_usize_in, random_u32_through, random_ratio};
use rand_chacha::ChaCha8Rng;

verus! {

/// A cell of the grid, `x` counting columns and `y` counting rows.
#[derive(Debug, Clone, Copy, PartialEq, Eq, Hash, Structural)]
pub struct Position {
    pub x: usize,
    pub y: usize,
}

/// Whether `p` lies on a `width` by `height` grid.
pub open spec fn in_grid(p: Position, width: int, height: int) -> bool {
    p.x < width && p.y < height
}

/// Whether `a` and `b` are one step apart along a row or a column.
pub open spec fn adjacent(a: Position, b: Position) -> bool {
    ||| a.x == b.x && (a.y + 1 == b.y || b.y + 1 == a.y)
    ||| a.y == b.y && (a.x + 1 == b.x || b.x + 1 == a.x)
}

/// The cardinal neighbours of `p` that lie on the grid, in the order
/// up, down, left, right.
pub open spec fn spec_neighbors(p: Position, width: int, height: int) -> Seq<Position> {
    let up = if p.y >= 1 && p.x < width && p.y - 1 < height {
        seq![Position { x: p.x, y: (p.y - 1) as usize }]
    } else {
        Seq::empty()
    };
    let down = if p.y + 1 < height && p.x < width {
        seq![Position { x: p.x, y: (p.y + 1) as usize }]
    } else {
        Seq::empty()
    };
    let left = if p.x >= 1 && p.x - 1 < width && p.y < height {
        seq![Position { x: (p.x - 1) as usize, y: p.y }]
    } else {
        Seq::empty()
    };
    let right = if p.x + 1 < width && p.y < height {
        seq![Position { x: (p.x + 1) as usize, y: p.y }]
    } else {
        Seq::empty()
    };
    up + down + left + right
}

/// Whether `a` and `b` are distinct and at most one column and one row
/// apart: `b` is one of the eight cells around `a`.
pub open spec fn touching(a: Position, b: Position) -> bool {
    &&& a != b
    &&& a.x <= b.x + 1 && b.x <= a.x + 1
    &&& a.y <= b.y + 1 && b.y <= a.y + 1
}

/// The cell `dx` columns and `dy` rows away from `p`, as a list of one
/// when it lies on the grid and of none otherwise.
pub open spec fn offset_cell(p: Position, dx: int, dy: int, width: int, height: int) -> Seq<Position> {
    if 0 <= p.x + dx < width && 0 <= p.y + dy < height {
        seq![Position { x: (p.x + dx) as usize, y: (p.y + dy) as usize }]
    } else {
        Seq::empty()
    }
}

/// The cells around `p` that lie on the grid, row by row from the row
/// above to the row below, each row from left to right.
pub open spec fn spec_surrounding(p: Position, width: int, height: int) -> Seq<Position> {
    offset_cell(p, -1, -1, width, height) + offset_cell(p, 0, -1, width, height)
        + offset_cell(p, 1, -1, width, height) + offset_cell(p, -1, 0, width, height)
        + offset_cell(p, 1, 0, width, height) + offset_cell(p, -1, 1, width, height)
        + offset_cell(p, 0, 1, width, height) + offset_cell(p, 1, 1, width, height)
}

/// A list joined to another holds what either holds.
proof fn lemma_contains_add(a: Seq<Position>, b: Seq<Position>, q: Position)
    ensures
        (a + b).contains(q) <==> (a.contains(q) || b.contains(q)),
{
    let c = a + b;
    if c.contains(q) {
        let i = choose|i: int| 0 <= i < c.len() && c[i] == q;
        if i < a.len() {
            assert(a[i] == q);
        } else {
            assert(b[i - a.len()] == q);
        }
    }
    if a.contains(q) {
        let i = choose|i: int| 0 <= i < a.len() && a[i] == q;
        assert(c[i] == q);
    }
    if b.contains(q) {
        let i = choose|i: int| 0 <= i < b.len() && b[i] == q;
        assert(c[i + a.len()] == q);
    }
}

/// The cells around `p` are exactly the on-grid cells touching it.
pub proof fn lemma_surrounding(p: Position, w: usize, h: usize, q: Position)
    ensures
        spec_surrounding(p, w as int, h as int).contains(q) <==> (in_grid(q, w as int, h as int) && touching(p, q)),
{
    let width = w as int;
    let height = h as int;
    let s0 = offset_cell(p, -1, -1, width, height);
    let s1 = offset_cell(p, 0, -1, width, height);
    let s2 = offset_cell(p, 1, -1, width, height);
    let s3 = offset_cell(p, -1, 0, width, height);
    let s4 = offset_cell(p, 1, 0, width, height);
    let s5 = offset_cell(p, -1, 1, width, height);
    let s6 = offset_cell(p, 0, 1, width, height);
    let s7 = offset_cell(p, 1, 1, width, height);
    lemma_contains_add(s0, s1, q);
    lemma_contains_add(s0 + s1, s2, q);
    lemma_contains_add(s0 + s1 + s2, s3, q);
    lemma_contains_add(s0 + s1 + s2 + s3, s4, q);
    lemma_contains_add(s0 + s1 + s2 + s3 + s4, s5, q);
    lemma_contains_add(s0 + s1 + s2 + s3 + s4 + s5, s6, q);
    lemma_contains_add(s0 + s1 + s2 + s3 + s4 + s5 + s6, s7, q);
    assert forall|dx: int, dy: int| #[trigger] offset_cell(p, dx, dy, width, height).contains(q)
        <==> (0 <= p.x + dx < width && 0 <= p.y + dy < height && q.x == p.x + dx && q.y == p.y + dy) by {
        let c = offset_cell(p, dx, dy, width, height);
        if 0 <= p.x + dx < width && 0 <= p.y + dy < height {
            let e = Position { x: (p.x + dx) as usize, y: (p.y + dy) as usize };
            assert(c.len() == 1 && c[0] == e);
            if c.contains(q) {
                let i = choose|i: int| 0 <= i < c.len() && c[i] == q;
                assert(q == e);
            }
            if q.x == p.x + dx && q.y == p.y + dy {
                assert(q == e);
                assert(c[0] == q);
            }
        } else {
            assert(c.len() == 0);
        }
    }
    assert(s0.contains(q) == offset_cell(p, -1, -1, width, height).contains(q));
}

/// Appends the cell `dx - 1` columns and `dy - 1` rows away from `p`, if it
/// lies on the grid.
fn push_offset(out: &mut Vec<Position>, p: Position, dx: usize, dy: usize, width: usize, height: usize)
    requires
        dx <= 2,
        dy <= 2,
    ensures
        final(out)@ == old(out)@ + offset_cell(p, dx - 1, dy - 1, width as int, height as int),
{
    let x_ok = if dx == 0 { p.x >= 1 && p.x - 1 < width } else if dx == 1 { p.x < width } else { p.x < width && p.x + 1 < width };
    let y_ok = if dy == 0 { p.y >= 1 && p.y - 1 < height } else if dy == 1 { p.y < height } else { p.y < height && p.y + 1 < height };
    if x_ok && y_ok {
        let nx = if dx == 0 { p.x - 1 } else if dx == 1 { p.x } else { p.x + 1 };
        let ny = if dy == 0 { p.y - 1 } else if dy == 1 { p.y } else { p.y + 1 };
        assert(nx == p.x + (dx - 1) && ny == p.y + (dy - 1));
        out.push(Position::new(nx, ny));
        assert(out@ =~= old(out)@ + offset_cell(p, dx - 1, dy - 1, width as int, height as int));
    } else {
        assert(!(0 <= p.x + (dx - 1) < width && 0 <= p.y + (dy - 1) < height));
        assert(out@ =~= old(out)@ + offset_cell(p, dx - 1, dy - 1, width as int, height as int));
    }
}

impl Position {
    pub fn new(x: usize, y: usize) -> (p: Position)
        ensures
            p.x == x,
            p.y == y,
    {
        Position { x, y }
    }

    /// The neighbours of this position, one step up, down, left or right,
    /// that lie on a `width` by `height` grid, in that order.
    pub fn neighbors_cardinal(&self, width: usize, height: usize) -> (out: Vec<Position>)
        ensures
            out@ == spec_neighbors(*self, width as int, height as int),
    {
        let mut out: Vec<Position> = Vec::new();
        let x = self.x;
        let y = self.y;
        if y >= 1 && x < width && y - 1 < height {
            out.push(Position::new(x, y - 1));
        }
        if y < height && y + 1 < height && x < width {
            out.push(Position::new(x, y + 1));
        }
        if x >= 1 && x - 1 < width && y < height {
            out.push(Position::new(x - 1, y));
        }
        if x < width && x + 1 < width && y < height {
            out.push(Position::new(x + 1, y));
        }
        out
    }

    /// The eight cells around this position that lie on a `width` by
    /// `height` grid, row by row from the row above to the row below, each
    /// row from left to right.
    pub fn neighbors_around(&self, width: usize, height: usize) -> (out: Vec<Position>)
        ensures
            out@ == spec_surrounding(*self, width as int, height as int),
    {
        let mut out: Vec<Position> = Vec::new();
        let p = *self;
        push_offset(&mut out, p, 0, 0, width, height);
        push_offset(&mut out, p, 1, 0, width, height);
        push_offset(&mut out, p, 2, 0, width, height);
        push_offset(&mut out, p, 0, 1, width, height);
        push_offset(&mut out, p, 2, 1, width, height);
        push_offset(&mut out, p, 0, 2, width, height);
        push_offset(&mut out, p, 1, 2, width, height);
        push_offset(&mut out, p, 2, 2, width, height);
        assert(out@ =~= spec_surrounding(p, width as int, height as int));
        out
    }
}


/// What a cell of the grid holds.
#[derive(Debug, Clone, Copy, PartialEq, Eq, Structural)]
pub enum CellType {
    Empty,
    Obstacle,
    Energy,
    Crystal,
}

/// The two kinds of resource that robots collect.
#[derive(Debug, Clone, Copy, PartialEq, Eq, Structural)]
pub enum ResourceType {
    Energy,
    Crystal,
}

/// A deposit on the map: its kind and the units left in it.
#[derive(Debug, Clone, Copy, PartialEq, Eq, Structural)]
pub struct Resource {
    pub resource_type: ResourceType,
    pub quantity: u32,
}

/// How many deposits map generation tries to place.
pub const NUM_RESOURCES: usize = 15;

/// How many random cells map generation tries for each deposit.
pub const MAX_ATTEMPTS: u32 = 2000;

/// The fewest units a new deposit holds.
pub const MIN_QUANTITY: u32 = 50;

/// The most units a new deposit holds.
pub const MAX_QUANTITY: u32 = 200;

/// Whether `p` lies within `r` columns and `r` rows of `c`.
pub open spec fn within_square(p: Position, c: Position, r: int) -> bool {
    &&& p.x - c.x <= r
    &&& c.x - p.x <= r
    &&& p.y - c.y <= r
    &&& c.y - p.y <= r
}

/// Whether `a` and `b` are at most `r` apart in each coordinate.
fn close(a: usize, b: usize, r: usize) -> (c: bool)
    ensures
        c == (a - b <= r && b - a <= r),
{
    if a >= b {
        a - b <= r
    } else {
        b - a <= r
    }
}

/// The kind of deposit a coin picks: energy on `true`, crystal on `false`.
pub open spec fn kind_of(energy: bool) -> ResourceType {
    if energy { ResourceType::Energy } else { ResourceType::Crystal }
}

/// Whether a deposit may go at column `x` of row `y`: the cell is empty and
/// more than 3 columns or rows from the base.
pub fn can_place(
    cells: &Vec<Vec<CellType>>,
    width: usize,
    height: usize,
    base: Position,
    x: usize,
    y: usize,
) -> (ok: bool)
    requires
        shaped(cells@, width as int, height as int),
        x < width,
        y < height,
    ensures
        ok == (at(cells@, Position { x, y }) == CellType::Empty
            && !within_square(Position { x, y }, base, 3)),
{
    let near = close(x, base.x, 3) && close(y, base.y, 3);
    assert(cells@[y as int]@.len() == width);
    cells[y][x] == CellType::Empty && !near
}

/// Puts a deposit of `quantity` units at `pos`, of the kind `energy` picks:
/// its cell shows the kind and the table binds `pos` to the deposit.
pub fn place_deposit(
    cells: &mut Vec<Vec<CellType>>,
    resources: &mut PositionMap<Resource>,
    width: usize,
    height: usize,
    pos: Position,
    energy: bool,
    quantity: u32,
)
    requires
        shaped(old(cells)@, width as int, height as int),
        in_grid(pos, width as int, height as int),
        old(resources).wf(),
    ensures
        shaped(final(cells)@, width as int, height as int),
        final(resources).wf(),
        final(resources)@ == old(resources)@.insert(pos, Resource { resource_type: kind_of(energy), quantity }),
        forall|p: Position| in_grid(p, width as int, height as int) ==> #[trigger] at(final(cells)@, p)
            == if p == pos { cell_of(kind_of(energy)) } else { at(old(cells)@, p) },
{
    let resource_type = if energy { ResourceType::Energy } else { ResourceType::Crystal };
    let cell = match resource_type {
        ResourceType::Energy => CellType::Energy,
        ResourceType::Crystal => CellType::Crystal,
    };
    let ghost before = cells@;
    assert(cells@[pos.y as int]@.len() == width);
    cells[pos.y][pos.x] = cell;
    proof {
        lemma_grid_set(before, cells@[pos.y as int], width as int, height as int, pos, cell);
        assert(cells@ == before.update(pos.y as int, cells@[pos.y as int]));
    }
    resources.insert(pos, Resource { resource_type, quantity });
}

/// What the mask leaves at `p` before any deposit: an obstacle where it
/// marks one outside the 3 by 3 square round `base`, else an empty cell.
pub open spec fn terrain(obstacles: Seq<Vec<bool>>, base: Position, p: Position) -> CellType {
    if at(obstacles, p) && !within_square(p, base, 1) { CellType::Obstacle } else { CellType::Empty }
}

/// Whether a deposit may go at `p` when the deposits `res` are in place:
/// on the grid, on an empty cell of the terrain that holds no deposit yet,
/// and more than 3 columns or rows from the base.
pub open spec fn placeable(
    obstacles: Seq<Vec<bool>>,
    width: int,
    height: int,
    base: Position,
    res: Map<Position, Resource>,
    p: Position,
) -> bool {
    &&& in_grid(p, width, height)
    &&& terrain(obstacles, base, p) == CellType::Empty
    &&& !res.contains_key(p)
    &&& !within_square(p, base, 3)
}

/// One round of placing a deposit, from the deposits `res0` to `res1`:
/// the draws of `round` (a cell, and the coin and quantity drawn for it)
/// are tried in order, each on the grid. Every draw but the last could not
/// be placed. If the last can, the deposit of the drawn kind and quantity
/// goes there; if not, the round used up all `MAX_ATTEMPTS` draws and
/// nothing changes.
pub open spec fn round_result(
    obstacles: Seq<Vec<bool>>,
    width: int,
    height: int,
    base: Position,
    res0: Map<Position, Resource>,
    round: Seq<(Position, bool, u32)>,
    res1: Map<Position, Resource>,
) -> bool {
    &&& 1 <= round.len() <= MAX_ATTEMPTS
    &&& forall|i: int| 0 <= i < round.len() ==> in_grid(#[trigger] round[i].0, width, height)
    &&& forall|i: int| 0 <= i < round.len() - 1 ==> !placeable(obstacles, width, height, base, res0, #[trigger] round[i].0)
    &&& if placeable(obstacles, width, height, base, res0, round.last().0) {
        &&& MIN_QUANTITY <= round.last().2 <= MAX_QUANTITY
        &&& res1 == res0.insert(round.last().0, Resource { resource_type: kind_of(round.last().1), quantity: round.last().2 })
    } else {
        &&& round.len() == MAX_ATTEMPTS
        &&& res1 == res0
    }
}

/// A record of generation: `NUM_RESOURCES` rounds, each taking the deposits
/// from one state of `states` to the next, starting from none.
pub open spec fn generation_record(
    obstacles: Seq<Vec<bool>>,
    width: int,
    height: int,
    base: Position,
    rounds: Seq<Seq<(Position, bool, u32)>>,
    states: Seq<Map<Position, Resource>>,
) -> bool {
    &&& rounds.len() == NUM_RESOURCES
    &&& states.len() == rounds.len() + 1
    &&& states[0] == Map::<Position, Resource>::empty()
    &&& forall|n: int| 0 <= n < rounds.len() ==>
        #[trigger] round_result(obstacles, width, height, base, states[n], rounds[n], states[n + 1])
}

/// One draw of map generation at column `x` of row `y`: where a deposit may
/// go (see `can_place`), a fair coin picks its kind and its units are drawn
/// from `MIN_QUANTITY` to `MAX_QUANTITY`, and it is placed (see
/// `place_deposit`); the coin and units drawn come back. Elsewhere nothing
/// is drawn or changed and `None` comes back.
pub fn try_place(
    cells: &mut Vec<Vec<CellType>>,
    resources: &mut PositionMap<Resource>,
    width: usize,
    height: usize,
    base: Position,
    x: usize,
    y: usize,
    rng: &mut ChaCha8Rng,
) -> (drawn: Option<(bool, u32)>)
    requires
        shaped(old(cells)@, width as int, height as int),
        x < width,
        y < height,
        old(resources).wf(),
    ensures
        shaped(final(cells)@, width as int, height as int),
        final(resources).wf(),
        drawn is Some <==> (at(old(cells)@, Position { x, y }) == CellType::Empty
            && !within_square(Position { x, y }, base, 3)),
        drawn is None ==> final(cells)@ == old(cells)@ && final(resources)@ == old(resources)@
            && *final(rng) == *old(rng),
        drawn matches Some((energy, quantity)) ==> {
            &&& MIN_QUANTITY <= quantity <= MAX_QUANTITY
            &&& final(resources)@ == old(resources)@.insert(Position { x, y },
                Resource { resource_type: kind_of(energy), quantity })
            &&& forall|p: Position| in_grid(p, width as int, height as int) ==> #[trigger] at(final(cells)@, p)
                == if p == (Position { x, y }) { cell_of(kind_of(energy)) } else { at(old(cells)@, p) }
        },
{
    if can_place(cells, width, height, base, x, y) {
        // a fair coin: the chance of one in two
        let energy = random_ratio(rng, 1, 2);
        let quantity = random_u32_through(rng, MIN_QUANTITY, MAX_QUANTITY);
        place_deposit(cells, resources, width, height, Position::new(x, y), energy, quantity);
        Some((energy, quantity))
    } else {
        None
    }
}

/// The cell that marks a deposit of the given kind.
pub open spec fn cell_of(rt: ResourceType) -> CellType {
    match rt {
        ResourceType::Energy => CellType::Energy,
        ResourceType::Crystal => CellType::Crystal,
    }
}

/// A `width` by `height` grid of cells, the deposits on it and the base.
pub struct WorldMap {
    pub width: usize,
    pub height: usize,
    /// `cells[y][x]` is the cell at column `x` of row `y`.
    pub cells: Vec<Vec<CellType>>,
    pub resources: PositionMap<Resource>,
    pub base_position: Position,
}

impl WorldMap {
    /// The grid has `height` rows of `width` cells each.
    pub open spec fn grid_ok(&self) -> bool {
        shaped(self.cells@, self.width as int, self.height as int)
    }

    /// The grid is shaped, the table of deposits is sound, and every deposit
    /// lies on the grid.
    pub open spec fn wf(&self) -> bool {
        &&& shaped(self.cells@, self.width as int, self.height as int)
        &&& self.resources.wf()
        &&& forall|p: Position| #[trigger] self.resources@.contains_key(p)
            ==> in_grid(p, self.width as int, self.height as int)
    }

    /// The cell at `p`; off the grid everything counts as an obstacle.
    pub open spec fn cell(&self, p: Position) -> CellType {
        if in_grid(p, self.width as int, self.height as int) {
            at(self.cells@, p)
        } else {
            CellType::Obstacle
        }
    }

    /// Deposits and their cells agree: each deposit lies on the grid, is
    /// marked by the cell of its kind and holds at least one unit, and each
    /// energy or crystal cell marks a deposit.
    pub open spec fn deposits_consistent(&self) -> bool {
        &&& forall|p: Position| #[trigger] self.resources@.contains_key(p) ==> {
            &&& in_grid(p, self.width as int, self.height as int)
            &&& self.cell(p) == cell_of(self.resources@[p].resource_type)
            &&& self.resources@[p].quantity > 0
        }
        &&& forall|p: Position|
            (#[trigger] self.cell(p) == CellType::Energy || self.cell(p) == CellType::Crystal)
                ==> self.resources@.contains_key(p)
    }

    /// What a map generated from `obstacles` holds: the given size, the base
    /// at the centre, the marked obstacles but for the 3 by 3 square round the
    /// base, and at most `NUM_RESOURCES` consistent deposits, each on a cell
    /// more than 3 columns or rows from the base and with `MIN_QUANTITY` to
    /// `MAX_QUANTITY` units, as a record of the draws made shows (see
    /// `generation_record`).
    pub open spec fn generated_from(&self, width: usize, height: usize, obstacles: Seq<Vec<bool>>) -> bool {
        &&& self.wf()
        &&& self.width == width
        &&& self.height == height
        &&& self.base_position == (Position { x: width / 2, y: height / 2 })
        &&& self.deposits_consistent()
        &&& forall|p: Position| in_grid(p, width as int, height as int) ==>
            (#[trigger] self.cell(p) == CellType::Obstacle
                <==> (at(obstacles, p) && !within_square(p, self.base_position, 1)))
        &&& forall|p: Position| in_grid(p, width as int, height as int)
            && within_square(p, self.base_position, 1) ==> #[trigger] self.cell(p) == CellType::Empty
        &&& forall|p: Position| #[trigger] self.resources@.contains_key(p) ==> {
            &&& !within_square(p, self.base_position, 3)
            &&& !at(obstacles, p)
            &&& MIN_QUANTITY <= self.resources@[p].quantity <= MAX_QUANTITY
        }
        &&& self.resources@.len() <= NUM_RESOURCES
        &&& exists|rounds: Seq<Seq<(Position, bool, u32)>>, states: Seq<Map<Position, Resource>>| {
            &&& #[trigger] generation_record(obstacles, width as int, height as int, self.base_position, rounds, states)
            &&& states.last() == self.resources@
        }
    }

    /// A new map: the obstacles that `obstacles` marks (`obstacles[y][x]`
    /// for column `x` of row `y`), but none in the 3 by 3 square around the
    /// base at the centre; then up to `NUM_RESOURCES` deposits, each tried at
    /// up to `MAX_ATTEMPTS` random cells until one is empty and more than 3
    /// columns or rows from the base, of a kind picked by a fair coin and with
    /// `MIN_QUANTITY` to `MAX_QUANTITY` units.
    pub fn generate(
        width: usize,
        height: usize,
        obstacles: &Vec<Vec<bool>>,
        rng: &mut ChaCha8Rng,
    ) -> (m: WorldMap)
        requires
            width > 0,
            height > 0,
            shaped(obstacles@, width as int, height as int),
        ensures
            m.generated_from(width, height, obstacles@),
    {
        let base_x = width / 2;
        let base_y = height / 2;
        let base = Position::new(base_x, base_y);
        // The obstacles, with the 3 by 3 square round the base cleared so
        // that robots can always spawn and return.
        let mut cells: Vec<Vec<CellType>> = Vec::new();
        let mut y: usize = 0;
        while y < height
            invariant
                y <= height,
                base == (Position { x: width / 2, y: height / 2 }),
                base_x == base.x,
                base_y == base.y,
                shaped(obstacles@, width as int, height as int),
                cells@.len() == y,
                forall|r: int| 0 <= r < y ==> (#[trigger] cells@[r])@.len() == width,
                forall|p: Position| p.y < y && p.x < width ==>
                    #[trigger] at(cells@, p) == if at(obstacles@, p) && !within_square(p, base, 1) {
                        CellType::Obstacle
                    } else {
                        CellType::Empty
                    },
            decreases height - y,
        {
            let mut row: Vec<CellType> = Vec::new();
            let mut x: usize = 0;
            while x < width
                invariant
                    x <= width,
                    y < height,
                    base == (Position { x: width / 2, y: height / 2 }),
                    base_x == base.x,
                    base_y == base.y,
                    shaped(obstacles@, width as int, height as int),
                    row@.len() == x,
                    forall|c: int| 0 <= c < x ==>
                        #[trigger] row@[c] == if at(obstacles@, (Position { x: c as usize, y: y }))
                            && !within_square((Position { x: c as usize, y: y }), base, 1) {
                            CellType::Obstacle
                        } else {
                            CellType::Empty
                        },
                decreases width - x,
            {
                assert(obstacles@[y as int]@.len() == width);
                let near = close(x, base_x, 1) && close(y, base_y, 1);
                let ghost q = Position { x: x, y: y };
                assert(near == within_square(q, base, 1));
                assert(obstacles@[y as int]@[x as int] == at(obstacles@, q));
                if obstacles[y][x] && !near {
                    row.push(CellType::Obstacle);
                } else {
                    row.push(CellType::Empty);
                }
                x = x + 1;
            }
            let ghost before = cells@;
            let ghost row_v = row@;
            assert forall|c: int| 0 <= c < width implies
                #[trigger] row_v[c] == if at(obstacles@, (Position { x: c as usize, y: y }))
                    && !within_square((Position { x: c as usize, y: y }), base, 1) {
                    CellType::Obstacle
                } else {
                    CellType::Empty
                } by {
                assert(row@[c] == row_v[c]);
            }
            cells.push(row);
            assert(cells@[y as int]@ == row_v);
            proof {
                assert forall|p: Position| p.y < y + 1 && p.x < width implies
                    #[trigger] at(cells@, p) == if at(obstacles@, p) && !within_square(p, base, 1) {
                        CellType::Obstacle
                    } else {
                        CellType::Empty
                    } by {
                    if p.y < y {
                        assert(cells@[p.y as int] == before[p.y as int]);
                        assert(at(cells@, p) == at(before, p));
                    } else {
                        let c = p.x as int;
                        assert(p.y == y);
                        assert((Position { x: c as usize, y: y }) == p);
                        assert(row_v[c] == at(cells@, p));
                        assert(0 <= c < width);
                        assert(row_v[c] == if at(obstacles@, (Position { x: c as usize, y: y }))
                            && !within_square((Position { x: c as usize, y: y }), base, 1) {
                            CellType::Obstacle
                        } else {
                            CellType::Empty
                        });
                    }
                }
            }
            y = y + 1;
        }
        let mut resources: PositionMap<Resource> = PositionMap::new();
        // the draws made so far, round by round, and the deposits before and
        // after each round
        let ghost mut rounds: Seq<Seq<(Position, bool, u32)>> = Seq::empty();
        let ghost mut states: Seq<Map<Position, Resource>> = seq![Map::<Position, Resource>::empty()];
        let mut n: usize = 0;
        while n < NUM_RESOURCES
            invariant
                width > 0,
                height > 0,
                base == (Position { x: width / 2, y: height / 2 }),
                base_x == base.x,
                base_y == base.y,
                shaped(obstacles@, width as int, height as int),
                shaped(cells@, width as int, height as int),
                resources.wf(),
                resources@.len() <= n,
                n <= NUM_RESOURCES,
                forall|p: Position| in_grid(p, width as int, height as int) ==>
                    #[trigger] at(cells@, p) == if resources@.contains_key(p) {
                        cell_of(resources@[p].resource_type)
                    } else {
                        terrain(obstacles@, base, p)
                    },
                forall|p: Position| #[trigger] resources@.contains_key(p) ==> {
                    &&& in_grid(p, width as int, height as int)
                    &&& !within_square(p, base, 3)
                    &&& !at(obstacles@, p)
                    &&& MIN_QUANTITY <= resources@[p].quantity <= MAX_QUANTITY
                },
                rounds.len() == n,
                states.len() == n + 1,
                states[0] == Map::<Position, Resource>::empty(),
                states.last() == resources@,
                forall|k: int| 0 <= k < n ==> #[trigger] round_result(obstacles@, width as int, height as int,
                    base, states[k], rounds[k], states[k + 1]),
            decreases NUM_RESOURCES - n,
        {
            let ghost res0 = resources@;
            let ghost mut round: Seq<(Position, bool, u32)> = Seq::empty();
            let mut attempts: u32 = 0;
            let mut placed = false;
            while attempts < MAX_ATTEMPTS && !placed
                invariant
                    width > 0,
                    height > 0,
                    base == (Position { x: width / 2, y: height / 2 }),
                    shaped(obstacles@, width as int, height as int),
                    shaped(cells@, width as int, height as int),
                    resources.wf(),
                    res0.len() <= n,
                    n < NUM_RESOURCES,
                    attempts <= MAX_ATTEMPTS,
                    forall|p: Position| in_grid(p, width as int, height as int) ==>
                        #[trigger] at(cells@, p) == if resources@.contains_key(p) {
                            cell_of(resources@[p].resource_type)
                        } else {
                            terrain(obstacles@, base, p)
                        },
                    forall|p: Position| #[trigger] resources@.contains_key(p) ==> {
                        &&& in_grid(p, width as int, height as int)
                        &&& !within_square(p, base, 3)
                        &&& !at(obstacles@, p)
                        &&& MIN_QUANTITY <= resources@[p].quantity <= MAX_QUANTITY
                    },
                    round.len() == attempts,
                    forall|i: int| 0 <= i < round.len() ==> in_grid(#[trigger] round[i].0, width as int, height as int),
                    !placed ==> resources@ == res0,
                    !placed ==> forall|i: int| 0 <= i < round.len()
                        ==> !placeable(obstacles@, width as int, height as int, base, res0, #[trigger] round[i].0),
                    placed ==> round_result(obstacles@, width as int, height as int, base, res0, round, resources@),
                    placed ==> resources@.len() == res0.len() + 1,
                decreases MAX_ATTEMPTS - attempts,
            {
                attempts = attempts + 1;
                let x = random_usize_in(rng, 0, width);
                let y = random_usize_in(rng, 0, height);
                let pos = Position::new(x, y);
                let ghost cells_before = cells@;
                proof {
                    resources.lemma_view();
                    // an empty cell away from the base is exactly a place for a deposit
                    assert(in_grid(pos, width as int, height as int));
                    assert(at(cells@, pos) == if res0.contains_key(pos) {
                        cell_of(res0[pos].resource_type)
                    } else {
                        terrain(obstacles@, base, pos)
                    });
                    assert((at(cells@, pos) == CellType::Empty && !within_square(pos, base, 3))
                        == placeable(obstacles@, width as int, height as int, base, res0, pos));
                }
                let drawn = try_place(&mut cells, &mut resources, width, height, base, x, y, rng);
                match drawn {
                    Some((energy, quantity)) => {
                        proof {
                            round = round.push((pos, energy, quantity));
                            assert(!res0.contains_key(pos));
                            assert(resources@.len() == res0.len() + 1);
                            assert forall|p: Position| in_grid(p, width as int, height as int) implies
                                #[trigger] at(cells@, p) == if resources@.contains_key(p) {
                                    cell_of(resources@[p].resource_type)
                                } else {
                                    terrain(obstacles@, base, p)
                                } by {
                                assert(at(cells_before, p) == if res0.contains_key(p) {
                                    cell_of(res0[p].resource_type)
                                } else {
                                    terrain(obstacles@, base, p)
                                });
                            }
                            assert forall|p: Position| #[trigger] resources@.contains_key(p) implies {
                                &&& in_grid(p, width as int, height as int)
                                &&& !within_square(p, base, 3)
                                &&& !at(obstacles@, p)
                                &&& MIN_QUANTITY <= resources@[p].quantity <= MAX_QUANTITY
                            } by {
                                if p != pos {
                                    assert(res0.contains_key(p));
                                }
                            }
                            assert(round.last() == (pos, energy, quantity));
                            assert(round_result(obstacles@, width as int, height as int, base, res0, round, resources@));
                        }
                        placed = true;
                    },
                    None => {
                        proof {
                            round = round.push((pos, false, 0u32));
                        }
                    },
                }
            }
            proof {
                if !placed {
                    assert(attempts == MAX_ATTEMPTS);
                    assert(round.len() >= 1);
                    assert(round_result(obstacles@, width as int, height as int, base, res0, round, resources@));
                }
                let ghost states0 = states;
                let ghost rounds0 = rounds;
                rounds = rounds.push(round);
                states = states.push(resources@);
                assert forall|k: int| 0 <= k < n + 1 implies #[trigger] round_result(obstacles@, width as int,
                    height as int, base, states[k], rounds[k], states[k + 1]) by {
                    if k < n {
                        assert(states[k] == states0[k]);
                        assert(states[k + 1] == states0[k + 1]);
                        assert(rounds[k] == rounds0[k]);
                    } else {
                        assert(states[k] == res0);
                    }
                }
            }
            n = n + 1;
        }
        proof {
            assert(generation_record(obstacles@, width as int, height as int, base, rounds, states));
            resources.lemma_view();
        }
        let m = WorldMap {
            width,
            height,
            cells,
            resources,
            base_position: base,
        };
        proof {
            assert forall|p: Position| #[trigger] m.resources@.contains_key(p) implies {
                &&& in_grid(p, m.width as int, m.height as int)
                &&& m.cell(p) == cell_of(m.resources@[p].resource_type)
                &&& m.resources@[p].quantity > 0
            } by {}
            assert forall|p: Position| (#[trigger] m.cell(p) == CellType::Energy || m.cell(p) == CellType::Crystal)
                implies m.resources@.contains_key(p) by {}
            assert forall|p: Position| in_grid(p, width as int, height as int) implies
                (#[trigger] m.cell(p) == CellType::Obstacle
                    <==> (at(obstacles@, p) && !within_square(p, m.base_position, 1))) by {
                if m.resources@.contains_key(p) {
                    assert(!within_square(p, base, 1));
                }
            }
            assert(states.last() == m.resources@);
            assert(generation_record(obstacles@, width as int, height as int, m.base_position, rounds, states));
        }
        m
    }

    /// The cell at `pos`, or `Obstacle` where `pos` is off the grid.
    pub fn get_cell(&self, pos: Position) -> (c: CellType)
        requires
            self.grid_ok(),
        ensures
            c == self.cell(pos),
    {
        if pos.x < self.width && pos.y < self.height {
            self.cells[pos.y][pos.x]
        } else {
            CellType::Obstacle
        }
    }
}

impl WorldMap {
    /// Whether `other` holds the same grid, deposits and base as this map.
    pub open spec fn same_as(&self, other: WorldMap) -> bool {
        &&& self.width == other.width
        &&& self.height == other.height
        &&& self.base_position == other.base_position
        &&& self.resources@ == other.resources@
        &&& forall|p: Position| #[trigger] self.cell(p) == other.cell(p)
    }
}

impl Clone for WorldMap {
    /// A copy of the grid, the deposits and the base.
    fn clone(&self) -> (r: Self)
        ensures
            self.wf() ==> r.wf() && r.same_as(*self),
    {
        let mut cells: Vec<Vec<CellType>> = Vec::new();
        let mut y: usize = 0;
        while y < self.cells.len()
            invariant
                y <= self.cells@.len(),
                cells@.len() == y,
                forall|r: int| 0 <= r < y ==> (#[trigger] cells@[r])@ == self.cells@[r]@,
            decreases self.cells@.len() - y,
        {
            let src = &self.cells[y];
            let mut row: Vec<CellType> = Vec::new();
            let mut x: usize = 0;
            while x < src.len()
                invariant
                    x <= src@.len(),
                    row@ == src@.take(x as int),
                decreases src@.len() - x,
            {
                row.push(src[x]);
                assert(row@ =~= src@.take(x + 1));
                x = x + 1;
            }
            assert(row@ =~= src@);
            cells.push(row);
            y = y + 1;
        }
        let r = WorldMap {
            width: self.width,
            height: self.height,
            cells,
            resources: self.resources.clone(),
            base_position: self.base_position,
        };
        proof {
            if self.wf() {
                assert forall|p: Position| #[trigger] r.cell(p) == self.cell(p) by {
                    if in_grid(p, self.width as int, self.height as int) {
                        assert(r.cells@[p.y as int]@ == self.cells@[p.y as int]@);
                    }
                }
                assert(r.resources.wf()) by {
                    assert(r.resources.entries() == self.resources.entries());
                }
            }
        }
        r
    }
}

} // verus!

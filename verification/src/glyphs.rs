use vstd::prelude::*;
use crate::map::{CellType, Position};
use crate::robot::RobotType;
use crate::simulation::RenderSnapshot;

verus! {

/// What a cell of the map shows.
#[derive(Debug, Clone, Copy, PartialEq, Eq, Structural)]
pub enum Glyph {
    Base,
    Scout,
    Collector,
    Obstacle,
    Energy,
    Crystal,
    Empty,
}

impl Glyph {
    /// The character drawn for the glyph.
    pub open spec fn spec_symbol(self) -> char {
        match self {
            Glyph::Base => '#',
            Glyph::Scout => 'x',
            Glyph::Collector => 'o',
            Glyph::Obstacle => '\u{2588}',
            Glyph::Energy => 'E',
            Glyph::Crystal => 'C',
            Glyph::Empty => '\u{b7}',
        }
    }

    pub fn symbol(&self) -> (c: char)
        ensures
            c == self.spec_symbol(),
    {
        match self {
            Glyph::Base => '#',
            Glyph::Scout => 'x',
            Glyph::Collector => 'o',
            Glyph::Obstacle => '\u{2588}',
            Glyph::Energy => 'E',
            Glyph::Crystal => 'C',
            Glyph::Empty => '\u{b7}',
        }
    }
}

/// The kind of the last robot in `robots` that stands at `pos`, if any.
pub open spec fn robot_at(robots: Seq<(u32, Position, RobotType)>, pos: Position) -> Option<RobotType>
    decreases robots.len(),
{
    if robots.len() == 0 {
        None
    } else if robots.last().1 == pos {
        Some(robots.last().2)
    } else {
        robot_at(robots.drop_last(), pos)
    }
}

/// What the cell at `pos` shows: the base over robots, a robot over the
/// ground, and where robots share a cell the one listed last.
pub open spec fn spec_glyph(snap: RenderSnapshot, pos: Position) -> Glyph {
    if pos == snap.map.base_position {
        Glyph::Base
    } else {
        match robot_at(snap.robot_positions@, pos) {
            Some(RobotType::Scout) => Glyph::Scout,
            Some(RobotType::Collector) => Glyph::Collector,
            None => match snap.map.cell(pos) {
                CellType::Obstacle => Glyph::Obstacle,
                CellType::Energy => Glyph::Energy,
                CellType::Crystal => Glyph::Crystal,
                CellType::Empty => Glyph::Empty,
            },
        }
    }
}

/// The kind of the last robot at `pos` in `robots`.
fn find_robot(robots: &Vec<(u32, Position, RobotType)>, pos: Position) -> (r: Option<RobotType>)
    ensures
        r == robot_at(robots@, pos),
{
    let mut i = robots.len();
    assert(robots@.take(i as int) =~= robots@);
    while i > 0
        invariant
            i <= robots@.len(),
            robot_at(robots@, pos) == robot_at(robots@.take(i as int), pos),
        decreases i,
    {
        let e = robots[i - 1];
        assert(robots@.take(i as int).drop_last() =~= robots@.take(i - 1));
        if e.1 == pos {
            return Some(e.2);
        }
        i = i - 1;
    }
    None
}

/// What the cell at `pos` shows in `snap`.
pub fn glyph_at(snap: &RenderSnapshot, pos: Position) -> (g: Glyph)
    requires
        snap.map.wf(),
    ensures
        g == spec_glyph(*snap, pos),
{
    if pos == snap.map.base_position {
        return Glyph::Base;
    }
    proof {
        assert(snap.robot_positions@.take(snap.robot_positions@.len() as int) =~= snap.robot_positions@);
    }
    match find_robot(&snap.robot_positions, pos) {
        Some(RobotType::Scout) => Glyph::Scout,
        Some(RobotType::Collector) => Glyph::Collector,
        None => match snap.map.get_cell(pos) {
            CellType::Obstacle => Glyph::Obstacle,
            CellType::Energy => Glyph::Energy,
            CellType::Crystal => Glyph::Crystal,
            CellType::Empty => Glyph::Empty,
        },
    }
}

/// How many entries of `robots` are of kind `kind`.
pub open spec fn count_kind(robots: Seq<(u32, Position, RobotType)>, kind: RobotType) -> nat
    decreases robots.len(),
{
    if robots.len() == 0 {
        0
    } else {
        count_kind(robots.drop_last(), kind) + if robots.last().2 == kind { 1nat } else { 0nat }
    }
}

/// Every robot is a scout or a collector: the two counts add up to all.
pub proof fn lemma_counts_cover(robots: Seq<(u32, Position, RobotType)>)
    ensures
        count_kind(robots, RobotType::Scout) + count_kind(robots, RobotType::Collector) == robots.len(),
    decreases robots.len(),
{
    if robots.len() > 0 {
        lemma_counts_cover(robots.drop_last());
    }
}

/// The number of scouts and the number of collectors in `robots`.
pub fn count_robots(robots: &Vec<(u32, Position, RobotType)>) -> (r: (usize, usize))
    ensures
        r.0 == count_kind(robots@, RobotType::Scout),
        r.1 == count_kind(robots@, RobotType::Collector),
{
    let mut scouts: usize = 0;
    let mut collectors: usize = 0;
    let mut i: usize = 0;
    while i < robots.len()
        invariant
            i <= robots@.len(),
            scouts == count_kind(robots@.take(i as int), RobotType::Scout),
            collectors == count_kind(robots@.take(i as int), RobotType::Collector),
            scouts + collectors == i,
        decreases robots@.len() - i,
    {
        assert(robots@.take(i + 1).drop_last() =~= robots@.take(i as int));
        match robots[i].2 {
            RobotType::Scout => scouts = scouts + 1,
            RobotType::Collector => collectors = collectors + 1,
        }
        i = i + 1;
    }
    assert(robots@.take(robots@.len() as int) =~= robots@);
    (scouts, collectors)
}

} // verus!

use vstd::prelude::*;
use crate::map::{Position, ResourceType};

verus! {

/// The two kinds of robot.
#[derive(Debug, Clone, Copy, PartialEq, Eq, Hash, Structural)]
pub enum RobotType {
    /// Walks at random and reports what it sees.
    Scout,
    /// Fetches known deposits, one unit at a time, to the base.
    Collector,
}

/// A robot: its number and kind, where it is and where its base is, what
/// it carries and where it is heading.
#[derive(Debug, Clone, Copy)]
pub struct Robot {
    pub id: u32,
    pub robot_type: RobotType,
    pub position: Position,
    /// Units currently being carried back to base
    pub inventory: u32,
    /// Type of resource in the inventory
    pub carrying_type: Option<ResourceType>,
    pub base_position: Position,
    /// Current collection target (Collector only)
    pub target: Option<Position>,
    pub returning_to_base: bool,
}

/// A robot of the given kind at `position`, empty-handed and without a target.
pub open spec fn fresh_robot(id: u32, robot_type: RobotType, position: Position, base_position: Position) -> Robot {
    Robot {
        id,
        robot_type,
        position,
        inventory: 0,
        carrying_type: None,
        base_position,
        target: None,
        returning_to_base: false,
    }
}

impl Robot {
    pub fn new_scout(id: u32, position: Position, base_position: Position) -> (r: Robot)
        ensures
            r == fresh_robot(id, RobotType::Scout, position, base_position),
    {
        Robot {
            id,
            robot_type: RobotType::Scout,
            position,
            inventory: 0,
            carrying_type: None,
            base_position,
            target: None,
            returning_to_base: false,
        }
    }

    pub fn new_collector(id: u32, position: Position, base_position: Position) -> (r: Robot)
        ensures
            r == fresh_robot(id, RobotType::Collector, position, base_position),
    {
        Robot {
            id,
            robot_type: RobotType::Collector,
            position,
            inventory: 0,
            carrying_type: None,
            base_position,
            target: None,
            returning_to_base: false,
        }
    }
}

} // verus!

use vstd::prelude::*;
use crate::map::{Position, ResourceType};

verus! {

/// What robots report to the simulation.
#[derive(Debug, Clone, Copy, PartialEq, Eq, Structural)]
pub enum Message {
    ResourceDiscovered { robot_id: u32, position: Position, resource_type: ResourceType, quantity: u32 },
    ObstacleDiscovered { robot_id: u32, position: Position },
    ResourceCollected { robot_id: u32, position: Position, resource_type: ResourceType, quantity: u32 },
    ResourceDepositedAtBase { robot_id: u32, resource_type: ResourceType, quantity: u32 },
}

impl Message {
    /// The robot that sent the message.
    pub open spec fn sender(&self) -> u32 {
        match *self {
            Message::ResourceDiscovered { robot_id, .. } => robot_id,
            Message::ObstacleDiscovered { robot_id, .. } => robot_id,
            Message::ResourceCollected { robot_id, .. } => robot_id,
            Message::ResourceDepositedAtBase { robot_id, .. } => robot_id,
        }
    }

    pub fn robot_id(&self) -> (id: u32)
        ensures
            id == self.sender(),
    {
        match self {
            Message::ResourceDiscovered { robot_id, .. } => *robot_id,
            Message::ObstacleDiscovered { robot_id, .. } => *robot_id,
            Message::ResourceCollected { robot_id, .. } => *robot_id,
            Message::ResourceDepositedAtBase { robot_id, .. } => *robot_id,
        }
    }
}

} // verus!

//! Command senders.

use vstd::prelude::*;
use bevy_ecs::entity::Entity;

verus! {

/// An entity of the world, as `bevy_ecs` identifies it. The library carries
/// such values through and never looks inside them.
#[verifier::external_type_specification]
#[verifier::external_body]
pub struct ExEntity(Entity);

/// Who sent a command, and so who receives its feedback.
#[derive(Clone, Copy, PartialEq, Eq, PartialOrd, Ord)]
pub enum Sender {
    /// A connected player, by entity.
    Player(Entity),
    /// The server console.
    Server,
}

} // verus!

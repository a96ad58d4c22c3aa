//! The messages a resolution pass hands to the rest of the game.

use crate::entity::Entity;
use vstd::prelude::*;

verus! {

/// The kind of a world object: a weapon, a resource node, a piece of terrain.
#[derive(Clone, Copy, Debug, PartialEq, Eq, Structural)]
pub struct WorldObject {
    pub kind: u32,
}

/// The kind of a projectile.
#[derive(Clone, Copy, Debug, PartialEq, Eq, Structural)]
pub struct Projectile {
    pub kind: u32,
}

/// What dealt a hit. A hit has exactly one source.
#[derive(Clone, Copy, Debug, PartialEq, Eq, Structural)]
pub enum HitSource {
    /// A swing of the main-hand weapon of the given kind.
    Melee(WorldObject),
    /// A projectile of the given kind.
    Projectile(Projectile),
    /// Bodies touching, or thorns answering such a touch.
    Contact,
}

/// The unit vector along which a hit pushes its target, named by the
/// entities that fix it. Whoever consumes the event reads the positions.
#[derive(Clone, Copy, Debug, PartialEq, Eq, Structural)]
pub enum Direction {
    /// From the position of `from` toward the position of `to`; the zero
    /// vector where the two coincide.
    Between { from: Entity, to: Entity },
    /// The flight direction stored with `projectile`.
    Flight { projectile: Entity },
}

/// One hit: who is hit, how hard, which way it pushes, and by what.
#[derive(Clone, Copy, Debug, PartialEq, Eq, Structural)]
pub struct HitEvent {
    pub target: Entity,
    pub damage: i32,
    pub direction: Direction,
    pub source: HitSource,
}

/// The targets of `hits`, in order.
pub open spec fn targets_of(hits: Seq<HitEvent>) -> Seq<Entity> {
    Seq::new(hits.len(), |i: int| hits[i].target)
}

/// `entity` dodged a hit.
#[derive(Clone, Copy, Debug, PartialEq, Eq, Structural)]
pub struct DodgeEvent {
    pub entity: Entity,
}

/// Health to add to the player.
#[derive(Clone, Copy, Debug, PartialEq, Eq, Structural)]
pub struct ModifyHealthEvent {
    pub delta: i32,
}

/// A change to one attribute of the item in the active hotbar slot.
#[derive(Clone, Copy, Debug, PartialEq, Eq, Structural)]
pub struct DurabilityRequest {
    pub delta: i32,
}

/// `entity` becomes immune to contact damage for `millis` milliseconds.
#[derive(Clone, Copy, Debug, PartialEq, Eq, Structural)]
pub struct InvincibilityTimer {
    pub entity: Entity,
    pub millis: u64,
}

} // verus!

//! Component types of the simulation, and the component store the system
//! passes run over.
//!
//! Positions are top-left anchors of an entity's axis-aligned footprint, in
//! integer world units. Velocities and accelerations are world units per
//! second; each pass scales them by the step's elapsed milliseconds.

use vstd::prelude::*;

verus! {

/// Top-left anchor of an entity's axis-aligned footprint, in world units.
#[derive(Clone, Copy, Debug, PartialEq, Eq, Structural)]
pub struct Position {
    pub x: i64,
    pub y: i64,
}

/// Velocity in world units per second.
#[derive(Clone, Copy, Debug, PartialEq, Eq, Structural, Default)]
pub struct Velocity {
    pub dx: i64,
    pub dy: i64,
}

/// Desired rate of velocity change, with a hard symmetric clamp magnitude:
/// after an acceleration pass each velocity axis lies in
/// `[-max_speed, max_speed]`.
#[derive(Clone, Copy, Debug, PartialEq, Eq, Structural)]
pub struct Acceleration {
    pub dx: i64,
    pub dy: i64,
    pub max_speed: i64,
}

/// Deceleration magnitude applied opposite to the current velocity sign,
/// never overshooting past zero.
#[derive(Clone, Copy, Debug, PartialEq, Eq, Structural)]
pub struct Friction {
    pub acceleration: i64,
}

/// Marks an entity as steered by the cardinal-direction input feed; key
/// events write `±acceleration` or `0` into the entity's `Acceleration`.
#[derive(Clone, Copy, Debug, PartialEq, Eq, Structural)]
pub struct MovementInput {
    pub acceleration: i64,
}

/// Response applied by the resolver to an entity that collided with a
/// collider carrying this behaviour.
#[derive(Clone, Copy, Debug, PartialEq, Eq, Structural)]
pub enum ColliderBehaviour {
    Block,
    Physics,
    Event,
}

/// An axis-aligned `width x height` box anchored at the entity's `Position`.
///
/// `mask` and `layer` are bitfields: A's collider is tested against B's only
/// in the direction where `A.mask & B.layer != 0`, so detection is
/// directional and may be asymmetric. `behaviour: None` means detectable but
/// inert.
#[derive(Clone, Copy, Debug, PartialEq)]
pub struct Collider {
    pub mask: i16,
    pub layer: i16,
    pub width: i64,
    pub height: i64,
    pub behaviour: Option<ColliderBehaviour>,
}

/// One directional collision fact: the other entity and a copy of its
/// collider at detection time.
#[derive(Clone, Copy, Debug, PartialEq)]
pub struct Collision {
    pub entity: u64,
    pub collider: Collider,
}

/// The collision facts recorded against one entity this step, in discovery
/// order. Created by the detector, consumed and reset to empty by the
/// resolver.
#[derive(Clone, Debug, PartialEq)]
pub struct Collisions(pub Vec<Collision>);

/// One entity: a bag of optional components. An entity's identifier is its
/// index in the store.
#[derive(Clone, Debug)]
pub struct Entity {
    pub position: Option<Position>,
    pub velocity: Option<Velocity>,
    pub acceleration: Option<Acceleration>,
    pub friction: Option<Friction>,
    pub movement_input: Option<MovementInput>,
    pub collider: Option<Collider>,
    pub collisions: Option<Collisions>,
}

impl Entity {
    /// An entity with no components; a placeholder while a pass swaps an
    /// entity out of the store, and a base for builders in callers.
    pub fn empty() -> (e: Entity)
        ensures
            e == (Entity {
                position: None,
                velocity: None,
                acceleration: None,
                friction: None,
                movement_input: None,
                collider: None,
                collisions: None,
            }),
    {
        Entity {
            position: None,
            velocity: None,
            acceleration: None,
            friction: None,
            movement_input: None,
            collider: None,
            collisions: None,
        }
    }
}

/// The component store: entity `i` is `entities[i]`.
pub struct World {
    pub entities: Vec<Entity>,
}

impl World {
    pub fn new() -> (w: World)
        ensures
            w.entities@.len() == 0,
    {
        World { entities: Vec::new() }
    }
}

} // verus!

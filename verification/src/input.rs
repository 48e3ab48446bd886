//! The input feed: discrete key-down/key-up events, each naming a cardinal
//! direction, write `±movement.acceleration` or `0` into the acceleration
//! of every entity carrying a movement-input marker. Events that name no
//! recognized direction are ignored.

use vstd::prelude::*;
use vstd::pervasive::VecAdditionalExecFns;
use crate::components::{Acceleration, Entity, World};

verus! {

/// A recognized cardinal movement key.
#[derive(Clone, Copy, Debug, PartialEq, Eq, Structural)]
pub enum InputDirection {
    Left,
    Right,
    Up,
    Down,
}

/// What one key event does to one entity: entities with both an
/// acceleration and a movement-input component have the named axis set to
/// the movement magnitude (negative for left and up, positive for right
/// and down) while the key is pressed, and back to zero on release; an
/// unrecognized event, and every other entity and component, changes
/// nothing.
pub open spec fn move_applied(e: Entity, key: Option<InputDirection>, pressed: bool) -> Entity {
    if e.acceleration is Some && e.movement_input is Some && key is Some {
        let a = e.acceleration.unwrap();
        let m = e.movement_input.unwrap().acceleration;
        let v: int = if pressed {
            m as int
        } else {
            0
        };
        match key.unwrap() {
            InputDirection::Left => Entity {
                acceleration: Some(Acceleration { dx: (-v) as i64, dy: a.dy, max_speed: a.max_speed }),
                ..e
            },
            InputDirection::Right => Entity {
                acceleration: Some(Acceleration { dx: v as i64, dy: a.dy, max_speed: a.max_speed }),
                ..e
            },
            InputDirection::Down => Entity {
                acceleration: Some(Acceleration { dx: a.dx, dy: v as i64, max_speed: a.max_speed }),
                ..e
            },
            InputDirection::Up => Entity {
                acceleration: Some(Acceleration { dx: a.dx, dy: (-v) as i64, max_speed: a.max_speed }),
                ..e
            },
        }
    } else {
        e
    }
}

/// The movement magnitude's negation is representable.
pub open spec fn move_ok(e: Entity) -> bool {
    (e.acceleration is Some && e.movement_input is Some) ==> e.movement_input.unwrap().acceleration
        > i64::MIN
}

/// Apply one key event to every entity carrying both an acceleration and a
/// movement-input marker.
pub fn system_player_move(world: &mut World, key: Option<InputDirection>, pressed: bool)
    requires
        forall|i: int|
            0 <= i < old(world).entities@.len() ==> move_ok(#[trigger] old(world).entities@[i]),
    ensures
        final(world).entities@.len() == old(world).entities@.len(),
        forall|i: int|
            0 <= i < final(world).entities@.len() ==> final(world).entities@[i] == move_applied(
                #[trigger] old(world).entities@[i],
                key,
                pressed,
            ),
{
    let n = world.entities.len();
    let mut i: usize = 0;
    while i < n
        invariant
            n == world.entities@.len(),
            n == old(world).entities@.len(),
            i <= n,
            forall|k: int|
                0 <= k < i ==> world.entities@[k] == move_applied(
                    #[trigger] old(world).entities@[k],
                    key,
                    pressed,
                ),
            forall|k: int| i <= k < n ==> world.entities@[k] == old(world).entities@[k],
            forall|k: int| 0 <= k < n ==> move_ok(#[trigger] old(world).entities@[k]),
        decreases n - i,
    {
        let mut e = Entity::empty();
        world.entities.set_and_swap(i, &mut e);
        if e.acceleration.is_some() && e.movement_input.is_some() && key.is_some() {
            let a = e.acceleration.unwrap();
            let m = e.movement_input.unwrap().acceleration;
            let v: i64 = if pressed {
                m
            } else {
                0
            };
            match key.unwrap() {
                InputDirection::Left => {
                    e.acceleration = Some(
                        Acceleration { dx: -v, dy: a.dy, max_speed: a.max_speed },
                    );
                },
                InputDirection::Right => {
                    e.acceleration = Some(
                        Acceleration { dx: v, dy: a.dy, max_speed: a.max_speed },
                    );
                },
                InputDirection::Down => {
                    e.acceleration = Some(
                        Acceleration { dx: a.dx, dy: v, max_speed: a.max_speed },
                    );
                },
                InputDirection::Up => {
                    e.acceleration = Some(
                        Acceleration { dx: a.dx, dy: -v, max_speed: a.max_speed },
                    );
                },
            }
        }
        world.entities.set_and_swap(i, &mut e);
        i += 1;
    }
}

} // verus!

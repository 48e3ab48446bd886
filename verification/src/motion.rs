//! The motion integrator: three strictly ordered passes over the store,
//! each scaling rates by the step's elapsed time.
//!
//! Order is load-bearing: friction acts on the previous step's velocity
//! before new acceleration is applied, and position integration uses the
//! velocity already updated by the first two passes of the same step.

use vstd::prelude::*;
use crate::components::{Entity, Position, Velocity, World};
use vstd::pervasive::VecAdditionalExecFns;

verus! {

/// `v` world units per second over `dt_ms` milliseconds, rounded toward
/// zero: `sign(v) * (|v| * dt_ms / 1000)`.
pub open spec fn scaled(v: int, dt_ms: int) -> int {
    if v >= 0 {
        (v * dt_ms) / 1000
    } else {
        -(((-v) * dt_ms) / 1000)
    }
}

/// The scaled rate fits in a machine word.
pub open spec fn scaled_fits(v: int, dt_ms: int) -> bool {
    i64::MIN <= scaled(v, dt_ms) <= i64::MAX
}

pub proof fn lemma_scaled_nonneg(v: int, dt_ms: int)
    requires
        v >= 0,
        dt_ms >= 0,
    ensures
        scaled(v, dt_ms) >= 0,
{
    assert(v * dt_ms >= 0) by (nonlinear_arith)
        requires
            v >= 0,
            dt_ms >= 0,
    ;
}

/// One axis of the friction pass: decelerate toward zero by `d`, clamped so
/// the result never crosses zero; an exactly-zero axis stays exactly zero.
pub open spec fn friction_axis(v: int, d: int) -> int {
    if v == 0 {
        0
    } else if v > 0 {
        if v - d > 0 {
            v - d
        } else {
            0
        }
    } else {
        if v + d < 0 {
            v + d
        } else {
            0
        }
    }
}

/// One axis of the acceleration pass: `v + d`, then clamped symmetrically to
/// `[-max_speed, max_speed]`.
pub open spec fn clamp_axis(v: int, d: int, max_speed: int) -> int {
    if v + d > max_speed {
        max_speed
    } else if v + d < -max_speed {
        -max_speed
    } else {
        v + d
    }
}

/// Displacement of `v` world units per second over `dt_ms` milliseconds.
pub fn scale_by_dt(v: i64, dt_ms: u32) -> (r: i64)
    requires
        scaled_fits(v as int, dt_ms as int),
    ensures
        r as int == scaled(v as int, dt_ms as int),
{
    let mag: u128 = if v < 0 {
        (-(v as i128)) as u128
    } else {
        v as u128
    };
    let q: u128 = (mag * (dt_ms as u128)) / 1000;
    if v < 0 {
        proof {
            assert(-(q as int) == scaled(v as int, dt_ms as int));
        }
        (-(q as i128)) as i64
    } else {
        q as i64
    }
}

/// One axis of the friction pass; `d` is the already-scaled deceleration.
pub fn apply_friction_axis(v: i64, d: i64) -> (r: i64)
    requires
        d >= 0,
    ensures
        r as int == friction_axis(v as int, d as int),
{
    if v == 0 {
        0
    } else if v > 0 {
        if v > d {
            v - d
        } else {
            0
        }
    } else {
        if v + d < 0 {
            v + d
        } else {
            0
        }
    }
}

/// What the friction pass does to one entity: entities with both a velocity
/// and a friction component decelerate each axis independently toward zero;
/// every other entity, and every other component, is untouched.
pub open spec fn friction_applied(e: Entity, dt_ms: int) -> Entity {
    if e.velocity is Some && e.friction is Some {
        let v = e.velocity.unwrap();
        let d = scaled(e.friction.unwrap().acceleration as int, dt_ms);
        Entity {
            velocity: Some(
                Velocity {
                    dx: friction_axis(v.dx as int, d) as i64,
                    dy: friction_axis(v.dy as int, d) as i64,
                },
            ),
            ..e
        }
    } else {
        e
    }
}

/// The friction pass may run on this entity: friction is a deceleration
/// magnitude, and its scaled value fits in a machine word.
pub open spec fn friction_pass_ok(e: Entity, dt_ms: int) -> bool {
    (e.velocity is Some && e.friction is Some) ==> {
        &&& e.friction.unwrap().acceleration >= 0
        &&& scaled_fits(e.friction.unwrap().acceleration as int, dt_ms)
    }
}

/// Friction pass: for every entity with both a velocity and a friction
/// component, decelerate each velocity axis toward zero by
/// `friction.acceleration * dt`, never overshooting past zero.
pub fn system_friction(world: &mut World, dt_ms: u32)
    requires
        forall|i: int|
            0 <= i < old(world).entities@.len() ==> friction_pass_ok(
                #[trigger] old(world).entities@[i],
                dt_ms as int,
            ),
    ensures
        final(world).entities@.len() == old(world).entities@.len(),
        forall|i: int|
            0 <= i < final(world).entities@.len() ==> final(world).entities@[i] == friction_applied(
                #[trigger] old(world).entities@[i],
                dt_ms as int,
            ),
{
    let n = world.entities.len();
    let mut i: usize = 0;
    while i < n
        invariant
            n == world.entities@.len(),
            n == old(world).entities@.len(),
            i <= n,
            forall|k: int|
                0 <= k < i ==> world.entities@[k] == friction_applied(
                    #[trigger] old(world).entities@[k],
                    dt_ms as int,
                ),
            forall|k: int| i <= k < n ==> world.entities@[k] == old(world).entities@[k],
            forall|k: int|
                0 <= k < n ==> friction_pass_ok(#[trigger] old(world).entities@[k], dt_ms as int),
        decreases n - i,
    {
        let mut e = Entity::empty();
        world.entities.set_and_swap(i, &mut e);
        if e.velocity.is_some() && e.friction.is_some() {
            let v = e.velocity.unwrap();
            let f = e.friction.unwrap();
            proof {
                lemma_scaled_nonneg(f.acceleration as int, dt_ms as int);
            }
            let d = scale_by_dt(f.acceleration, dt_ms);
            e.velocity = Some(
                Velocity { dx: apply_friction_axis(v.dx, d), dy: apply_friction_axis(v.dy, d) },
            );
        }
        world.entities.set_and_swap(i, &mut e);
        i += 1;
    }
}

/// What the acceleration pass does to one entity: entities with both a
/// velocity and an acceleration component gain `acceleration * dt` per axis,
/// clamped symmetrically to `[-max_speed, max_speed]`; every other entity,
/// and every other component, is untouched.
pub open spec fn acceleration_applied(e: Entity, dt_ms: int) -> Entity {
    if e.velocity is Some && e.acceleration is Some {
        let v = e.velocity.unwrap();
        let a = e.acceleration.unwrap();
        Entity {
            velocity: Some(
                Velocity {
                    dx: clamp_axis(v.dx as int, scaled(a.dx as int, dt_ms), a.max_speed as int) as i64,
                    dy: clamp_axis(v.dy as int, scaled(a.dy as int, dt_ms), a.max_speed as int) as i64,
                },
            ),
            ..e
        }
    } else {
        e
    }
}

/// The acceleration pass may run on this entity: the clamp magnitude is
/// non-negative and the scaled rates fit in a machine word.
pub open spec fn acceleration_pass_ok(e: Entity, dt_ms: int) -> bool {
    (e.velocity is Some && e.acceleration is Some) ==> {
        &&& e.acceleration.unwrap().max_speed >= 0
        &&& scaled_fits(e.acceleration.unwrap().dx as int, dt_ms)
        &&& scaled_fits(e.acceleration.unwrap().dy as int, dt_ms)
    }
}

/// One axis of the acceleration pass; `d` is the already-scaled rate.
pub fn apply_clamp_axis(v: i64, d: i64, max_speed: i64) -> (r: i64)
    requires
        max_speed >= 0,
    ensures
        r as int == clamp_axis(v as int, d as int, max_speed as int),
{
    let s: i128 = (v as i128) + (d as i128);
    if s > (max_speed as i128) {
        max_speed
    } else if s < -(max_speed as i128) {
        -max_speed
    } else {
        s as i64
    }
}

/// Acceleration pass: for every entity with both a velocity and an
/// acceleration component, `velocity += acceleration * dt` per axis, then
/// clamp symmetrically to `[-max_speed, max_speed]`. After this pass no such
/// velocity axis exceeds `max_speed` in absolute value.
pub fn system_update_velocity(world: &mut World, dt_ms: u32)
    requires
        forall|i: int|
            0 <= i < old(world).entities@.len() ==> acceleration_pass_ok(
                #[trigger] old(world).entities@[i],
                dt_ms as int,
            ),
    ensures
        final(world).entities@.len() == old(world).entities@.len(),
        forall|i: int|
            0 <= i < final(world).entities@.len() ==> final(world).entities@[i] == acceleration_applied(
                #[trigger] old(world).entities@[i],
                dt_ms as int,
            ),
        forall|i: int|
            0 <= i < final(world).entities@.len() && old(world).entities@[i].velocity is Some && old(
                world,
            ).entities@[i].acceleration is Some ==> {
                let v = (#[trigger] final(world).entities@[i]).velocity.unwrap();
                let m = old(world).entities@[i].acceleration.unwrap().max_speed;
                -m <= v.dx <= m && -m <= v.dy <= m
            },
{
    let n = world.entities.len();
    let mut i: usize = 0;
    while i < n
        invariant
            n == world.entities@.len(),
            n == old(world).entities@.len(),
            i <= n,
            forall|k: int|
                0 <= k < i ==> world.entities@[k] == acceleration_applied(
                    #[trigger] old(world).entities@[k],
                    dt_ms as int,
                ),
            forall|k: int| i <= k < n ==> world.entities@[k] == old(world).entities@[k],
            forall|k: int|
                0 <= k < n ==> acceleration_pass_ok(
                    #[trigger] old(world).entities@[k],
                    dt_ms as int,
                ),
        decreases n - i,
    {
        let mut e = Entity::empty();
        world.entities.set_and_swap(i, &mut e);
        if e.velocity.is_some() && e.acceleration.is_some() {
            let v = e.velocity.unwrap();
            let a = e.acceleration.unwrap();
            let ddx = scale_by_dt(a.dx, dt_ms);
            let ddy = scale_by_dt(a.dy, dt_ms);
            e.velocity = Some(
                Velocity {
                    dx: apply_clamp_axis(v.dx, ddx, a.max_speed),
                    dy: apply_clamp_axis(v.dy, ddy, a.max_speed),
                },
            );
        }
        world.entities.set_and_swap(i, &mut e);
        i += 1;
    }
}

/// What the position pass does to one entity: entities with both a position
/// and a velocity component move by `velocity * dt` per axis (explicit
/// Euler); every other entity, and every other component, is untouched.
pub open spec fn positions_applied(e: Entity, dt_ms: int) -> Entity {
    if e.position is Some && e.velocity is Some {
        let p = e.position.unwrap();
        let v = e.velocity.unwrap();
        Entity {
            position: Some(
                Position {
                    x: (p.x + scaled(v.dx as int, dt_ms)) as i64,
                    y: (p.y + scaled(v.dy as int, dt_ms)) as i64,
                },
            ),
            ..e
        }
    } else {
        e
    }
}

/// The position pass may run on this entity: the displacement and the moved
/// position fit in a machine word.
pub open spec fn positions_pass_ok(e: Entity, dt_ms: int) -> bool {
    (e.position is Some && e.velocity is Some) ==> {
        let p = e.position.unwrap();
        let v = e.velocity.unwrap();
        &&& scaled_fits(v.dx as int, dt_ms)
        &&& scaled_fits(v.dy as int, dt_ms)
        &&& i64::MIN <= p.x + scaled(v.dx as int, dt_ms) <= i64::MAX
        &&& i64::MIN <= p.y + scaled(v.dy as int, dt_ms) <= i64::MAX
    }
}

/// Position pass: for every entity with both a position and a velocity
/// component, `position += velocity * dt` per axis.
pub fn system_update_positions(world: &mut World, dt_ms: u32)
    requires
        forall|i: int|
            0 <= i < old(world).entities@.len() ==> positions_pass_ok(
                #[trigger] old(world).entities@[i],
                dt_ms as int,
            ),
    ensures
        final(world).entities@.len() == old(world).entities@.len(),
        forall|i: int|
            0 <= i < final(world).entities@.len() ==> final(world).entities@[i] == positions_applied(
                #[trigger] old(world).entities@[i],
                dt_ms as int,
            ),
{
    let n = world.entities.len();
    let mut i: usize = 0;
    while i < n
        invariant
            n == world.entities@.len(),
            n == old(world).entities@.len(),
            i <= n,
            forall|k: int|
                0 <= k < i ==> world.entities@[k] == positions_applied(
                    #[trigger] old(world).entities@[k],
                    dt_ms as int,
                ),
            forall|k: int| i <= k < n ==> world.entities@[k] == old(world).entities@[k],
            forall|k: int|
                0 <= k < n ==> positions_pass_ok(#[trigger] old(world).entities@[k], dt_ms as int),
        decreases n - i,
    {
        let mut e = Entity::empty();
        world.entities.set_and_swap(i, &mut e);
        if e.position.is_some() && e.velocity.is_some() {
            let p = e.position.unwrap();
            let v = e.velocity.unwrap();
            let ddx = scale_by_dt(v.dx, dt_ms);
            let ddy = scale_by_dt(v.dy, dt_ms);
            e.position = Some(Position { x: p.x + ddx, y: p.y + ddy });
        }
        world.entities.set_and_swap(i, &mut e);
        i += 1;
    }
}

/// A velocity axis under repeated friction reaches exactly zero once the
/// scaled deceleration is at least its magnitude, and it never oscillates
/// past zero: the sign is preserved until the axis is exactly zero, and the
/// magnitude never grows.
pub proof fn lemma_friction_zero_floor(v: int, d: int)
    requires
        d >= 0,
    ensures
        (if v >= 0 {
            v
        } else {
            -v
        }) <= d ==> friction_axis(v, d) == 0,
        v > 0 ==> 0 <= friction_axis(v, d) <= v,
        v < 0 ==> v <= friction_axis(v, d) <= 0,
        v == 0 ==> friction_axis(v, d) == 0,
{
}

/// A velocity axis after the acceleration pass never exceeds the clamp
/// magnitude in absolute value, however large the scaled acceleration is;
/// and an axis already at the clamp, accelerated further in the same
/// direction, stays exactly at the clamp.
pub proof fn lemma_acceleration_clamp(v: int, d: int, max_speed: int)
    requires
        max_speed >= 0,
    ensures
        -max_speed <= clamp_axis(v, d, max_speed) <= max_speed,
        v == max_speed && d >= 0 ==> clamp_axis(v, d, max_speed) == max_speed,
        v == -max_speed && d <= 0 ==> clamp_axis(v, d, max_speed) == -max_speed,
{
}

} // verus!

use super_simple::components::{Acceleration, Entity, Friction, Position, Velocity, World};
use super_simple::motion::{system_friction, system_update_positions, system_update_velocity};

fn entity_with(
    position: Option<Position>,
    velocity: Option<Velocity>,
    acceleration: Option<Acceleration>,
    friction: Option<Friction>,
) -> Entity {
    Entity {
        position,
        velocity,
        acceleration,
        friction,
        ..Entity::empty()
    }
}

#[test]
fn friction_clamps_at_zero() {
    // Friction 50 over a full second against velocity 10 stops exactly at
    // zero instead of overshooting to -40.
    let mut world = World::new();
    world.entities.push(entity_with(
        None,
        Some(Velocity { dx: 10, dy: 0 }),
        None,
        Some(Friction { acceleration: 50 }),
    ));
    system_friction(&mut world, 1000);
    assert_eq!(world.entities[0].velocity, Some(Velocity { dx: 0, dy: 0 }));
}

#[test]
fn friction_decelerates_toward_zero() {
    let mut world = World::new();
    world.entities.push(entity_with(
        None,
        Some(Velocity { dx: 10, dy: -10 }),
        None,
        Some(Friction { acceleration: 3 }),
    ));
    system_friction(&mut world, 1000);
    assert_eq!(world.entities[0].velocity, Some(Velocity { dx: 7, dy: -7 }));
}

#[test]
fn friction_leaves_stationary_axis_exactly_zero() {
    let mut world = World::new();
    world.entities.push(entity_with(
        None,
        Some(Velocity { dx: 0, dy: 0 }),
        None,
        Some(Friction { acceleration: 50 }),
    ));
    system_friction(&mut world, 1000);
    assert_eq!(world.entities[0].velocity, Some(Velocity { dx: 0, dy: 0 }));
}

#[test]
fn friction_skips_entities_without_both_components() {
    let mut world = World::new();
    world.entities.push(entity_with(None, Some(Velocity { dx: 9, dy: 9 }), None, None));
    system_friction(&mut world, 1000);
    assert_eq!(world.entities[0].velocity, Some(Velocity { dx: 9, dy: 9 }));
}

#[test]
fn acceleration_clamps_at_max_speed() {
    // 100 units/s^2 for one second from rest would reach 100, but the
    // clamp caps it at 50; a further tenth of a second keeps it there.
    let mut world = World::new();
    world.entities.push(entity_with(
        None,
        Some(Velocity { dx: 0, dy: 0 }),
        Some(Acceleration { dx: 100, dy: 0, max_speed: 50 }),
        None,
    ));
    system_update_velocity(&mut world, 1000);
    assert_eq!(world.entities[0].velocity, Some(Velocity { dx: 50, dy: 0 }));
    system_update_velocity(&mut world, 100);
    assert_eq!(world.entities[0].velocity, Some(Velocity { dx: 50, dy: 0 }));
}

#[test]
fn acceleration_clamps_negative_axis() {
    let mut world = World::new();
    world.entities.push(entity_with(
        None,
        Some(Velocity { dx: 0, dy: 0 }),
        Some(Acceleration { dx: -100, dy: -30, max_speed: 50 }),
        None,
    ));
    system_update_velocity(&mut world, 1000);
    assert_eq!(world.entities[0].velocity, Some(Velocity { dx: -50, dy: -30 }));
}

#[test]
fn positions_integrate_velocity() {
    let mut world = World::new();
    world.entities.push(entity_with(
        Some(Position { x: 0, y: 0 }),
        Some(Velocity { dx: 3, dy: 4 }),
        None,
        None,
    ));
    // Half a second moves by half the per-second rate, rounded toward zero.
    system_update_positions(&mut world, 500);
    assert_eq!(world.entities[0].position, Some(Position { x: 1, y: 2 }));
    system_update_positions(&mut world, 1000);
    assert_eq!(world.entities[0].position, Some(Position { x: 4, y: 6 }));
}

#[test]
fn repeated_friction_reaches_exactly_zero() {
    // 10 -> 7 -> 4 -> 1 -> 0, and zero is a fixed point: no oscillation
    // past zero however often the pass runs.
    let mut world = World::new();
    world.entities.push(entity_with(
        None,
        Some(Velocity { dx: 10, dy: -10 }),
        None,
        Some(Friction { acceleration: 3 }),
    ));
    let expected = [7, 4, 1, 0, 0, 0];
    for e in expected {
        system_friction(&mut world, 1000);
        assert_eq!(world.entities[0].velocity, Some(Velocity { dx: e, dy: -e }));
    }
}

#[test]
fn passes_accept_an_empty_store() {
    let mut world = World::new();
    system_friction(&mut world, 1000);
    system_update_velocity(&mut world, 1000);
    system_update_positions(&mut world, 1000);
    assert!(world.entities.is_empty());
}

#[test]
fn integration_order_friction_then_accelerate_then_move() {
    // One full step of the integrator on a single entity.
    let mut world = World::new();
    world.entities.push(entity_with(
        Some(Position { x: 0, y: 0 }),
        Some(Velocity { dx: 10, dy: 0 }),
        Some(Acceleration { dx: 30, dy: 0, max_speed: 35 }),
        Some(Friction { acceleration: 4 }),
    ));
    system_friction(&mut world, 1000);
    assert_eq!(world.entities[0].velocity, Some(Velocity { dx: 6, dy: 0 }));
    system_update_velocity(&mut world, 1000);
    assert_eq!(world.entities[0].velocity, Some(Velocity { dx: 35, dy: 0 }));
    system_update_positions(&mut world, 1000);
    assert_eq!(world.entities[0].position, Some(Position { x: 35, y: 0 }));
}

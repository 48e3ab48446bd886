use super_simple::components::{Acceleration, Entity, MovementInput, World};
use super_simple::input::{system_player_move, InputDirection};

fn steered() -> World {
    let mut world = World::new();
    world.entities.push(Entity {
        acceleration: Some(Acceleration { dx: 0, dy: 0, max_speed: 50 }),
        movement_input: Some(MovementInput { acceleration: 200 }),
        ..Entity::empty()
    });
    world
}

#[test]
fn keys_write_signed_acceleration() {
    let mut world = steered();
    system_player_move(&mut world, Some(InputDirection::Left), true);
    assert_eq!(
        world.entities[0].acceleration,
        Some(Acceleration { dx: -200, dy: 0, max_speed: 50 })
    );
    system_player_move(&mut world, Some(InputDirection::Down), true);
    assert_eq!(
        world.entities[0].acceleration,
        Some(Acceleration { dx: -200, dy: 200, max_speed: 50 })
    );
    system_player_move(&mut world, Some(InputDirection::Right), true);
    assert_eq!(
        world.entities[0].acceleration,
        Some(Acceleration { dx: 200, dy: 200, max_speed: 50 })
    );
    system_player_move(&mut world, Some(InputDirection::Up), true);
    assert_eq!(
        world.entities[0].acceleration,
        Some(Acceleration { dx: 200, dy: -200, max_speed: 50 })
    );
}

#[test]
fn releasing_a_key_zeroes_its_axis() {
    let mut world = steered();
    system_player_move(&mut world, Some(InputDirection::Right), true);
    system_player_move(&mut world, Some(InputDirection::Up), true);
    system_player_move(&mut world, Some(InputDirection::Right), false);
    assert_eq!(
        world.entities[0].acceleration,
        Some(Acceleration { dx: 0, dy: -200, max_speed: 50 })
    );
}

#[test]
fn unrecognized_events_are_ignored() {
    let mut world = steered();
    system_player_move(&mut world, Some(InputDirection::Right), true);
    system_player_move(&mut world, None, true);
    assert_eq!(
        world.entities[0].acceleration,
        Some(Acceleration { dx: 200, dy: 0, max_speed: 50 })
    );
}

#[test]
fn unmarked_entities_are_skipped() {
    let mut world = World::new();
    world.entities.push(Entity {
        acceleration: Some(Acceleration { dx: 1, dy: 2, max_speed: 3 }),
        ..Entity::empty()
    });
    system_player_move(&mut world, Some(InputDirection::Left), true);
    assert_eq!(
        world.entities[0].acceleration,
        Some(Acceleration { dx: 1, dy: 2, max_speed: 3 })
    );
}

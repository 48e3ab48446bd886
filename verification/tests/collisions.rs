use super_simple::components::{
    Collider, ColliderBehaviour, Collision, Collisions, Entity, Position, Velocity, World,
};
use super_simple::collisions::{collides, system_find_collisions, system_handle_collisions};
use super_simple::motion::{system_friction, system_update_positions, system_update_velocity};

fn collider(mask: i16, layer: i16, width: i64, height: i64, behaviour: Option<ColliderBehaviour>) -> Collider {
    Collider { mask, layer, width, height, behaviour }
}

#[test]
fn aabb_test_is_symmetric_with_full_masks() {
    let a_col = collider(-1, -1, 20, 20, None);
    let b_col = collider(-1, -1, 30, 10, None);
    let cases = [
        (Position { x: 0, y: 0 }, Position { x: 10, y: 5 }),
        (Position { x: 0, y: 0 }, Position { x: 100, y: 5 }),
        (Position { x: -7, y: 3 }, Position { x: 8, y: -2 }),
        (Position { x: 0, y: 0 }, Position { x: 20, y: 0 }),
    ];
    for (pa, pb) in cases {
        assert_eq!(collides(&pa, &a_col, &pb, &b_col), collides(&pb, &b_col, &pa, &a_col));
    }
}

#[test]
fn layer_gate_is_directional() {
    // A's mask selects B's layer, but B's mask selects nothing: only A
    // reports the collision.
    let a_col = collider(1, 0, 20, 20, None);
    let b_col = collider(0, 1, 20, 20, None);
    let pa = Position { x: 0, y: 0 };
    let pb = Position { x: 10, y: 0 };
    assert!(collides(&pa, &a_col, &pb, &b_col));
    assert!(!collides(&pb, &b_col, &pa, &a_col));
}

#[test]
fn touching_edges_do_not_collide() {
    let col = collider(-1, -1, 20, 20, None);
    let pa = Position { x: 0, y: 0 };
    // Exactly side by side on x, then on y: gap zero is not a collision.
    assert!(!collides(&pa, &col, &Position { x: 20, y: 0 }, &col));
    assert!(!collides(&Position { x: 20, y: 0 }, &col, &pa, &col));
    assert!(!collides(&pa, &col, &Position { x: 0, y: 20 }, &col));
    // One unit closer does collide.
    assert!(collides(&pa, &col, &Position { x: 19, y: 0 }, &col));
}

#[test]
fn detector_records_directional_fact() {
    // A at the origin with mask 1 / layer 0, B at (10, 0) with mask 0 /
    // layer 1: A registers a fact against B, B registers none.
    let b_col = collider(0, 1, 20, 20, None);
    let mut world = World::new();
    world.entities.push(Entity {
        position: Some(Position { x: 0, y: 0 }),
        collider: Some(collider(1, 0, 20, 20, None)),
        ..Entity::empty()
    });
    world.entities.push(Entity {
        position: Some(Position { x: 10, y: 0 }),
        collider: Some(b_col),
        ..Entity::empty()
    });
    let root = system_find_collisions(&mut world, Position { x: 0, y: 0 }, 800, 800);
    assert_eq!(root.get_all_values_within(), vec![0, 1]);
    let facts = world.entities[0].collisions.as_ref().expect("A should hold a fact");
    assert_eq!(facts.0, vec![Collision { entity: 1, collider: b_col }]);
    assert!(world.entities[1].collisions.is_none());
}

#[test]
fn detector_leaves_untouched_entities_alone() {
    let mut world = World::new();
    world.entities.push(Entity {
        position: Some(Position { x: -100, y: -100 }),
        collider: Some(collider(-1, -1, 10, 10, None)),
        ..Entity::empty()
    });
    world.entities.push(Entity {
        position: Some(Position { x: 100, y: 100 }),
        collider: Some(collider(-1, -1, 10, 10, None)),
        ..Entity::empty()
    });
    world.entities.push(Entity { velocity: Some(Velocity { dx: 1, dy: 1 }), ..Entity::empty() });
    system_find_collisions(&mut world, Position { x: 0, y: 0 }, 800, 800);
    assert!(world.entities[0].collisions.is_none());
    assert!(world.entities[1].collisions.is_none());
    assert!(world.entities[2].collisions.is_none());
    assert_eq!(world.entities[2].velocity, Some(Velocity { dx: 1, dy: 1 }));
}

#[test]
fn resolver_blocks_and_clears_facts() {
    // A blocking fact undoes this step's displacement and zeroes the
    // velocity; the fact list is reset to empty, not removed.
    let blocker = collider(0, 1, 20, 20, Some(ColliderBehaviour::Block));
    let mut world = World::new();
    world.entities.push(Entity {
        position: Some(Position { x: 250, y: 100 }),
        velocity: Some(Velocity { dx: 20, dy: 0 }),
        collisions: Some(Collisions(vec![Collision { entity: 1, collider: blocker }])),
        ..Entity::empty()
    });
    system_handle_collisions(&mut world, 1000);
    assert_eq!(world.entities[0].position, Some(Position { x: 230, y: 100 }));
    assert_eq!(world.entities[0].velocity, Some(Velocity { dx: 0, dy: 0 }));
    let facts = world.entities[0].collisions.as_ref().unwrap();
    assert!(facts.0.is_empty());
}

#[test]
fn resolver_treats_behaviourless_facts_as_inert() {
    let inert = collider(0, 1, 20, 20, None);
    let mut world = World::new();
    world.entities.push(Entity {
        position: Some(Position { x: 5, y: 6 }),
        velocity: Some(Velocity { dx: 7, dy: 8 }),
        collisions: Some(Collisions(vec![
            Collision { entity: 1, collider: inert },
            Collision { entity: 2, collider: inert },
        ])),
        ..Entity::empty()
    });
    system_handle_collisions(&mut world, 1000);
    assert_eq!(world.entities[0].position, Some(Position { x: 5, y: 6 }));
    assert_eq!(world.entities[0].velocity, Some(Velocity { dx: 7, dy: 8 }));
    assert!(world.entities[0].collisions.as_ref().unwrap().0.is_empty());
}

#[test]
fn resolver_skips_entities_without_facts() {
    let mut world = World::new();
    world.entities.push(Entity {
        position: Some(Position { x: 1, y: 2 }),
        velocity: Some(Velocity { dx: 3, dy: 4 }),
        ..Entity::empty()
    });
    system_handle_collisions(&mut world, 1000);
    assert_eq!(world.entities[0].position, Some(Position { x: 1, y: 2 }));
    assert_eq!(world.entities[0].velocity, Some(Velocity { dx: 3, dy: 4 }));
    assert!(world.entities[0].collisions.is_none());
}

#[test]
fn full_step_blocks_a_moving_entity() {
    // One simulation step in pipeline order: a mover runs into a blocker
    // and is pushed back to where the step started.
    let mover_col = collider(1, 0, 50, 50, None);
    let blocker_col = collider(0, 1, 20, 20, Some(ColliderBehaviour::Block));
    let mut world = World::new();
    world.entities.push(Entity {
        position: Some(Position { x: 230, y: 100 }),
        velocity: Some(Velocity { dx: 20, dy: 0 }),
        collider: Some(mover_col),
        ..Entity::empty()
    });
    world.entities.push(Entity {
        position: Some(Position { x: 250, y: 100 }),
        collider: Some(blocker_col),
        ..Entity::empty()
    });
    system_friction(&mut world, 1000);
    system_update_velocity(&mut world, 1000);
    system_update_positions(&mut world, 1000);
    assert_eq!(world.entities[0].position, Some(Position { x: 250, y: 100 }));
    system_find_collisions(&mut world, Position { x: 0, y: 0 }, 800, 800);
    let facts = world.entities[0].collisions.as_ref().unwrap();
    assert_eq!(facts.0, vec![Collision { entity: 1, collider: blocker_col }]);
    system_handle_collisions(&mut world, 1000);
    assert_eq!(world.entities[0].position, Some(Position { x: 230, y: 100 }));
    assert_eq!(world.entities[0].velocity, Some(Velocity { dx: 0, dy: 0 }));
    assert!(world.entities[0].collisions.as_ref().unwrap().0.is_empty());
}

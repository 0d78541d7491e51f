//! Tests of the wrap engine: teleport, ghost lifecycle, despawn rules and
//! expiry. The viewport is the rectangle (-400, 400, 300, -300) given as
//! (left, right, top, bottom) unless a test says otherwise.

use asteroid::wrap::{
    auto_unwrap, despawn_ghosts_direct, despawn_ghosts_indirect, spawn_ghosts,
    teleport_wrap_non_wrapped, teleport_wrapped,
};
use asteroid::{
    Area, AsteroidsGamePlugins, Collider2D, CollisionLayer, CollisionMask, Shape2D, Vec2, Wrap,
    WrapPlugin, World,
};

fn viewport() -> Area {
    Area { left: -400, right: 400, top: 300, bottom: -300 }
}

fn world_with_camera() -> World {
    let mut world = World::new();
    let camera = world.spawn(Vec2 { x: 0, y: 0 });
    world.set_camera(camera, viewport());
    world
}

fn circle_collider(radius: i64) -> Collider2D {
    Collider2D { shape: Shape2D::Circle(radius), position: Vec2 { x: 0, y: 0 } }
}

/// A wrap-eligible circle of radius 20, already wrapped (it owns ghosts).
fn spawn_wrapped_circle(world: &mut World, x: i64, y: i64) -> u64 {
    let id = world.spawn(Vec2 { x, y });
    world.set_collider(id, circle_collider(20));
    world.set_wrap(id, Wrap::default());
    spawn_ghosts(world);
    assert!(world.has_wrapped(id));
    id
}

#[test]
fn wrap_teleport_exact_shift() {
    let mut world = world_with_camera();
    let id = spawn_wrapped_circle(&mut world, 0, 0);
    // Beyond the right edge: shifted left by exactly the viewport width.
    world.set_translation(id, Vec2 { x: 445, y: 0 });
    teleport_wrapped(&mut world);
    assert_eq!(world.translation_of(id), Some(Vec2 { x: -355, y: 0 }));
    // A second teleport without further movement must not double-shift.
    teleport_wrapped(&mut world);
    assert_eq!(world.translation_of(id), Some(Vec2 { x: -355, y: 0 }));
}

#[test]
fn wrap_teleport_on_edge_stays() {
    let mut world = world_with_camera();
    let id = spawn_wrapped_circle(&mut world, 0, 0);
    // Exactly on the right edge: not yet beyond it, so no teleport.
    world.set_translation(id, Vec2 { x: 400, y: 0 });
    teleport_wrapped(&mut world);
    assert_eq!(world.translation_of(id), Some(Vec2 { x: 400, y: 0 }));
}

#[test]
fn wrap_teleport_vertical() {
    let mut world = world_with_camera();
    let id = spawn_wrapped_circle(&mut world, 0, 0);
    world.set_translation(id, Vec2 { x: 0, y: -310 });
    teleport_wrapped(&mut world);
    // Shifted up by the viewport height 600.
    assert_eq!(world.translation_of(id), Some(Vec2 { x: 0, y: 290 }));
}

#[test]
fn crossing_budget_single_axis() {
    let mut world = world_with_camera();
    let id = world.spawn(Vec2 { x: 0, y: 0 });
    world.set_collider(id, circle_collider(20));
    world.set_wrap(id, Wrap::from_count(1));
    spawn_ghosts(&mut world);
    world.set_translation(id, Vec2 { x: 445, y: 0 });
    teleport_wrapped(&mut world);
    // One crossing spent the whole budget; the next auto-expiry check
    // removes the wrap policy.
    assert!(world.has_wrap(id));
    auto_unwrap(&mut world, 0);
    assert!(!world.has_wrap(id));
}

#[test]
fn crossing_budget_corner_clamps_to_zero() {
    let mut world = world_with_camera();
    let id = world.spawn(Vec2 { x: 0, y: 0 });
    world.set_collider(id, circle_collider(20));
    world.set_wrap(id, Wrap::from_count(1));
    spawn_ghosts(&mut world);
    // A corner crossing counts as two; the budget of one clamps at zero.
    world.set_translation(id, Vec2 { x: 445, y: 335 });
    teleport_wrapped(&mut world);
    assert_eq!(world.translation_of(id), Some(Vec2 { x: -355, y: -265 }));
    auto_unwrap(&mut world, 0);
    assert!(!world.has_wrap(id));
}

#[test]
fn crossing_budget_two_survives_one_crossing() {
    let mut world = world_with_camera();
    let id = world.spawn(Vec2 { x: 0, y: 0 });
    world.set_collider(id, circle_collider(20));
    world.set_wrap(id, Wrap::from_count(2));
    spawn_ghosts(&mut world);
    world.set_translation(id, Vec2 { x: 445, y: 0 });
    teleport_wrapped(&mut world);
    auto_unwrap(&mut world, 0);
    assert!(world.has_wrap(id));
}

#[test]
fn wrapped_entity_owns_three_ghosts() {
    let mut world = world_with_camera();
    let id = spawn_wrapped_circle(&mut world, 0, 0);
    assert_eq!(world.ghost_count_of(id), 3);
    let (g0, g1, g2) = world.wrapped_ghosts_of(id).unwrap();
    let g0 = g0.unwrap();
    let g1 = g1.unwrap();
    let g2 = g2.unwrap();
    assert!(g0 != g1 && g0 != g2 && g1 != g2);
    for gid in [g0, g1, g2] {
        assert!(world.is_ghost(gid));
        assert_eq!(world.ghost_target_of(gid), Some(id));
    }
}

#[test]
fn ghost_count_stays_three_across_ticks() {
    let mut world = world_with_camera();
    let id = world.spawn(Vec2 { x: 380, y: 0 });
    world.set_collider(id, circle_collider(20));
    world.set_wrap(id, Wrap::default());
    // The entity drifts right, crosses the edge and wraps; its ghost count
    // stays exactly three the whole time.
    let mut x: i64 = 380;
    for _ in 0..8 {
        x += 15;
        world.set_translation(id, Vec2 { x, y: 0 });
        AsteroidsGamePlugins::tick(&mut world, 0);
        if let Some(t) = world.translation_of(id) {
            x = t.x;
        }
        if world.has_wrapped(id) {
            assert_eq!(world.ghost_count_of(id), 3);
        } else {
            assert_eq!(world.ghost_count_of(id), 0);
        }
    }
    assert!(world.has_wrapped(id));
    assert_eq!(world.ghost_count_of(id), 3);
}

#[test]
fn ghost_placement_exact_positions() {
    let mut world = world_with_camera();
    let id = world.spawn(Vec2 { x: 395, y: 10 });
    world.set_collider(id, circle_collider(20));
    world.set_wrap(id, Wrap::default());
    WrapPlugin::tick(&mut world, 0);
    assert!(world.has_wrapped(id));
    let (g0, g1, g2) = world.wrapped_ghosts_of(id).unwrap();
    // The source sits in the right upper half: the horizontal mirror shifts
    // by twice the left edge, the vertical one by twice the bottom edge.
    assert_eq!(world.translation_of(g0.unwrap()), Some(Vec2 { x: 395 - 800, y: 10 }));
    assert_eq!(world.translation_of(g1.unwrap()), Some(Vec2 { x: 395, y: 10 - 600 }));
    assert_eq!(world.translation_of(g2.unwrap()), Some(Vec2 { x: 395 - 800, y: 10 - 600 }));
}

#[test]
fn ghost_placement_mirrors_left_lower_half() {
    let mut world = world_with_camera();
    let id = world.spawn(Vec2 { x: -50, y: -40 });
    world.set_collider(id, circle_collider(20));
    world.set_wrap(id, Wrap::default());
    WrapPlugin::tick(&mut world, 0);
    let (g0, g1, g2) = world.wrapped_ghosts_of(id).unwrap();
    // Left half mirrors toward the right edge, lower half toward the top.
    assert_eq!(world.translation_of(g0.unwrap()), Some(Vec2 { x: -50 + 800, y: -40 }));
    assert_eq!(world.translation_of(g1.unwrap()), Some(Vec2 { x: -50, y: -40 + 600 }));
    assert_eq!(world.translation_of(g2.unwrap()), Some(Vec2 { x: -50 + 800, y: -40 + 600 }));
}

#[test]
fn ghost_copies_rotation_and_frame() {
    let mut world = world_with_camera();
    let id = world.spawn(Vec2 { x: 0, y: 0 });
    world.set_collider(id, circle_collider(20));
    world.set_wrap(id, Wrap::default());
    world.set_rotation(id, 42);
    world.set_frame(id, 7);
    WrapPlugin::tick(&mut world, 0);
    let (g0, _, _) = world.wrapped_ghosts_of(id).unwrap();
    assert_eq!(world.frame_of(g0.unwrap()), Some(7));
    // The frame follows the source on later ticks too.
    world.set_frame(id, 9);
    WrapPlugin::tick(&mut world, 0);
    assert_eq!(world.frame_of(g0.unwrap()), Some(9));
}

#[test]
fn end_to_end_teleport_and_notification() {
    let mut world = world_with_camera();
    // A wrap-eligible circular entity of radius 20 at (395, 0), carrying
    // layer bit 0b001.
    let mover = world.spawn(Vec2 { x: 395, y: 0 });
    world.set_collider(mover, circle_collider(20));
    world.set_wrap(mover, Wrap::default());
    world.set_layer(mover, CollisionLayer(0b001));
    // A stationary observer with mask bit 0b001 at (-355, 0).
    let observer = world.spawn(Vec2 { x: -355, y: 0 });
    world.set_collider(observer, circle_collider(20));
    world.set_mask(observer, CollisionMask(0b001));
    world.set_protection(observer);

    let events = AsteroidsGamePlugins::tick(&mut world, 0);
    assert_eq!(events.len(), 0);

    // The mover advances by its velocity (50, 0): now out of bounds.
    world.set_translation(mover, Vec2 { x: 445, y: 0 });
    let events = AsteroidsGamePlugins::tick(&mut world, 0);
    // Teleported by the viewport width of 800, landing within bounds.
    let landed = world.translation_of(mover).unwrap();
    assert_eq!(landed, Vec2 { x: -355, y: 0 });
    assert!(landed.x >= -400 && landed.x <= 400);
    // Exactly one notification: the observer saw the teleported entity.
    assert_eq!(events.len(), 1);
    assert_eq!(events[0].source, observer);
    assert_eq!(events[0].target, mover);
    assert_eq!(events[0].layer, 0b001);
}

#[test]
fn ghost_collides_for_its_source() {
    let mut world = world_with_camera();
    // A wrapping entity straddling the right edge, checking against layer
    // 0b001. Its horizontal ghost appears near the left edge.
    let mover = world.spawn(Vec2 { x: 395, y: 0 });
    world.set_collider(mover, circle_collider(20));
    world.set_wrap(mover, Wrap::default());
    world.set_mask(mover, CollisionMask(0b001));
    // A target sitting where the ghost lands: (395 - 800, 0) = (-405, 0).
    let probe = world.spawn(Vec2 { x: -405, y: 0 });
    world.set_collider(probe, circle_collider(20));
    world.set_layer(probe, CollisionLayer(0b001));
    world.set_protection(probe);

    let events = AsteroidsGamePlugins::tick(&mut world, 0);
    // The ghost overlapped the probe; the notification reports the ghost's
    // source entity, never the ghost identity.
    assert_eq!(events.len(), 1);
    assert_eq!(events[0].source, mover);
    assert_eq!(events[0].target, probe);
}

#[test]
fn unprotected_despawn() {
    let mut world = world_with_camera();
    // No wrap, no protection, fully outside: gone after one tick.
    let debris = world.spawn(Vec2 { x: 2000, y: 2000 });
    world.set_collider(debris, circle_collider(20));
    AsteroidsGamePlugins::tick(&mut world, 0);
    assert!(!world.exists_id(debris));
}

#[test]
fn protection_prevents_despawn() {
    let mut world = world_with_camera();
    let hud = world.spawn(Vec2 { x: 2000, y: 2000 });
    world.set_collider(hud, circle_collider(20));
    world.set_protection(hud);
    AsteroidsGamePlugins::tick(&mut world, 0);
    assert!(world.exists_id(hud));
}

#[test]
fn straddling_entity_is_not_despawned() {
    let mut world = world_with_camera();
    // Partially visible: its box overlaps the viewport, so it stays.
    let debris = world.spawn(Vec2 { x: 410, y: 0 });
    world.set_collider(debris, circle_collider(20));
    AsteroidsGamePlugins::tick(&mut world, 0);
    assert!(world.exists_id(debris));
}

#[test]
fn direct_teardown_when_settled_inside() {
    let mut world = world_with_camera();
    let id = spawn_wrapped_circle(&mut world, 0, 0);
    let (g0, g1, g2) = world.wrapped_ghosts_of(id).unwrap();
    world.remove_wrap(id);
    WrapPlugin::tick(&mut world, 0);
    assert!(world.exists_id(id));
    assert!(!world.has_wrapped(id));
    assert_eq!(world.ghost_count_of(id), 0);
    for gid in [g0.unwrap(), g1.unwrap(), g2.unwrap()] {
        assert!(!world.exists_id(gid));
    }
}

#[test]
fn direct_teardown_deferred_while_straddling() {
    let mut world = world_with_camera();
    let id = spawn_wrapped_circle(&mut world, 0, 0);
    // The entity stops wrapping while straddling the right edge: it keeps
    // its mirror until it settles fully inside.
    world.set_translation(id, Vec2 { x: 395, y: 0 });
    world.remove_wrap(id);
    WrapPlugin::tick(&mut world, 0);
    assert!(world.has_wrapped(id));
    assert_eq!(world.ghost_count_of(id), 3);
    world.set_translation(id, Vec2 { x: 0, y: 0 });
    WrapPlugin::tick(&mut world, 0);
    assert!(!world.has_wrapped(id));
    assert_eq!(world.ghost_count_of(id), 0);
}

#[test]
fn indirect_teardown_sweeps_orphan_ghosts() {
    let mut world = world_with_camera();
    let id = spawn_wrapped_circle(&mut world, 0, 0);
    let (g0, _, _) = world.wrapped_ghosts_of(id).unwrap();
    world.despawn(id);
    despawn_ghosts_indirect(&mut world);
    assert!(!world.exists_id(g0.unwrap()));
    assert_eq!(world.ghost_count_of(id), 0);
    // Only the camera is left.
    assert_eq!(world.len(), 1);
}

#[test]
fn ghosts_survive_while_source_lives() {
    let mut world = world_with_camera();
    let id = spawn_wrapped_circle(&mut world, 0, 0);
    despawn_ghosts_indirect(&mut world);
    despawn_ghosts_direct(&mut world);
    // Wrap policy still present: nothing is torn down.
    assert!(world.has_wrapped(id));
    assert_eq!(world.ghost_count_of(id), 3);
}

#[test]
fn receding_spawn_is_despawned_on_second_check() {
    let mut world = world_with_camera();
    // Wrap-eligible but outside and not moving back: the first check
    // records its distance, the second sees it non-decreasing and despawns.
    let id = world.spawn(Vec2 { x: 900, y: 0 });
    world.set_collider(id, circle_collider(20));
    world.set_wrap(id, Wrap::default());
    teleport_wrap_non_wrapped(&mut world);
    assert!(world.exists_id(id));
    teleport_wrap_non_wrapped(&mut world);
    assert!(!world.exists_id(id));
}

#[test]
fn approaching_spawn_survives_receding_check() {
    let mut world = world_with_camera();
    let id = world.spawn(Vec2 { x: 900, y: 0 });
    world.set_collider(id, circle_collider(20));
    world.set_wrap(id, Wrap::default());
    teleport_wrap_non_wrapped(&mut world);
    // Moving toward the viewport: the distance decreased, so it survives.
    world.set_translation(id, Vec2 { x: 700, y: 0 });
    teleport_wrap_non_wrapped(&mut world);
    assert!(world.exists_id(id));
}

#[test]
fn wrap_expiry_timer() {
    let mut world = world_with_camera();
    let id = world.spawn(Vec2 { x: 0, y: 0 });
    world.set_collider(id, circle_collider(20));
    world.set_wrap(id, Wrap::from_duration(100));
    auto_unwrap(&mut world, 50);
    assert!(world.has_wrap(id));
    auto_unwrap(&mut world, 50);
    assert!(!world.has_wrap(id));
}

#[test]
fn first_pass_accepts_adjacent_offscreen_spawn() {
    let mut world = world_with_camera();
    // Off-screen but overlapping the border on its very first evaluation:
    // it still acquires ghosts.
    let id = world.spawn(Vec2 { x: 405, y: 0 });
    world.set_collider(id, circle_collider(20));
    world.set_wrap(id, Wrap::default());
    spawn_ghosts(&mut world);
    assert!(world.has_wrapped(id));
}

#[test]
fn later_passes_require_fully_inside() {
    let mut world = world_with_camera();
    // Fully outside on the first evaluation: no ghosts, first pass spent.
    let id = world.spawn(Vec2 { x: 900, y: 0 });
    world.set_collider(id, circle_collider(20));
    world.set_wrap(id, Wrap::default());
    spawn_ghosts(&mut world);
    assert!(!world.has_wrapped(id));
    // Straddling the edge now only overlaps; after the first pass that is
    // no longer enough.
    world.set_translation(id, Vec2 { x: 395, y: 0 });
    spawn_ghosts(&mut world);
    assert!(!world.has_wrapped(id));
    // Fully inside it qualifies.
    world.set_translation(id, Vec2 { x: 0, y: 0 });
    spawn_ghosts(&mut world);
    assert!(world.has_wrapped(id));
}

#[test]
fn no_viewport_makes_wrap_engine_idle() {
    let mut world = World::new();
    let debris = world.spawn(Vec2 { x: 2000, y: 2000 });
    world.set_collider(debris, circle_collider(20));
    WrapPlugin::tick(&mut world, 0);
    assert!(world.exists_id(debris));
}

#[test]
fn two_cameras_make_wrap_engine_idle() {
    let mut world = world_with_camera();
    let second = world.spawn(Vec2 { x: 0, y: 0 });
    world.set_camera(second, viewport());
    let debris = world.spawn(Vec2 { x: 2000, y: 2000 });
    world.set_collider(debris, circle_collider(20));
    WrapPlugin::tick(&mut world, 0);
    assert!(world.exists_id(debris));
}

#[test]
fn ghosts_never_wrap_themselves() {
    let mut world = world_with_camera();
    let id = spawn_wrapped_circle(&mut world, 0, 0);
    let (g0, _, _) = world.wrapped_ghosts_of(id).unwrap();
    let gid = g0.unwrap();
    // Attaching a wrap policy to a ghost is refused.
    assert!(!world.set_wrap(gid, Wrap::default()));
    WrapPlugin::tick(&mut world, 0);
    assert!(!world.has_wrapped(gid));
    // The pool holds camera, source and exactly three ghosts.
    assert_eq!(world.len(), 5);
}

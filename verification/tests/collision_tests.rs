//! Tests of the overlap test and the per-tick collision scan. Coordinates
//! are fixed-point: 1000 units stand for one world unit where fractional
//! values matter.

use asteroid::collision::check;
use asteroid::{
    Collider2D, CollisionLayer, CollisionMask, CollisionPlugin, Shape2D, Vec2, World,
};

fn circle(radius: i64) -> Collider2D {
    Collider2D { shape: Shape2D::Circle(radius), position: Vec2 { x: 0, y: 0 } }
}

fn rectangle(hx: i64, hy: i64) -> Collider2D {
    Collider2D { shape: Shape2D::Rectangle(Vec2 { x: hx, y: hy }), position: Vec2 { x: 0, y: 0 } }
}

fn at(x: i64, y: i64) -> Vec2 {
    Vec2 { x, y }
}

#[test]
fn circle_circle_exact_boundary() {
    // Two circles of radius 1 with centers exactly 2.0 apart do not overlap.
    assert!(!check(&circle(1000), at(0, 0), &circle(1000), at(2000, 0)));
    // Centers 1.999 apart do.
    assert!(check(&circle(1000), at(0, 0), &circle(1000), at(1999, 0)));
}

#[test]
fn circle_circle_diagonal() {
    // Distance 5 (3-4-5 triangle), radii summing to 5: boundary, exclusive.
    assert!(!check(&circle(2000), at(0, 0), &circle(3000), at(3000, 4000)));
    assert!(check(&circle(2000), at(0, 0), &circle(3001), at(3000, 4000)));
}

#[test]
fn rectangle_rectangle_touching_edges() {
    // Two unit-half-extent rectangles centered at (0,0) and (2,0) touch
    // along an edge; touching does not count as overlapping.
    assert!(!check(&rectangle(1000, 1000), at(0, 0), &rectangle(1000, 1000), at(2000, 0)));
    // Centered at (0,0) and (1.999,0) they do overlap.
    assert!(check(&rectangle(1000, 1000), at(0, 0), &rectangle(1000, 1000), at(1999, 0)));
}

#[test]
fn rectangle_circle_closest_point() {
    // Circle of radius 0.5 approaching the right edge of a unit-half-extent
    // rectangle: the closest rectangle point is (1, 0).
    assert!(check(&rectangle(1000, 1000), at(0, 0), &circle(500), at(1400, 0)));
    // At distance exactly 0.5 from the edge the bound is exclusive.
    assert!(!check(&rectangle(1000, 1000), at(0, 0), &circle(500), at(1500, 0)));
    assert!(!check(&rectangle(1000, 1000), at(0, 0), &circle(500), at(1501, 0)));
}

#[test]
fn overlap_symmetry_on_samples() {
    let shapes = [circle(700), rectangle(500, 900), circle(1200), rectangle(1500, 300)];
    let positions = [at(0, 0), at(900, -200), at(-1300, 450), at(2100, 2100)];
    for a in &shapes {
        for b in &shapes {
            for pa in &positions {
                for pb in &positions {
                    assert_eq!(check(a, *pa, b, *pb), check(b, *pb, a, *pa));
                }
            }
        }
    }
}

#[test]
fn collider_local_offset_is_added() {
    let offset = Collider2D { shape: Shape2D::Circle(1000), position: Vec2 { x: 500, y: 0 } };
    // Effective center is (500, 0): a circle of radius 1 at (2400, 0) is
    // 1.9 away, overlapping; at (2600, 0) it is 2.1 away, not overlapping.
    assert!(check(&offset, at(0, 0), &circle(1000), at(2400, 0)));
    assert!(!check(&offset, at(0, 0), &circle(1000), at(2600, 0)));
}

#[test]
fn bitmask_gating_blocks_notification() {
    // Source mask 0b010, target layer 0b001: no notification even at zero
    // distance.
    let mut world = World::new();
    let source = world.spawn(Vec2 { x: 0, y: 0 });
    world.set_collider(source, circle(1000));
    world.set_mask(source, CollisionMask(0b010));
    let target = world.spawn(Vec2 { x: 0, y: 0 });
    world.set_collider(target, circle(1000));
    world.set_layer(target, CollisionLayer(0b001));
    let events = CollisionPlugin::transform_based_check(&world);
    assert_eq!(events.len(), 0);
}

#[test]
fn matched_bits_are_reported() {
    let mut world = World::new();
    let source = world.spawn(Vec2 { x: 0, y: 0 });
    world.set_collider(source, circle(1000));
    world.set_mask(source, CollisionMask(0b011));
    let target = world.spawn(Vec2 { x: 500, y: 0 });
    world.set_collider(target, circle(1000));
    world.set_layer(target, CollisionLayer(0b110));
    let events = CollisionPlugin::transform_based_check(&world);
    assert_eq!(events.len(), 1);
    assert_eq!(events[0].source, source);
    assert_eq!(events[0].target, target);
    assert_eq!(events[0].layer, 0b010);
}

#[test]
fn self_pair_is_never_tested() {
    // An entity carrying both a layer and a matching mask must not collide
    // with itself.
    let mut world = World::new();
    let lonely = world.spawn(Vec2 { x: 0, y: 0 });
    world.set_collider(lonely, circle(1000));
    world.set_mask(lonely, CollisionMask(0b001));
    world.set_layer(lonely, CollisionLayer(0b001));
    let events = CollisionPlugin::transform_based_check(&world);
    assert_eq!(events.len(), 0);
}

#[test]
fn one_source_may_hit_many_targets() {
    let mut world = World::new();
    let source = world.spawn(Vec2 { x: 0, y: 0 });
    world.set_collider(source, circle(1000));
    world.set_mask(source, CollisionMask(0b001));
    for x in [200i64, -300, 400] {
        let target = world.spawn(Vec2 { x, y: 0 });
        world.set_collider(target, circle(1000));
        world.set_layer(target, CollisionLayer(0b001));
    }
    let events = CollisionPlugin::transform_based_check(&world);
    assert_eq!(events.len(), 3);
    for event in &events {
        assert_eq!(event.source, source);
    }
}

#[test]
fn entities_without_collider_are_ignored() {
    let mut world = World::new();
    let source = world.spawn(Vec2 { x: 0, y: 0 });
    world.set_mask(source, CollisionMask(0b001));
    let target = world.spawn(Vec2 { x: 0, y: 0 });
    world.set_collider(target, circle(1000));
    world.set_layer(target, CollisionLayer(0b001));
    let events = CollisionPlugin::transform_based_check(&world);
    assert_eq!(events.len(), 0);
}

//! Shapes, colliders and the pairwise overlap test.
//!
//! Collisions work with a layer/mask design: a layer is a bit field naming
//! what an entity *is*, a mask names the layers an entity checks against.
//! When a source (mask owner) geometrically overlaps a target (layer owner)
//! and `mask & layer` is non-zero, a [`CollisionEvent`] is emitted.

use vstd::prelude::*;

use crate::geom::{bounded, lemma_square_bound, vec2_bounded, Area, Vec2, MAX_COORD};
use crate::world::{entity_wf, Entity, World};

verus! {

/// A collision shape: a circle by its radius or an axis-aligned rectangle by
/// its half-extents.
#[derive(Clone, Copy, Debug, PartialEq, Eq, Structural)]
pub enum Shape2D {
    Rectangle(Vec2),
    Circle(i64),
}

/// Shape dimensions are non-negative and within the caller bound.
pub open spec fn shape_wf(s: Shape2D) -> bool {
    match s {
        Shape2D::Rectangle(h) => 0 <= h.x <= MAX_COORD && 0 <= h.y <= MAX_COORD,
        Shape2D::Circle(r) => 0 <= r <= MAX_COORD,
    }
}

impl Default for Shape2D {
    /// The default shape is a unit-half-extent rectangle.
    fn default() -> (r: Shape2D)
        ensures
            r == Shape2D::Rectangle(Vec2 { x: 1, y: 1 }),
    {
        Shape2D::Rectangle(Vec2 { x: 1, y: 1 })
    }
}

/// Half-width of a shape's bounding box.
pub open spec fn half_x(s: Shape2D) -> int {
    match s {
        Shape2D::Rectangle(h) => h.x as int,
        Shape2D::Circle(r) => r as int,
    }
}

/// Half-height of a shape's bounding box.
pub open spec fn half_y(s: Shape2D) -> int {
    match s {
        Shape2D::Rectangle(h) => h.y as int,
        Shape2D::Circle(r) => r as int,
    }
}

/// The bounding box of a shape at translation `t` lies strictly inside `vp`.
pub open spec fn bbox_inside(s: Shape2D, t: Vec2, vp: Area) -> bool {
    &&& vp.right > t.x + half_x(s)
    &&& vp.left < t.x - half_x(s)
    &&& vp.top > t.y + half_y(s)
    &&& vp.bottom < t.y - half_y(s)
}

/// The bounding box of a shape at translation `t` is disjoint from `vp`
/// (touching edges count as outside).
pub open spec fn bbox_outside(s: Shape2D, t: Vec2, vp: Area) -> bool {
    ||| t.y - half_y(s) > vp.top
    ||| t.y + half_y(s) < vp.bottom
    ||| t.x + half_x(s) < vp.left
    ||| t.x - half_x(s) > vp.right
}

/// The bounding box of a shape at translation `t` shares at least a point or
/// an edge with `vp`.
pub open spec fn bbox_overlap(s: Shape2D, t: Vec2, vp: Area) -> bool {
    !bbox_outside(s, t, vp)
}

/// The bounding box of `s` translated to `t`.
pub fn shape_bbox(s: &Shape2D, t: Vec2) -> (r: Area)
    requires
        shape_wf(*s),
        vec2_bounded(t, 3 * MAX_COORD as int),
    ensures
        r.left == t.x - half_x(*s),
        r.right == t.x + half_x(*s),
        r.top == t.y + half_y(*s),
        r.bottom == t.y - half_y(*s),
{
    let half = match s {
        Shape2D::Rectangle(h) => *h,
        Shape2D::Circle(radius) => Vec2 { x: *radius, y: *radius },
    };
    Area::from_center_half(t, half)
}

/// A shape displaced from its entity's transform origin by a local offset.
#[derive(Clone, Copy, Debug, PartialEq, Eq, Structural)]
pub struct Collider2D {
    pub shape: Shape2D,
    pub position: Vec2,
}

/// Shape and local offset are within the caller bounds.
pub open spec fn collider_wf(c: Collider2D) -> bool {
    &&& shape_wf(c.shape)
    &&& vec2_bounded(c.position, MAX_COORD as int)
}

impl Default for Collider2D {
    /// The default collider: default shape, zero offset.
    fn default() -> (r: Collider2D)
        ensures
            r == (Collider2D {
                shape: Shape2D::Rectangle(Vec2 { x: 1, y: 1 }),
                position: Vec2 { x: 0, y: 0 },
            }),
    {
        Collider2D {
            shape: Shape2D::Rectangle(Vec2 { x: 1, y: 1 }),
            position: Vec2 { x: 0, y: 0 },
        }
    }
}

/// The layers an entity belongs to.
#[derive(Clone, Copy, Debug, PartialEq, Eq, Structural)]
pub struct CollisionLayer(pub u8);

/// The layers an entity checks collisions against.
#[derive(Clone, Copy, Debug, PartialEq, Eq, Structural)]
pub struct CollisionMask(pub u8);

/// An overlap notification: the mask owner is the source, the layer owner the
/// target, and `layer` carries the matched bits. A ghost source is rewritten
/// to the ghost's live target entity before the event is reported.
#[derive(Clone, Copy, Debug, PartialEq, Eq, Structural)]
pub struct CollisionEvent {
    pub source: u64,
    pub target: u64,
    pub layer: u8,
}

/// `v` clamped into `[lo, hi]`.
pub open spec fn clamp_int(v: int, lo: int, hi: int) -> int {
    if v < lo {
        lo
    } else if v > hi {
        hi
    } else {
        v
    }
}

/// Whether two colliders at the given entity translations overlap. Bounds are
/// exclusive throughout: touching shapes do not overlap.
pub open spec fn spec_overlaps(ca: Collider2D, pa: Vec2, cb: Collider2D, pb: Vec2) -> bool {
    let ax = pa.x + ca.position.x;
    let ay = pa.y + ca.position.y;
    let bx = pb.x + cb.position.x;
    let by = pb.y + cb.position.y;
    match (ca.shape, cb.shape) {
        (Shape2D::Rectangle(ea), Shape2D::Rectangle(eb)) => {
            &&& ax - ea.x < bx + eb.x
            &&& ax + ea.x > bx - eb.x
            &&& ay - ea.y < by + eb.y
            &&& ay + ea.y > by - eb.y
        },
        (Shape2D::Circle(ra), Shape2D::Circle(rb)) => {
            let dx = ax - bx;
            let dy = ay - by;
            let rr = ra + rb;
            dx * dx + dy * dy < rr * rr
        },
        (Shape2D::Rectangle(ea), Shape2D::Circle(rb)) => rect_circle_overlap(
            ax,
            ay,
            ea.x as int,
            ea.y as int,
            bx,
            by,
            rb as int,
        ),
        (Shape2D::Circle(ra), Shape2D::Rectangle(eb)) => rect_circle_overlap(
            bx,
            by,
            eb.x as int,
            eb.y as int,
            ax,
            ay,
            ra as int,
        ),
    }
}

/// A rectangle (center `rx, ry`, half-extents `ex, ey`) overlaps a circle
/// (center `cx, cy`, radius `r`): the circle center's squared distance to the
/// nearest rectangle point is strictly below the squared radius.
pub open spec fn rect_circle_overlap(
    rx: int,
    ry: int,
    ex: int,
    ey: int,
    cx: int,
    cy: int,
    r: int,
) -> bool {
    let nx = clamp_int(cx - rx, -ex, ex) + rx;
    let ny = clamp_int(cy - ry, -ey, ey) + ry;
    let dx = cx - nx;
    let dy = cy - ny;
    dx * dx + dy * dy < r * r
}

/// Overlap testing is symmetric in its two shapes.
pub proof fn lemma_overlaps_symmetric(ca: Collider2D, pa: Vec2, cb: Collider2D, pb: Vec2)
    ensures
        spec_overlaps(ca, pa, cb, pb) == spec_overlaps(cb, pb, ca, pa),
{
    let ax = pa.x + ca.position.x;
    let ay = pa.y + ca.position.y;
    let bx = pb.x + cb.position.x;
    let by = pb.y + cb.position.y;
    lemma_square_swap(ax as int, bx as int);
    lemma_square_swap(ay as int, by as int);
}

/// Squared differences do not depend on the order of the operands.
proof fn lemma_square_swap(a: int, b: int)
    ensures
        (a - b) * (a - b) == (b - a) * (b - a),
{
    assert((a - b) * (a - b) == (b - a) * (b - a)) by (nonlinear_arith);
}

/// `v` clamped into `[lo, hi]`.
fn clamp(v: i64, lo: i64, hi: i64) -> (r: i64)
    requires
        lo <= hi,
    ensures
        r as int == clamp_int(v as int, lo as int, hi as int),
{
    if v < lo {
        lo
    } else if v > hi {
        hi
    } else {
        v
    }
}

/// Whether two colliders at the given entity translations overlap.
pub fn check(collider_a: &Collider2D, position_a: Vec2, collider_b: &Collider2D, position_b: Vec2) -> (r:
    bool)
    requires
        collider_wf(*collider_a),
        collider_wf(*collider_b),
        vec2_bounded(position_a, 3 * MAX_COORD as int),
        vec2_bounded(position_b, 3 * MAX_COORD as int),
    ensures
        r == spec_overlaps(*collider_a, position_a, *collider_b, position_b),
{
    let ax = position_a.x + collider_a.position.x;
    let ay = position_a.y + collider_a.position.y;
    let bx = position_b.x + collider_b.position.x;
    let by = position_b.y + collider_b.position.y;
    match (&collider_a.shape, &collider_b.shape) {
        (Shape2D::Rectangle(extends_a), Shape2D::Rectangle(extends_b)) => {
            ax - extends_a.x < bx + extends_b.x && ax + extends_a.x > bx - extends_b.x && ay
                - extends_a.y < by + extends_b.y && ay + extends_a.y > by - extends_b.y
        },
        (Shape2D::Circle(radius_a), Shape2D::Circle(radius_b)) => {
            circle_hit(bx, by, ax, ay, *radius_a + *radius_b)
        },
        (Shape2D::Rectangle(extends_a), Shape2D::Circle(radius_b)) => {
            rect_circle_check(ax, ay, *extends_a, bx, by, *radius_b)
        },
        (Shape2D::Circle(radius_a), Shape2D::Rectangle(extends_b)) => {
            rect_circle_check(bx, by, *extends_b, ax, ay, *radius_a)
        },
    }
}

/// The entity identifier a notification reports as its source: a ghost is
/// rewritten to its live target, so consumers never see ghost identities.
pub open spec fn rewritten_source(e: Entity) -> u64 {
    match e.ghost_tag {
        Some(g) => g.target,
        None => e.id,
    }
}

/// The source at index `i` (mask owner) and the target at index `j` (layer
/// owner) produce a notification this tick: they are distinct entities, both
/// carry colliders, their mask and layer bits intersect, and their colliders
/// overlap at the current world positions.
pub open spec fn pair_fires(s: Seq<Entity>, i: int, j: int) -> bool {
    &&& 0 <= i < s.len()
    &&& 0 <= j < s.len()
    &&& i != j
    &&& s[i].mask is Some
    &&& s[i].collider is Some
    &&& s[j].layer is Some
    &&& s[j].collider is Some
    &&& (s[i].mask->Some_0.0 & s[j].layer->Some_0.0) != 0
    &&& spec_overlaps(
        s[i].collider->Some_0,
        s[i].translation,
        s[j].collider->Some_0,
        s[j].translation,
    )
}

/// The notification produced by the pair at indices `i`, `j`.
pub open spec fn event_of(s: Seq<Entity>, i: int, j: int) -> CollisionEvent {
    CollisionEvent {
        source: rewritten_source(s[i]),
        target: s[j].id,
        layer: s[i].mask->Some_0.0 & s[j].layer->Some_0.0,
    }
}

/// Bitmask gating: a pair whose mask and layer bits do not intersect never
/// produces a notification, regardless of geometric overlap.
pub proof fn lemma_bitmask_gating(s: Seq<Entity>, i: int, j: int)
    requires
        0 <= i < s.len(),
        0 <= j < s.len(),
        s[i].mask is Some,
        s[j].layer is Some,
        (s[i].mask->Some_0.0 & s[j].layer->Some_0.0) == 0,
    ensures
        !pair_fires(s, i, j),
{
}

/// Marker for the collision engine; [`CollisionPlugin::transform_based_check`]
/// is its per-tick scan.
pub struct CollisionPlugin;

impl CollisionPlugin {
    /// The per-tick scan: tests every mask owner against every layer owner
    /// (the full cross product, self-pairs excluded) and returns one
    /// notification per firing pair. The result contains exactly the events
    /// of the firing pairs; their order carries no meaning.
    pub fn transform_based_check(world: &World) -> (events: Vec<CollisionEvent>)
        requires
            world.wf(),
        ensures
            forall|i: int, j: int|
                #[trigger] pair_fires(world.entities@, i, j) ==> events@.contains(
                    event_of(world.entities@, i, j),
                ),
            forall|e: CollisionEvent|
                #[trigger] events@.contains(e) ==> exists|i: int, j: int|
                    pair_fires(world.entities@, i, j) && e == event_of(world.entities@, i, j),
    {
        let ghost s = world.entities@;
        let n = world.entities.len();
        let mut events: Vec<CollisionEvent> = Vec::new();
        let mut i: usize = 0;
        while i < n
            invariant
                world.wf(),
                n == s.len(),
                s == world.entities@,
                0 <= i <= n,
                forall|x: int, y: int|
                    0 <= x < i && #[trigger] pair_fires(s, x, y) ==> events@.contains(
                        event_of(s, x, y),
                    ),
                forall|e: CollisionEvent|
                    #[trigger] events@.contains(e) ==> exists|x: int, y: int|
                        pair_fires(s, x, y) && e == event_of(s, x, y),
            decreases n - i,
        {
            let src = world.entities[i];
            match (src.mask, src.collider) {
                (Some(mask), Some(src_collider)) => {
                    let mut j: usize = 0;
                    while j < n
                        invariant
                            world.wf(),
                            n == s.len(),
                            s == world.entities@,
                            0 <= i < n,
                            0 <= j <= n,
                            src == s[i as int],
                            src.mask == Some(mask),
                            src.collider == Some(src_collider),
                            forall|x: int, y: int|
                                0 <= x < i && #[trigger] pair_fires(s, x, y) ==> events@.contains(
                                    event_of(s, x, y),
                                ),
                            forall|y: int|
                                0 <= y < j && #[trigger] pair_fires(s, i as int, y)
                                    ==> events@.contains(event_of(s, i as int, y)),
                            forall|e: CollisionEvent|
                                #[trigger] events@.contains(e) ==> exists|x: int, y: int|
                                    pair_fires(s, x, y) && e == event_of(s, x, y),
                        decreases n - j,
                    {
                        if j != i {
                            let tgt = world.entities[j];
                            match (tgt.layer, tgt.collider) {
                                (Some(layer), Some(tgt_collider)) => {
                                    let bits = mask.0 & layer.0;
                                    if bits > 0 {
                                        proof {
                                            assert(entity_wf(s[i as int]));
                                            assert(entity_wf(s[j as int]));
                                        }
                                        if check(
                                            &src_collider,
                                            src.translation,
                                            &tgt_collider,
                                            tgt.translation,
                                        ) {
                                            let source = match src.ghost_tag {
                                                Some(g) => g.target,
                                                None => src.id,
                                            };
                                            let ev = CollisionEvent {
                                                source,
                                                target: tgt.id,
                                                layer: bits,
                                            };
                                            proof {
                                                assert(pair_fires(s, i as int, j as int));
                                                assert(ev == event_of(s, i as int, j as int));
                                            }
                                            let ghost before = events@;
                                            events.push(ev);
                                            proof {
                                                assert forall|e: CollisionEvent| #[trigger]
                                                    events@.contains(e) implies before.contains(e)
                                                    || e == ev by {
                                                    vstd::seq_lib::lemma_seq_contains_after_push(
                                                        before,
                                                        ev,
                                                        e,
                                                    );
                                                }
                                                assert forall|e: CollisionEvent|
                                                    before.contains(e) || e == ev implies #[trigger]
                                                    events@.contains(e) by {
                                                    vstd::seq_lib::lemma_seq_contains_after_push(
                                                        before,
                                                        ev,
                                                        e,
                                                    );
                                                }
                                            }
                                        }
                                    }
                                },
                                _ => {},
                            }
                        }
                        j = j + 1;
                    }
                },
                _ => {},
            }
            i = i + 1;
        }
        events
    }
}

/// Whether the point `(cx, cy)` lies strictly within distance `reach` of
/// `(nx, ny)`.
fn circle_hit(nx: i64, ny: i64, cx: i64, cy: i64, reach: i64) -> (r: bool)
    requires
        bounded(nx as int, 5 * MAX_COORD as int),
        bounded(ny as int, 5 * MAX_COORD as int),
        bounded(cx as int, 5 * MAX_COORD as int),
        bounded(cy as int, 5 * MAX_COORD as int),
        0 <= reach <= 2 * MAX_COORD,
    ensures
        r == ((cx - nx) * (cx - nx) + (cy - ny) * (cy - ny) < reach * reach),
{
    let dx = cx - nx;
    let dy = cy - ny;
    proof {
        lemma_square_bound(dx as int, 10 * MAX_COORD as int);
        lemma_square_bound(dy as int, 10 * MAX_COORD as int);
        lemma_square_bound(reach as int, 2 * MAX_COORD as int);
        assert(0xA00_0000int * 0xA00_0000int == 0x64_0000_0000_0000int) by (nonlinear_arith);
        assert(0x200_0000int * 0x200_0000int == 0x4_0000_0000_0000int) by (nonlinear_arith);
    }
    dx * dx + dy * dy < reach * reach
}

/// Whether the rectangle centered at `(rx, ry)` with half-extents `extends`
/// overlaps the circle centered at `(cx, cy)` with radius `radius`.
fn rect_circle_check(rx: i64, ry: i64, extends: Vec2, cx: i64, cy: i64, radius: i64) -> (r: bool)
    requires
        bounded(rx as int, 4 * MAX_COORD as int),
        bounded(ry as int, 4 * MAX_COORD as int),
        bounded(cx as int, 4 * MAX_COORD as int),
        bounded(cy as int, 4 * MAX_COORD as int),
        0 <= extends.x <= MAX_COORD,
        0 <= extends.y <= MAX_COORD,
        0 <= radius <= MAX_COORD,
    ensures
        r == rect_circle_overlap(
            rx as int,
            ry as int,
            extends.x as int,
            extends.y as int,
            cx as int,
            cy as int,
            radius as int,
        ),
{
    let nx = clamp(cx - rx, -extends.x, extends.x) + rx;
    let ny = clamp(cy - ry, -extends.y, extends.y) + ry;
    circle_hit(nx, ny, cx, cy, radius)
}

} // verus!

//! The wrap engine: toroidal wrapping and ghost mirroring.
//!
//! A play-field bounded by one viewport rectangle behaves as a seamless
//! toroidal surface. Entities carrying [`Wrap`] teleport across viewport
//! edges once fully crossed and keep up to three mirror ("ghost") entities
//! near the opposite edges while eligible; [`Wrapped`] marks an entity that
//! currently owns ghosts. Each tick runs the numbered steps of
//! [`WrapPlugin::tick`] in order.

use vstd::prelude::*;

use crate::geom::{vec2_bounded, viewport_wf, Area, Vec2, MAX_COORD};
use crate::world::{
    count_matching, entity_wf, has_id, lemma_count_matching_at, lemma_count_matching_two,
    lemma_pool_wf_update, pool_wf, Entity, World,
};

verus! {

/// Marks the single camera entity whose projection defines the viewport.
#[derive(Clone, Copy, Debug)]
pub struct WrapCamera;

/// Opts an entity out of the out-of-bounds despawn rule without making it
/// wrap-eligible.
#[derive(Clone, Copy, Debug)]
pub struct NoWrapProtection;

/// Wrap policy of an entity: how often and for how long it may keep
/// wrapping. Time is counted in the caller's per-tick elapsed units.
#[derive(Clone, Copy, Debug)]
pub struct Wrap {
    /// Remaining permitted edge crossings; `None` is unlimited.
    pub remaining: Option<u8>,
    /// Time left until wrap eligibility expires; `None` never expires.
    pub timer: Option<u64>,
    /// True until the ghost-eligibility check has seen the entity once.
    pub first_pass: bool,
}

impl Default for Wrap {
    /// Unlimited wrapping, no expiry, not yet evaluated.
    fn default() -> (r: Wrap)
        ensures
            r == (Wrap { remaining: None, timer: None, first_pass: true }),
    {
        Wrap { remaining: None, timer: None, first_pass: true }
    }
}

impl Wrap {
    /// Wrap policy that allows at most `remaining` edge crossings.
    pub fn from_count(remaining: u8) -> (r: Wrap)
        ensures
            r == (Wrap { remaining: Some(remaining), timer: None, first_pass: true }),
    {
        Wrap { remaining: Some(remaining), timer: None, first_pass: true }
    }

    /// Wrap policy that expires after `duration` elapsed-time units.
    pub fn from_duration(duration: u64) -> (r: Wrap)
        ensures
            r == (Wrap { remaining: None, timer: Some(duration), first_pass: true }),
    {
        Wrap { remaining: None, timer: Some(duration), first_pass: true }
    }
}

/// Marks an entity that currently owns ghosts and carries their identifiers,
/// one per mirror axis (horizontal, vertical, diagonal).
#[derive(Clone, Copy, Debug)]
pub struct Wrapped {
    pub ghosts: (Option<u64>, Option<u64>, Option<u64>),
}

/// The fixed relative placement of a ghost: shifted along the X axis only,
/// the Y axis only, or both.
#[derive(Clone, Copy, Debug, PartialEq, Eq, Structural)]
pub enum MirrorAxis {
    Horizontal,
    Vertical,
    Diagonal,
}

/// Whether a mirror axis moves the X component of the ghost offset.
pub open spec fn shifts_x(a: MirrorAxis) -> bool {
    a == MirrorAxis::Horizontal || a == MirrorAxis::Diagonal
}

/// Whether a mirror axis moves the Y component of the ghost offset.
pub open spec fn shifts_y(a: MirrorAxis) -> bool {
    a == MirrorAxis::Vertical || a == MirrorAxis::Diagonal
}

/// Marks a ghost entity: a non-authoritative mirror of one source entity,
/// recomputed from the source every tick it is alive.
#[derive(Clone, Copy, Debug)]
pub struct GhostTag {
    /// The mirrored source entity.
    pub target: u64,
    /// The fixed mirror placement chosen at creation.
    pub direction: MirrorAxis,
    /// Translation computed for this tick, written to the transform in a
    /// separate step.
    pub shift: Vec2,
    /// Rotation copied verbatim from the source.
    pub rotation: i64,
    /// Animation frame copied verbatim from the source.
    pub index: Option<u32>,
}

impl GhostTag {
    /// A fresh ghost of `target` with the given placement; shift and
    /// rotation are recomputed before they are ever applied.
    pub fn new(target: u64, direction: MirrorAxis) -> (r: GhostTag)
        ensures
            r == (GhostTag {
                target,
                direction,
                shift: Vec2 { x: 0, y: 0 },
                rotation: 0,
                index: None,
            }),
    {
        GhostTag { target, direction, shift: Vec2 { x: 0, y: 0 }, rotation: 0, index: None }
    }
}

/// An entity that carries a viewport: the wrap camera.
pub open spec fn is_camera(e: Entity) -> bool {
    e.wrap_camera is Some && e.projection is Some
}

/// The viewport the wrap engine works against: defined exactly when a single
/// camera entity is present. With none (or several), every viewport-driven
/// step is a no-op for the tick.
pub open spec fn viewport_of(s: Seq<Entity>) -> Option<Area> {
    if count_matching(s, |e: Entity| is_camera(e)) == 1 {
        let i = choose|i: int| 0 <= i < s.len() && is_camera(#[trigger] s[i]);
        Some(s[i].projection->Some_0)
    } else {
        None
    }
}

/// Finds the viewport, if exactly one camera entity carries one.
pub fn find_viewport(world: &World) -> (r: Option<Area>)
    ensures
        r == viewport_of(world.entities@),
{
    let ghost s = world.entities@;
    let n = world.entities.len();
    let mut found: Option<Area> = None;
    let mut count: usize = 0;
    let mut k: usize = 0;
    while k < n
        invariant
            n == s.len(),
            s == world.entities@,
            0 <= k <= n,
            count == count_matching(s.subrange(0, k as int), |e: Entity| is_camera(e)),
            count == 0 <==> found is None,
            count > 0 ==> exists|i: int|
                0 <= i < k && is_camera(#[trigger] s[i]) && found == Some(
                    s[i].projection->Some_0,
                ),
        decreases n - k,
    {
        let e = world.entities[k];
        proof {
            crate::world::lemma_count_matching_extend(s, |e: Entity| is_camera(e), k as int);
            crate::world::lemma_count_matching_bounds(
                s.subrange(0, k as int),
                |e: Entity| is_camera(e),
            );
        }
        match (e.wrap_camera, e.projection) {
            (Some(_), Some(p)) => {
                found = Some(p);
                count = count + 1;
            },
            _ => {},
        }
        k = k + 1;
    }
    proof {
        assert(s.subrange(0, n as int) =~= s);
        let pred = |e: Entity| is_camera(e);
        if count == 1 {
            let i = choose|i: int| 0 <= i < n && is_camera(#[trigger] s[i]) && found == Some(
                s[i].projection->Some_0,
            );
            let j = choose|j: int| 0 <= j < s.len() && is_camera(#[trigger] s[j]);
            assert(is_camera(s[i]));
            assert(is_camera(s[j]));
            if i != j {
                if i < j {
                    lemma_count_matching_two(s, pred, i, j);
                } else {
                    lemma_count_matching_two(s, pred, j, i);
                }
            }
        } else if count == 0 {
            if viewport_of(s) is Some {
                let j = choose|j: int| 0 <= j < s.len() && is_camera(#[trigger] s[j]);
                lemma_count_matching_at(s, pred, j);
            }
        }
    }
    if count == 1 {
        found
    } else {
        None
    }
}

/// The viewport of a well-formed pool is itself well-formed.
pub proof fn lemma_viewport_wf(s: Seq<Entity>, next: int, vp: Area)
    requires
        pool_wf(s, next),
        viewport_of(s) == Some(vp),
    ensures
        viewport_wf(vp),
{
    crate::world::lemma_count_matching_pos(s, |e: Entity| is_camera(e));
    let w = choose|i: int| 0 <= i < s.len() && (|e: Entity| is_camera(e))(#[trigger] s[i]);
    let i = choose|i: int| 0 <= i < s.len() && is_camera(#[trigger] s[i]);
    assert(is_camera(s[w]));
    assert(is_camera(s[i]));
    assert(entity_wf(s[i]));
}

/// One-axis teleport: a coordinate beyond the right (left) edge is shifted
/// left (right) by exactly the viewport width.
pub open spec fn wrap_coord(x: int, low: int, high: int) -> int {
    if x > high {
        x - (high - low)
    } else if x < low {
        x + (high - low)
    } else {
        x
    }
}

/// Number of edges a translation crosses this tick: one per out-of-range
/// axis, so a corner counts as two.
pub open spec fn crossings(t: Vec2, vp: Area) -> int {
    (if t.x > vp.right || t.x < vp.left {
        1int
    } else {
        0int
    }) + (if t.y > vp.top || t.y < vp.bottom {
        1int
    } else {
        0int
    })
}

/// A crossing budget decremented by `c` crossings, floored at zero.
pub open spec fn dec_remaining(rem: Option<u8>, c: int) -> Option<u8> {
    match rem {
        Some(n) => Some(
            if n <= c {
                0u8
            } else {
                (n - c) as u8
            },
        ),
        None => None,
    }
}

/// Teleport of one entity: entities marked [`Wrapped`] (and never ghosts)
/// are shifted back across each crossed edge, and their crossing budget, if
/// tracked, is decremented by the number of edges crossed.
pub open spec fn teleport_rec(e: Entity, vp: Area) -> Entity {
    if e.wrapped is Some && e.ghost_tag is None {
        let t = Vec2 {
            x: wrap_coord(e.translation.x as int, vp.left as int, vp.right as int) as i64,
            y: wrap_coord(e.translation.y as int, vp.bottom as int, vp.top as int) as i64,
        };
        let w = match e.wrap {
            Some(w) => Some(
                Wrap { remaining: dec_remaining(w.remaining, crossings(e.translation, vp)), ..w },
            ),
            None => None,
        };
        Entity { translation: t, wrap: w, ..e }
    } else {
        e
    }
}

/// The teleport step over the whole pool.
pub open spec fn teleport_step(s: Seq<Entity>, vp: Area) -> Seq<Entity> {
    Seq::new(s.len(), |i: int| teleport_rec(s[i], vp))
}

/// The teleport step as it runs in a tick: a no-op without a viewport.
pub open spec fn teleport_full(s: Seq<Entity>) -> Seq<Entity> {
    match viewport_of(s) {
        Some(vp) => teleport_step(s, vp),
        None => s,
    }
}

/// Teleporter for any non-ghost [`Wrapped`] entity: warps it to the other
/// side of the viewport as soon as its translation passes an edge.
pub fn teleport_wrapped(world: &mut World)
    requires
        old(world).wf(),
    ensures
        final(world).wf(),
        final(world).next_id == old(world).next_id,
        final(world).entities@ == teleport_full(old(world).entities@),
{
    let vp = match find_viewport(world) {
        Some(vp) => vp,
        None => {
            return ;
        },
    };
    let ghost s = world.entities@;
    proof {
        lemma_viewport_wf(s, old(world).next_id as int, vp);
    }
    let h_warp = vp.right - vp.left;
    let v_warp = vp.top - vp.bottom;
    let n = world.entities.len();
    let mut out: Vec<Entity> = Vec::new();
    let mut k: usize = 0;
    while k < n
        invariant
            n == s.len(),
            s == world.entities@,
            pool_wf(s, old(world).next_id as int),
            viewport_wf(vp),
            h_warp == vp.right - vp.left,
            v_warp == vp.top - vp.bottom,
            0 <= k <= n,
            out@.len() == k,
            forall|i: int| 0 <= i < k ==> out@[i] == teleport_rec(s[i], vp),
            forall|i: int| 0 <= i < k ==> entity_wf(#[trigger] out@[i]),
        decreases n - k,
    {
        let mut e = world.entities[k];
        proof {
            assert(entity_wf(s[k as int]));
        }
        if e.wrapped.is_some() && e.ghost_tag.is_none() {
            let mut dec_count: u8 = 0;
            if e.translation.x > vp.right {
                e.translation.x = e.translation.x - h_warp;
                dec_count = dec_count + 1;
            }
            if e.translation.x < vp.left {
                e.translation.x = e.translation.x + h_warp;
                dec_count = dec_count + 1;
            }
            if e.translation.y > vp.top {
                e.translation.y = e.translation.y - v_warp;
                dec_count = dec_count + 1;
            }
            if e.translation.y < vp.bottom {
                e.translation.y = e.translation.y + v_warp;
                dec_count = dec_count + 1;
            }
            match e.wrap {
                Some(w) => {
                    match w.remaining {
                        Some(c) => {
                            let left_over: u8 = if c <= dec_count {
                                0
                            } else {
                                c - dec_count
                            };
                            e.wrap = Some(Wrap { remaining: Some(left_over), ..w });
                        },
                        None => {},
                    }
                },
                None => {},
            }
            proof {
                assert(e == teleport_rec(s[k as int], vp));
            }
        }
        out.push(e);
        k = k + 1;
    }
    world.entities = out;
    proof {
        assert(world.entities@ =~= teleport_step(s, vp));
        lemma_pool_wf_update(s, world.entities@, old(world).next_id as int);
    }
}

/// Entities the ghost-eligibility scan visits: wrap-eligible, not yet
/// wrapped, with a shape to mirror.
pub open spec fn scanned(e: Entity) -> bool {
    &&& e.wrap is Some
    &&& e.wrapped is None
    &&& e.collider is Some
}

/// A scanned entity qualifies for ghosts: on its first evaluation its
/// bounding box need only overlap the viewport, afterwards it must lie fully
/// inside it.
pub open spec fn eligible(e: Entity, vp: Area) -> bool {
    &&& scanned(e)
    &&& {
        let sh = e.collider->Some_0.shape;
        (e.wrap->Some_0.first_pass && crate::collision::bbox_overlap(sh, e.translation, vp))
            || crate::collision::bbox_inside(sh, e.translation, vp)
    }
}

/// Number of entities that acquire ghosts this tick.
pub open spec fn count_eligible(s: Seq<Entity>, vp: Area) -> int {
    count_matching(s, |e: Entity| eligible(e, vp))
}

/// The eligibility scan's update of one visited entity: its first pass is
/// over; when eligible it is marked [`Wrapped`], owning the three fresh
/// ghost identifiers starting at `base`.
pub open spec fn spawn_mark(e: Entity, vp: Area, base: int) -> Entity {
    if eligible(e, vp) {
        Entity {
            wrap: Some(Wrap { first_pass: false, ..e.wrap->Some_0 }),
            wrapped: Some(
                Wrapped {
                    ghosts: (Some(base as u64), Some((base + 1) as u64), Some((base + 2) as u64)),
                },
            ),
            ..e
        }
    } else if scanned(e) {
        Entity { wrap: Some(Wrap { first_pass: false, ..e.wrap->Some_0 }), ..e }
    } else {
        e
    }
}

/// A freshly spawned ghost of `src`: same transform and frame, the same
/// collider and layer/mask bits (so it collides identically to its source),
/// and a [`GhostTag`] pointing back at `src`.
pub open spec fn ghost_rec(src: Entity, direction: MirrorAxis, id: u64) -> Entity {
    Entity {
        id,
        translation: src.translation,
        rotation: src.rotation,
        frame: src.frame,
        collider: src.collider,
        layer: src.layer,
        mask: src.mask,
        wrap: None,
        wrapped: None,
        ghost_tag: Some(
            GhostTag {
                target: src.id,
                direction,
                shift: Vec2 { x: 0, y: 0 },
                rotation: 0,
                index: None,
            },
        ),
        protection: None,
        wrap_camera: None,
        projection: None,
        screen_distance: None,
    }
}

/// The three ghosts of one source, one per mirror axis, with consecutive
/// identifiers from `base`.
pub open spec fn ghost_triple(src: Entity, base: int) -> Seq<Entity> {
    seq![
        ghost_rec(src, MirrorAxis::Horizontal, base as u64),
        ghost_rec(src, MirrorAxis::Vertical, (base + 1) as u64),
        ghost_rec(src, MirrorAxis::Diagonal, (base + 2) as u64),
    ]
}

/// The ghosts spawned for every eligible entity of the pool, appended in
/// pool order, with consecutive identifiers from `next`.
pub open spec fn spawn_ghost_recs(s: Seq<Entity>, vp: Area, next: int) -> Seq<Entity>
    decreases s.len(),
{
    if s.len() == 0 {
        Seq::empty()
    } else {
        let front = spawn_ghost_recs(s.drop_last(), vp, next);
        if eligible(s.last(), vp) {
            front + ghost_triple(s.last(), next + 3 * count_eligible(s.drop_last(), vp))
        } else {
            front
        }
    }
}

/// The eligibility scan's update of the existing entities.
pub open spec fn spawn_marked(s: Seq<Entity>, vp: Area, next: int) -> Seq<Entity> {
    Seq::new(
        s.len(),
        |i: int| spawn_mark(s[i], vp, next + 3 * count_eligible(s.subrange(0, i), vp)),
    )
}

/// The whole ghost-creation step: marked entities followed by the new
/// ghosts.
pub open spec fn spawn_step(s: Seq<Entity>, vp: Area, next: int) -> Seq<Entity> {
    spawn_marked(s, vp, next) + spawn_ghost_recs(s, vp, next)
}

/// The ghost-creation step as it runs in a tick: a no-op without a viewport.
/// Returns the new pool and the new fresh-identifier bound.
pub open spec fn spawn_full(s: Seq<Entity>, next: int) -> (Seq<Entity>, int) {
    match viewport_of(s) {
        Some(vp) => (spawn_step(s, vp, next), next + 3 * count_eligible(s, vp)),
        None => (s, next),
    }
}

/// Ghost creation: every wrap-eligible entity not yet wrapped whose bounding
/// box qualifies against the viewport acquires three ghosts (one per mirror
/// axis) cloning its shape, layer and mask; the entity itself is marked
/// [`Wrapped`] with the three ghost identifiers, and every visited entity's
/// first pass ends.
pub fn spawn_ghosts(world: &mut World)
    requires
        old(world).wf(),
        old(world).next_id + 3 * old(world).entities@.len() <= u64::MAX,
    ensures
        final(world).wf(),
        final(world).entities@ == spawn_full(old(world).entities@, old(world).next_id as int).0,
        final(world).next_id as int == spawn_full(
            old(world).entities@,
            old(world).next_id as int,
        ).1,
{
    let vp = match find_viewport(world) {
        Some(vp) => vp,
        None => {
            return ;
        },
    };
    let ghost s = world.entities@;
    let ghost next0 = world.next_id as int;
    proof {
        lemma_viewport_wf(s, next0, vp);
    }
    let n = world.entities.len();
    let mut marked: Vec<Entity> = Vec::new();
    let mut ghosts: Vec<Entity> = Vec::new();
    let mut k: usize = 0;
    while k < n
        invariant
            n == s.len(),
            s == world.entities@,
            pool_wf(s, next0),
            viewport_wf(vp),
            0 <= k <= n,
            next0 + 3 * s.len() <= u64::MAX,
            world.next_id as int == next0 + 3 * count_eligible(s.subrange(0, k as int), vp),
            marked@.len() == k,
            forall|i: int|
                0 <= i < k ==> marked@[i] == spawn_mark(
                    s[i],
                    vp,
                    next0 + 3 * count_eligible(s.subrange(0, i), vp),
                ),
            ghosts@ == spawn_ghost_recs(s.subrange(0, k as int), vp, next0),
        decreases n - k,
    {
        proof {
            crate::world::lemma_count_matching_bounds(s.subrange(0, k as int), |e: Entity| eligible(e, vp));
            crate::world::lemma_count_matching_extend(s, |e: Entity| eligible(e, vp), k as int);
            assert(s.subrange(0, k as int + 1).drop_last() =~= s.subrange(0, k as int));
            assert(s.subrange(0, k as int + 1).last() == s[k as int]);
            assert(entity_wf(s[k as int]));
        }
        let mut e = world.entities[k];
        let ghost base = next0 + 3 * count_eligible(s.subrange(0, k as int), vp);
        match (e.wrap, e.wrapped, e.collider) {
            (Some(w), None, Some(c)) => {
                let bbox = crate::collision::shape_bbox(&c.shape, e.translation);
                let hit = (w.first_pass && bbox.overlap(&vp)) || bbox.inside(&vp);
                proof {
                    assert(hit == eligible(s[k as int], vp));
                }
                if hit {
                    let b = world.next_id;
                    proof {
                        assert(b as int == base);
                        assert(count_eligible(s.subrange(0, k as int), vp) <= k as int);
                        assert(base + 3 <= next0 + 3 * s.len());
                    }
                    ghosts.push(
                        Entity {
                            id: b,
                            translation: e.translation,
                            rotation: e.rotation,
                            frame: e.frame,
                            collider: e.collider,
                            layer: e.layer,
                            mask: e.mask,
                            wrap: None,
                            wrapped: None,
                            ghost_tag: Some(GhostTag::new(e.id, MirrorAxis::Horizontal)),
                            protection: None,
                            wrap_camera: None,
                            projection: None,
                            screen_distance: None,
                        },
                    );
                    ghosts.push(
                        Entity {
                            id: b + 1,
                            translation: e.translation,
                            rotation: e.rotation,
                            frame: e.frame,
                            collider: e.collider,
                            layer: e.layer,
                            mask: e.mask,
                            wrap: None,
                            wrapped: None,
                            ghost_tag: Some(GhostTag::new(e.id, MirrorAxis::Vertical)),
                            protection: None,
                            wrap_camera: None,
                            projection: None,
                            screen_distance: None,
                        },
                    );
                    ghosts.push(
                        Entity {
                            id: b + 2,
                            translation: e.translation,
                            rotation: e.rotation,
                            frame: e.frame,
                            collider: e.collider,
                            layer: e.layer,
                            mask: e.mask,
                            wrap: None,
                            wrapped: None,
                            ghost_tag: Some(GhostTag::new(e.id, MirrorAxis::Diagonal)),
                            protection: None,
                            wrap_camera: None,
                            projection: None,
                            screen_distance: None,
                        },
                    );
                    world.next_id = b + 3;
                    e.wrap = Some(Wrap { remaining: w.remaining, timer: w.timer, first_pass: false });
                    e.wrapped = Some(Wrapped { ghosts: (Some(b), Some(b + 1), Some(b + 2)) });
                    proof {
                        assert(ghosts@ =~= spawn_ghost_recs(s.subrange(0, k as int), vp, next0)
                            + ghost_triple(s[k as int], base));
                        assert(ghosts@ == spawn_ghost_recs(
                            s.subrange(0, k as int + 1),
                            vp,
                            next0,
                        ));
                    }
                } else {
                    e.wrap = Some(Wrap { remaining: w.remaining, timer: w.timer, first_pass: false });
                    proof {
                        assert(ghosts@ == spawn_ghost_recs(s.subrange(0, k as int + 1), vp, next0));
                    }
                }
            },
            _ => {
                proof {
                    assert(!scanned(s[k as int]));
                    assert(ghosts@ == spawn_ghost_recs(s.subrange(0, k as int + 1), vp, next0));
                }
            },
        }
        proof {
            assert(e == spawn_mark(s[k as int], vp, base));
        }
        marked.push(e);
        k = k + 1;
    }
    proof {
        assert(s.subrange(0, n as int) =~= s);
    }
    let mut combined = marked;
    combined.append(&mut ghosts);
    world.entities = combined;
    proof {
        assert(world.entities@ =~= spawn_step(s, vp, next0)) by {
            assert(world.entities@.len() == spawn_marked(s, vp, next0).len() + spawn_ghost_recs(
                s,
                vp,
                next0,
            ).len());
            assert forall|i: int| 0 <= i < s.len() implies world.entities@[i] == spawn_marked(
                s,
                vp,
                next0,
            )[i] by {}
        }
        lemma_spawn_step_wf(s, vp, next0);
    }
}

/// The translation computed for a ghost this tick: its source's translation
/// shifted, along the components its mirror axis moves, by twice the
/// viewport edge on the side opposite the source.
pub open spec fn ghost_shift(vp: Area, t: Vec2, dir: MirrorAxis) -> Vec2 {
    let ex: int = if 2 * t.x > vp.left + vp.right {
        vp.left as int
    } else {
        vp.right as int
    };
    let ey: int = if 2 * t.y < vp.bottom + vp.top {
        vp.top as int
    } else {
        vp.bottom as int
    };
    Vec2 {
        x: (if shifts_x(dir) {
            t.x + 2 * ex
        } else {
            t.x as int
        }) as i64,
        y: (if shifts_y(dir) {
            t.y + 2 * ey
        } else {
            t.y as int
        }) as i64,
    }
}

/// The placement computation of one entity: a ghost whose source is alive
/// gets its shift and rotation recomputed from the source; everything else
/// is untouched.
pub open spec fn make_transforms_rec(s: Seq<Entity>, e: Entity, vp: Area) -> Entity {
    match e.ghost_tag {
        Some(g) => {
            if has_id(s, g.target) {
                let te = crate::world::entity_with(s, g.target);
                Entity {
                    ghost_tag: Some(
                        GhostTag {
                            shift: ghost_shift(vp, te.translation, g.direction),
                            rotation: te.rotation,
                            ..g
                        },
                    ),
                    ..e
                }
            } else {
                e
            }
        },
        None => e,
    }
}

/// The ghost-placement step over the whole pool.
pub open spec fn make_transforms_step(s: Seq<Entity>, vp: Area) -> Seq<Entity> {
    Seq::new(s.len(), |i: int| make_transforms_rec(s, s[i], vp))
}

/// The ghost-placement step as it runs in a tick: a no-op without a
/// viewport.
pub open spec fn make_transforms_full(s: Seq<Entity>) -> Seq<Entity> {
    match viewport_of(s) {
        Some(vp) => make_transforms_step(s, vp),
        None => s,
    }
}

/// Recalculates the shift and rotation of every ghost from its source's
/// current transform. The renderable transform is written in the separate
/// [`set_ghost_transforms`] step.
pub fn make_ghost_transforms(world: &mut World)
    requires
        old(world).wf(),
    ensures
        final(world).wf(),
        final(world).next_id == old(world).next_id,
        final(world).entities@ == make_transforms_full(old(world).entities@),
{
    let vp = match find_viewport(world) {
        Some(vp) => vp,
        None => {
            return ;
        },
    };
    let ghost s = world.entities@;
    proof {
        lemma_viewport_wf(s, old(world).next_id as int, vp);
    }
    let n = world.entities.len();
    let mut out: Vec<Entity> = Vec::new();
    let mut k: usize = 0;
    while k < n
        invariant
            n == s.len(),
            s == world.entities@,
            pool_wf(s, old(world).next_id as int),
            viewport_wf(vp),
            0 <= k <= n,
            out@.len() == k,
            forall|i: int| 0 <= i < k ==> out@[i] == make_transforms_rec(s, s[i], vp),
            forall|i: int| 0 <= i < k ==> entity_wf(#[trigger] out@[i]),
        decreases n - k,
    {
        let mut e = world.entities[k];
        proof {
            assert(entity_wf(s[k as int]));
        }
        match e.ghost_tag {
            Some(g) => {
                match crate::world::index_of_id(&world.entities, g.target) {
                    Some(j) => {
                        let te = world.entities[j];
                        proof {
                            crate::world::lemma_entity_with(s, j as int, g.target);
                            assert(entity_wf(s[j as int]));
                            assert(s[j as int].ghost_tag is None);
                        }
                        let ex = if 2 * te.translation.x > vp.left + vp.right {
                            vp.left
                        } else {
                            vp.right
                        };
                        let ey = if 2 * te.translation.y < vp.bottom + vp.top {
                            vp.top
                        } else {
                            vp.bottom
                        };
                        let sx = if matches!(g.direction, MirrorAxis::Horizontal | MirrorAxis::Diagonal) {
                            te.translation.x + 2 * ex
                        } else {
                            te.translation.x
                        };
                        let sy = if matches!(g.direction, MirrorAxis::Vertical | MirrorAxis::Diagonal) {
                            te.translation.y + 2 * ey
                        } else {
                            te.translation.y
                        };
                        e.ghost_tag = Some(
                            GhostTag {
                                target: g.target,
                                direction: g.direction,
                                shift: Vec2 { x: sx, y: sy },
                                rotation: te.rotation,
                                index: g.index,
                            },
                        );
                        proof {
                            assert(e == make_transforms_rec(s, s[k as int], vp));
                        }
                    },
                    None => {
                        proof {
                            assert(e == make_transforms_rec(s, s[k as int], vp));
                        }
                    },
                }
            },
            None => {},
        }
        out.push(e);
        k = k + 1;
    }
    world.entities = out;
    proof {
        assert(world.entities@ =~= make_transforms_step(s, vp));
        lemma_pool_wf_update(s, world.entities@, old(world).next_id as int);
    }
}

/// The frame-index copy of one entity: a ghost whose source is alive
/// records the source's current animation frame.
pub open spec fn make_index_rec(s: Seq<Entity>, e: Entity) -> Entity {
    match e.ghost_tag {
        Some(g) => {
            if has_id(s, g.target) {
                Entity {
                    ghost_tag: Some(
                        GhostTag { index: Some(crate::world::entity_with(s, g.target).frame), ..g },
                    ),
                    ..e
                }
            } else {
                e
            }
        },
        None => e,
    }
}

/// The frame-index copy over the whole pool.
pub open spec fn make_index_step(s: Seq<Entity>) -> Seq<Entity> {
    Seq::new(s.len(), |i: int| make_index_rec(s, s[i]))
}

/// Records, for every ghost whose source is alive, the source's current
/// animation frame; it is written to the ghost in the separate
/// [`set_ghost_sprite_index`] step.
pub fn make_ghost_sprite_index(world: &mut World)
    requires
        old(world).wf(),
    ensures
        final(world).wf(),
        final(world).next_id == old(world).next_id,
        final(world).entities@ == make_index_step(old(world).entities@),
{
    let ghost s = world.entities@;
    let n = world.entities.len();
    let mut out: Vec<Entity> = Vec::new();
    let mut k: usize = 0;
    while k < n
        invariant
            n == s.len(),
            s == world.entities@,
            pool_wf(s, old(world).next_id as int),
            0 <= k <= n,
            out@.len() == k,
            forall|i: int| 0 <= i < k ==> out@[i] == make_index_rec(s, s[i]),
            forall|i: int| 0 <= i < k ==> entity_wf(#[trigger] out@[i]),
        decreases n - k,
    {
        let mut e = world.entities[k];
        proof {
            assert(entity_wf(s[k as int]));
        }
        match e.ghost_tag {
            Some(g) => {
                match crate::world::index_of_id(&world.entities, g.target) {
                    Some(j) => {
                        let te = world.entities[j];
                        proof {
                            crate::world::lemma_entity_with(s, j as int, g.target);
                        }
                        e.ghost_tag = Some(
                            GhostTag {
                                target: g.target,
                                direction: g.direction,
                                shift: g.shift,
                                rotation: g.rotation,
                                index: Some(te.frame),
                            },
                        );
                        proof {
                            assert(e == make_index_rec(s, s[k as int]));
                        }
                    },
                    None => {},
                }
            },
            None => {},
        }
        out.push(e);
        k = k + 1;
    }
    world.entities = out;
    proof {
        assert(world.entities@ =~= make_index_step(s));
        lemma_pool_wf_update(s, world.entities@, old(world).next_id as int);
    }
}

/// The transform write of one entity: a ghost's translation and rotation
/// become its computed shift and rotation.
pub open spec fn set_transforms_rec(e: Entity) -> Entity {
    match e.ghost_tag {
        Some(g) => Entity { translation: g.shift, rotation: g.rotation, ..e },
        None => e,
    }
}

/// The transform write over the whole pool.
pub open spec fn set_transforms_step(s: Seq<Entity>) -> Seq<Entity> {
    Seq::new(s.len(), |i: int| set_transforms_rec(s[i]))
}

/// Writes every ghost's computed shift and rotation to its renderable
/// transform.
pub fn set_ghost_transforms(world: &mut World)
    requires
        old(world).wf(),
    ensures
        final(world).wf(),
        final(world).next_id == old(world).next_id,
        final(world).entities@ == set_transforms_step(old(world).entities@),
{
    let ghost s = world.entities@;
    let n = world.entities.len();
    let mut out: Vec<Entity> = Vec::new();
    let mut k: usize = 0;
    while k < n
        invariant
            n == s.len(),
            s == world.entities@,
            pool_wf(s, old(world).next_id as int),
            0 <= k <= n,
            out@.len() == k,
            forall|i: int| 0 <= i < k ==> out@[i] == set_transforms_rec(s[i]),
            forall|i: int| 0 <= i < k ==> entity_wf(#[trigger] out@[i]),
        decreases n - k,
    {
        let mut e = world.entities[k];
        proof {
            assert(entity_wf(s[k as int]));
        }
        match e.ghost_tag {
            Some(g) => {
                e.translation = g.shift;
                e.rotation = g.rotation;
            },
            None => {},
        }
        out.push(e);
        k = k + 1;
    }
    world.entities = out;
    proof {
        assert(world.entities@ =~= set_transforms_step(s));
        lemma_pool_wf_update(s, world.entities@, old(world).next_id as int);
    }
}

/// The frame write of one entity: a ghost with a recorded frame index shows
/// that frame.
pub open spec fn set_index_rec(e: Entity) -> Entity {
    match e.ghost_tag {
        Some(g) => match g.index {
            Some(ix) => Entity { frame: ix, ..e },
            None => e,
        },
        None => e,
    }
}

/// The frame write over the whole pool.
pub open spec fn set_index_step(s: Seq<Entity>) -> Seq<Entity> {
    Seq::new(s.len(), |i: int| set_index_rec(s[i]))
}

/// Writes every ghost's recorded animation frame to its sprite.
pub fn set_ghost_sprite_index(world: &mut World)
    requires
        old(world).wf(),
    ensures
        final(world).wf(),
        final(world).next_id == old(world).next_id,
        final(world).entities@ == set_index_step(old(world).entities@),
{
    let ghost s = world.entities@;
    let n = world.entities.len();
    let mut out: Vec<Entity> = Vec::new();
    let mut k: usize = 0;
    while k < n
        invariant
            n == s.len(),
            s == world.entities@,
            pool_wf(s, old(world).next_id as int),
            0 <= k <= n,
            out@.len() == k,
            forall|i: int| 0 <= i < k ==> out@[i] == set_index_rec(s[i]),
            forall|i: int| 0 <= i < k ==> entity_wf(#[trigger] out@[i]),
        decreases n - k,
    {
        let mut e = world.entities[k];
        proof {
            assert(entity_wf(s[k as int]));
        }
        match e.ghost_tag {
            Some(g) => {
                match g.index {
                    Some(ix) => {
                        e.frame = ix;
                    },
                    None => {},
                }
            },
            None => {},
        }
        out.push(e);
        k = k + 1;
    }
    world.entities = out;
    proof {
        assert(world.entities@ =~= set_index_step(s));
        lemma_pool_wf_update(s, world.entities@, old(world).next_id as int);
    }
}

/// A ghost survives the indirect sweep only while its source entity exists.
pub open spec fn indirect_keep(s: Seq<Entity>, e: Entity) -> bool {
    match e.ghost_tag {
        Some(g) => has_id(s, g.target),
        None => true,
    }
}

/// The indirect teardown: defensive cleanup of ghosts whose source no
/// longer exists.
pub open spec fn indirect_step(s: Seq<Entity>) -> Seq<Entity> {
    s.filter(|e: Entity| indirect_keep(s, e))
}

/// Despawns every ghost whose source entity no longer exists.
pub fn despawn_ghosts_indirect(world: &mut World)
    requires
        old(world).wf(),
    ensures
        final(world).wf(),
        final(world).next_id == old(world).next_id,
        final(world).entities@ == indirect_step(old(world).entities@),
{
    let ghost s = world.entities@;
    let n = world.entities.len();
    let mut out: Vec<Entity> = Vec::new();
    let mut k: usize = 0;
    while k < n
        invariant
            n == s.len(),
            s == world.entities@,
            pool_wf(s, old(world).next_id as int),
            0 <= k <= n,
            out@ == s.subrange(0, k as int).filter(|e: Entity| indirect_keep(s, e)),
        decreases n - k,
    {
        let e = world.entities[k];
        proof {
            assert(s.subrange(0, k as int + 1).drop_last() =~= s.subrange(0, k as int));
            reveal_with_fuel(Seq::filter, 2);
            assert(s.subrange(0, k as int + 1).last() == e);
        }
        match e.ghost_tag {
            Some(g) => {
                match crate::world::index_of_id(&world.entities, g.target) {
                    Some(j) => {
                        proof {
                            assert(s[j as int].id == g.target);
                            assert(has_id(s, g.target));
                        }
                        out.push(e);
                    },
                    None => {},
                }
            },
            None => {
                out.push(e);
            },
        }
        k = k + 1;
    }
    proof {
        assert(s.subrange(0, n as int) =~= s);
    }
    world.entities = out;
    proof {
        crate::world::filter_preserves_pool_wf(
            s,
            |e: Entity| indirect_keep(s, e),
            old(world).next_id as int,
        );
    }
}

/// A wrapped source whose wrap policy is gone and whose bounding box is
/// fully back inside the viewport: its ghosts are torn down directly.
pub open spec fn torn(e: Entity, vp: Area) -> bool {
    &&& e.wrapped is Some
    &&& e.wrap is None
    &&& e.collider is Some
    &&& crate::collision::bbox_inside(e.collider->Some_0.shape, e.translation, vp)
}

/// `id` is one of the ghost identifiers carried by `w`.
pub open spec fn in_ghosts(w: Wrapped, id: u64) -> bool {
    w.ghosts.0 == Some(id) || w.ghosts.1 == Some(id) || w.ghosts.2 == Some(id)
}

/// `id` names a ghost owned by some torn-down source.
pub open spec fn ghost_of_torn(s: Seq<Entity>, vp: Area, id: u64) -> bool {
    exists|i: int| 0 <= i < s.len() && torn(#[trigger] s[i], vp) && in_ghosts(s[i].wrapped->Some_0, id)
}

/// A torn-down source loses its [`Wrapped`] marker.
pub open spec fn strip_rec(e: Entity, vp: Area) -> Entity {
    if torn(e, vp) {
        Entity { wrapped: None, ..e }
    } else {
        e
    }
}

/// The direct teardown: every torn-down source loses its marker and its
/// three ghosts leave the pool.
pub open spec fn direct_step(s: Seq<Entity>, vp: Area) -> Seq<Entity> {
    Seq::new(s.len(), |i: int| strip_rec(s[i], vp)).filter(
        |e: Entity| !ghost_of_torn(s, vp, e.id),
    )
}

/// The direct teardown as it runs in a tick: a no-op without a viewport.
pub open spec fn direct_full(s: Seq<Entity>) -> Seq<Entity> {
    match viewport_of(s) {
        Some(vp) => direct_step(s, vp),
        None => s,
    }
}

/// Containment after optionally pushing one element.
proof fn lemma_push_opt_contains(before: Seq<u64>, after: Seq<u64>, o: Option<u64>, x: u64)
    requires
        match o {
            Some(g) => after == before.push(g),
            None => after == before,
        },
    ensures
        after.contains(x) <==> (before.contains(x) || o == Some(x)),
{
    match o {
        Some(g) => {
            vstd::seq_lib::lemma_seq_contains_after_push(before, g, x);
        },
        None => {},
    }
}

/// Whether `v` holds `x`.
fn vec_contains_u64(v: &Vec<u64>, x: u64) -> (r: bool)
    ensures
        r == v@.contains(x),
{
    let n = v.len();
    let mut k: usize = 0;
    while k < n
        invariant
            0 <= k <= n,
            n == v@.len(),
            forall|j: int| 0 <= j < k ==> v@[j] != x,
        decreases n - k,
    {
        if v[k] == x {
            return true;
        }
        k = k + 1;
    }
    false
}

/// For any [`Wrapped`] entity whose [`Wrap`] policy is gone and which has
/// settled fully inside the viewport, despawns its three ghosts and removes
/// the marker. Until the source is fully back inside, the teardown is
/// deferred.
pub fn despawn_ghosts_direct(world: &mut World)
    requires
        old(world).wf(),
    ensures
        final(world).wf(),
        final(world).next_id == old(world).next_id,
        final(world).entities@ == direct_full(old(world).entities@),
{
    let vp = match find_viewport(world) {
        Some(vp) => vp,
        None => {
            return ;
        },
    };
    let ghost s = world.entities@;
    proof {
        lemma_viewport_wf(s, old(world).next_id as int, vp);
    }
    let n = world.entities.len();
    let mut to_remove: Vec<u64> = Vec::new();
    let mut k: usize = 0;
    while k < n
        invariant
            n == s.len(),
            s == world.entities@,
            pool_wf(s, old(world).next_id as int),
            viewport_wf(vp),
            0 <= k <= n,
            forall|x: u64|
                #[trigger] to_remove@.contains(x) <==> ghost_of_torn(
                    s.subrange(0, k as int),
                    vp,
                    x,
                ),
        decreases n - k,
    {
        let e = world.entities[k];
        let ghost pre = s.subrange(0, k as int);
        let ghost post = s.subrange(0, k as int + 1);
        proof {
            assert(entity_wf(s[k as int]));
            assert(post.drop_last() =~= pre);
            assert(post.last() == e);
            assert(forall|i: int| 0 <= i < pre.len() ==> pre[i] == post[i]);
        }
        let mut is_torn = false;
        match (e.wrapped, e.wrap, e.collider) {
            (Some(w), None, Some(c)) => {
                let bbox = crate::collision::shape_bbox(&c.shape, e.translation);
                if bbox.inside(&vp) {
                    is_torn = true;
                    let ghost before = to_remove@;
                    match w.ghosts.0 {
                        Some(gid) => {
                            to_remove.push(gid);
                        },
                        None => {},
                    }
                    let ghost t1 = to_remove@;
                    match w.ghosts.1 {
                        Some(gid) => {
                            to_remove.push(gid);
                        },
                        None => {},
                    }
                    let ghost t2 = to_remove@;
                    match w.ghosts.2 {
                        Some(gid) => {
                            to_remove.push(gid);
                        },
                        None => {},
                    }
                    proof {
                        assert(torn(e, vp));
                        assert forall|x: u64|
                            #[trigger] to_remove@.contains(x) <==> (before.contains(x)
                                || in_ghosts(w, x)) by {
                            lemma_push_opt_contains(before, t1, w.ghosts.0, x);
                            lemma_push_opt_contains(t1, t2, w.ghosts.1, x);
                            lemma_push_opt_contains(t2, to_remove@, w.ghosts.2, x);
                        }
                        assert forall|x: u64| #[trigger] to_remove@.contains(x) implies
                            ghost_of_torn(post, vp, x) by {
                            if before.contains(x) {
                                assert(ghost_of_torn(pre, vp, x));
                                let i = choose|i: int|
                                    0 <= i < pre.len() && torn(#[trigger] pre[i], vp) && in_ghosts(
                                        pre[i].wrapped->Some_0,
                                        x,
                                    );
                                assert(torn(post[i], vp));
                            } else {
                                assert(in_ghosts(w, x));
                                assert(torn(post[k as int], vp) && in_ghosts(
                                    post[k as int].wrapped->Some_0,
                                    x,
                                ));
                            }
                        }
                        assert forall|x: u64| ghost_of_torn(post, vp, x) implies
                            #[trigger] to_remove@.contains(x) by {
                            let i = choose|i: int|
                                0 <= i < post.len() && torn(#[trigger] post[i], vp) && in_ghosts(
                                    post[i].wrapped->Some_0,
                                    x,
                                );
                            if i < k as int {
                                assert(torn(pre[i], vp) && in_ghosts(pre[i].wrapped->Some_0, x));
                                assert(ghost_of_torn(pre, vp, x));
                                assert(before.contains(x));
                            } else {
                                assert(in_ghosts(w, x));
                            }
                        }
                    }
                }
            },
            _ => {},
        }
        proof {
            if !is_torn {
                assert(!torn(e, vp));
                assert forall|x: u64| #[trigger] to_remove@.contains(x) implies ghost_of_torn(
                    post,
                    vp,
                    x,
                ) by {
                    assert(ghost_of_torn(pre, vp, x));
                    let i = choose|i: int|
                        0 <= i < pre.len() && torn(#[trigger] pre[i], vp) && in_ghosts(
                            pre[i].wrapped->Some_0,
                            x,
                        );
                    assert(torn(post[i], vp));
                }
                assert forall|x: u64| ghost_of_torn(post, vp, x) implies #[trigger] to_remove@
                    .contains(x) by {
                    let i = choose|i: int|
                        0 <= i < post.len() && torn(#[trigger] post[i], vp) && in_ghosts(
                            post[i].wrapped->Some_0,
                            x,
                        );
                    assert(i < k as int) by {
                        if i == k as int {
                            assert(torn(e, vp));
                        }
                    }
                    assert(torn(pre[i], vp) && in_ghosts(pre[i].wrapped->Some_0, x));
                    assert(ghost_of_torn(pre, vp, x));
                }
            }
        }
        k = k + 1;
    }
    proof {
        assert(s.subrange(0, n as int) =~= s);
    }
    let ghost stripped = Seq::new(s.len(), |i: int| strip_rec(s[i], vp));
    let mut out: Vec<Entity> = Vec::new();
    let mut k2: usize = 0;
    while k2 < n
        invariant
            n == s.len(),
            s == world.entities@,
            pool_wf(s, old(world).next_id as int),
            viewport_wf(vp),
            0 <= k2 <= n,
            stripped == Seq::new(s.len(), |i: int| strip_rec(s[i], vp)),
            forall|x: u64| #[trigger] to_remove@.contains(x) <==> ghost_of_torn(s, vp, x),
            out@ == stripped.subrange(0, k2 as int).filter(
                |e: Entity| !ghost_of_torn(s, vp, e.id),
            ),
        decreases n - k2,
    {
        let mut e = world.entities[k2];
        proof {
            assert(entity_wf(s[k2 as int]));
            assert(stripped.subrange(0, k2 as int + 1).drop_last() =~= stripped.subrange(
                0,
                k2 as int,
            ));
            reveal_with_fuel(Seq::filter, 2);
            assert(stripped.subrange(0, k2 as int + 1).last() == strip_rec(s[k2 as int], vp));
        }
        if !vec_contains_u64(&to_remove, e.id) {
            match (e.wrapped, e.wrap, e.collider) {
                (Some(_), None, Some(c)) => {
                    let bbox = crate::collision::shape_bbox(&c.shape, e.translation);
                    if bbox.inside(&vp) {
                        e.wrapped = None;
                    }
                },
                _ => {},
            }
            proof {
                assert(e == strip_rec(s[k2 as int], vp));
            }
            out.push(e);
        }
        k2 = k2 + 1;
    }
    proof {
        assert(stripped.subrange(0, n as int) =~= stripped);
    }
    world.entities = out;
    proof {
        lemma_pool_wf_update(s, stripped, old(world).next_id as int);
        crate::world::filter_preserves_pool_wf(
            stripped,
            |e: Entity| !ghost_of_torn(s, vp, e.id),
            old(world).next_id as int,
        );
    }
}

/// An entity survives the out-of-bounds cleanup unless it carries none of
/// the wrap markers and no protection, has a shape, and its bounding box
/// lies entirely outside the viewport.
pub open spec fn unprotected_keep(e: Entity, vp: Area) -> bool {
    !(e.wrap is None && e.wrapped is None && e.ghost_tag is None && e.protection is None
        && e.collider is Some && crate::collision::bbox_outside(
        e.collider->Some_0.shape,
        e.translation,
        vp,
    ))
}

/// The out-of-bounds cleanup: the default fate of projectiles and debris
/// that are not wrap-managed.
pub open spec fn unprotected_step(s: Seq<Entity>, vp: Area) -> Seq<Entity> {
    s.filter(|e: Entity| unprotected_keep(e, vp))
}

/// The out-of-bounds cleanup as it runs in a tick: a no-op without a
/// viewport.
pub open spec fn unprotected_full(s: Seq<Entity>) -> Seq<Entity> {
    match viewport_of(s) {
        Some(vp) => unprotected_step(s, vp),
        None => s,
    }
}

/// Despawns every entity that carries none of wrap, wrapped, ghost or
/// protection markers and whose bounding box lies entirely outside the
/// viewport.
pub fn despawn_unwrapped(world: &mut World)
    requires
        old(world).wf(),
    ensures
        final(world).wf(),
        final(world).next_id == old(world).next_id,
        final(world).entities@ == unprotected_full(old(world).entities@),
{
    let vp = match find_viewport(world) {
        Some(vp) => vp,
        None => {
            return ;
        },
    };
    let ghost s = world.entities@;
    proof {
        lemma_viewport_wf(s, old(world).next_id as int, vp);
    }
    let n = world.entities.len();
    let mut out: Vec<Entity> = Vec::new();
    let mut k: usize = 0;
    while k < n
        invariant
            n == s.len(),
            s == world.entities@,
            pool_wf(s, old(world).next_id as int),
            viewport_wf(vp),
            0 <= k <= n,
            out@ == s.subrange(0, k as int).filter(|e: Entity| unprotected_keep(e, vp)),
        decreases n - k,
    {
        let e = world.entities[k];
        proof {
            assert(entity_wf(s[k as int]));
            assert(s.subrange(0, k as int + 1).drop_last() =~= s.subrange(0, k as int));
            reveal_with_fuel(Seq::filter, 2);
            assert(s.subrange(0, k as int + 1).last() == e);
        }
        let mut keep = true;
        match (e.wrap, e.wrapped, e.ghost_tag, e.protection, e.collider) {
            (None, None, None, None, Some(c)) => {
                let bbox = crate::collision::shape_bbox(&c.shape, e.translation);
                if bbox.outside(&vp) {
                    keep = false;
                }
            },
            _ => {},
        }
        if keep {
            out.push(e);
        }
        k = k + 1;
    }
    proof {
        assert(s.subrange(0, n as int) =~= s);
    }
    world.entities = out;
    proof {
        crate::world::filter_preserves_pool_wf(
            s,
            |e: Entity| unprotected_keep(e, vp),
            old(world).next_id as int,
        );
    }
}

/// Entities the receding-spawn check visits: wrap-eligible but not yet
/// wrapped, not a ghost, with a shape.
pub open spec fn receding_visits(e: Entity) -> bool {
    &&& e.wrap is Some
    &&& e.wrapped is None
    &&& e.ghost_tag is None
    &&& e.collider is Some
}

/// An entity survives the receding-spawn check unless it is visited, lies
/// outside the viewport, and its tracked distance shows it moving away.
pub open spec fn receding_keep(e: Entity, vp: Area) -> bool {
    !(receding_visits(e) && crate::collision::bbox_outside(
        e.collider->Some_0.shape,
        e.translation,
        vp,
    ) && e.screen_distance is Some && crate::geom::spec_dist2_scaled(vp, e.translation)
        >= e.screen_distance->Some_0)
}

/// Distance bookkeeping of the receding-spawn check: a visited entity
/// outside the viewport starts tracking its squared distance; one back in
/// reach stops tracking it.
pub open spec fn receding_upd(e: Entity, vp: Area) -> Entity {
    if receding_visits(e) {
        if crate::collision::bbox_outside(e.collider->Some_0.shape, e.translation, vp) {
            if e.screen_distance is None {
                Entity {
                    screen_distance: Some(crate::geom::spec_dist2_scaled(vp, e.translation) as i64),
                    ..e
                }
            } else {
                e
            }
        } else {
            Entity { screen_distance: None, ..e }
        }
    } else {
        e
    }
}

/// The receding-spawn check: catches wrap-eligible spawns that drift away
/// from the play-field before they ever become eligible to wrap.
pub open spec fn receding_step(s: Seq<Entity>, vp: Area) -> Seq<Entity> {
    s.filter(|e: Entity| receding_keep(e, vp)).map_values(|e: Entity| receding_upd(e, vp))
}

/// The receding-spawn check as it runs in a tick: a no-op without a
/// viewport.
pub open spec fn receding_full(s: Seq<Entity>) -> Seq<Entity> {
    match viewport_of(s) {
        Some(vp) => receding_step(s, vp),
        None => s,
    }
}

/// For entities with [`Wrap`] but not yet [`Wrapped`] whose bounding box is
/// outside the viewport: tracks the squared distance from the viewport
/// across ticks and despawns the entity once that distance stops
/// decreasing.
pub fn teleport_wrap_non_wrapped(world: &mut World)
    requires
        old(world).wf(),
    ensures
        final(world).wf(),
        final(world).next_id == old(world).next_id,
        final(world).entities@ == receding_full(old(world).entities@),
{
    let vp = match find_viewport(world) {
        Some(vp) => vp,
        None => {
            return ;
        },
    };
    let ghost s = world.entities@;
    proof {
        lemma_viewport_wf(s, old(world).next_id as int, vp);
    }
    let n = world.entities.len();
    let mut out: Vec<Entity> = Vec::new();
    let mut k: usize = 0;
    while k < n
        invariant
            n == s.len(),
            s == world.entities@,
            pool_wf(s, old(world).next_id as int),
            viewport_wf(vp),
            0 <= k <= n,
            out@ == s.subrange(0, k as int).filter(|e: Entity| receding_keep(e, vp)).map_values(
                |e: Entity| receding_upd(e, vp),
            ),
        decreases n - k,
    {
        let mut e = world.entities[k];
        let ghost pre_filtered = s.subrange(0, k as int).filter(|e: Entity| receding_keep(e, vp));
        proof {
            assert(entity_wf(s[k as int]));
            assert(s.subrange(0, k as int + 1).drop_last() =~= s.subrange(0, k as int));
            reveal_with_fuel(Seq::filter, 2);
            assert(s.subrange(0, k as int + 1).last() == e);
        }
        let mut keep = true;
        match (e.wrap, e.wrapped, e.ghost_tag, e.collider) {
            (Some(_), None, None, Some(c)) => {
                let bbox = crate::collision::shape_bbox(&c.shape, e.translation);
                if bbox.outside(&vp) {
                    let d = vp.dist2_scaled(e.translation);
                    match e.screen_distance {
                        Some(last) => {
                            if d >= last {
                                keep = false;
                            }
                        },
                        None => {
                            e.screen_distance = Some(d);
                        },
                    }
                } else {
                    e.screen_distance = None;
                }
            },
            _ => {},
        }
        if keep {
            proof {
                assert(e == receding_upd(s[k as int], vp));
                assert(s.subrange(0, k as int + 1).filter(|e: Entity| receding_keep(e, vp))
                    == pre_filtered.push(s[k as int]));
                assert(out@.push(e) =~= pre_filtered.push(s[k as int]).map_values(
                    |e: Entity| receding_upd(e, vp),
                ));
            }
            out.push(e);
        } else {
            proof {
                assert(s.subrange(0, k as int + 1).filter(|e: Entity| receding_keep(e, vp))
                    == pre_filtered);
            }
        }
        k = k + 1;
    }
    proof {
        assert(s.subrange(0, n as int) =~= s);
    }
    world.entities = out;
    proof {
        crate::world::filter_preserves_pool_wf(
            s,
            |e: Entity| receding_keep(e, vp),
            old(world).next_id as int,
        );
        let filtered = s.filter(|e: Entity| receding_keep(e, vp));
        lemma_pool_wf_update(
            filtered,
            filtered.map_values(|e: Entity| receding_upd(e, vp)),
            old(world).next_id as int,
        );
    }
}

/// Timer bookkeeping of one entity: a wrap policy whose crossing budget has
/// reached zero, or whose timer elapses this tick, is removed; a live timer
/// is advanced by the elapsed time.
pub open spec fn expire_rec(e: Entity, elapsed: u64) -> Entity {
    match e.wrap {
        Some(w) => {
            let finished = w.remaining == Some(0u8) || match w.timer {
                Some(left) => left <= elapsed,
                None => false,
            };
            if finished {
                Entity { wrap: None, ..e }
            } else {
                Entity {
                    wrap: Some(
                        Wrap {
                            timer: match w.timer {
                                Some(left) => Some((left - elapsed) as u64),
                                None => None,
                            },
                            ..w
                        },
                    ),
                    ..e
                }
            }
        },
        None => e,
    }
}

/// The auto-expiry step over the whole pool.
pub open spec fn expiry_step(s: Seq<Entity>, elapsed: u64) -> Seq<Entity> {
    Seq::new(s.len(), |i: int| expire_rec(s[i], elapsed))
}

/// Removes the [`Wrap`] policy of every entity whose crossing budget is
/// exhausted or whose expiry timer has just elapsed; other timers advance by
/// `elapsed`. Existing ghosts are torn down separately once the entity
/// settles inside the viewport.
pub fn auto_unwrap(world: &mut World, elapsed: u64)
    requires
        old(world).wf(),
    ensures
        final(world).wf(),
        final(world).next_id == old(world).next_id,
        final(world).entities@ == expiry_step(old(world).entities@, elapsed),
{
    let ghost s = world.entities@;
    let n = world.entities.len();
    let mut out: Vec<Entity> = Vec::new();
    let mut k: usize = 0;
    while k < n
        invariant
            n == s.len(),
            s == world.entities@,
            pool_wf(s, old(world).next_id as int),
            0 <= k <= n,
            out@.len() == k,
            forall|i: int| 0 <= i < k ==> out@[i] == expire_rec(s[i], elapsed),
            forall|i: int| 0 <= i < k ==> entity_wf(#[trigger] out@[i]),
        decreases n - k,
    {
        let mut e = world.entities[k];
        proof {
            assert(entity_wf(s[k as int]));
        }
        match e.wrap {
            Some(w) => {
                let mut finished = match w.remaining {
                    Some(c) => c == 0,
                    None => false,
                };
                match w.timer {
                    Some(left) => {
                        if left <= elapsed {
                            finished = true;
                        }
                    },
                    None => {},
                }
                if finished {
                    e.wrap = None;
                } else {
                    let timer = match w.timer {
                        Some(left) => Some(left - elapsed),
                        None => None,
                    };
                    e.wrap = Some(Wrap { remaining: w.remaining, timer, first_pass: w.first_pass });
                }
                proof {
                    assert(e == expire_rec(s[k as int], elapsed));
                }
            },
            None => {},
        }
        out.push(e);
        k = k + 1;
    }
    world.entities = out;
    proof {
        assert(world.entities@ =~= expiry_step(s, elapsed));
        lemma_pool_wf_update(s, world.entities@, old(world).next_id as int);
    }
}

/// One full wrap-engine tick over the pool: the numbered steps in their
/// strict order. Without a viewport the whole tick is a no-op. Returns the
/// new pool and the new fresh-identifier bound.
pub open spec fn wrap_tick_spec(s: Seq<Entity>, next: int, elapsed: u64) -> (Seq<Entity>, int) {
    if viewport_of(s) is Some {
        let s1 = teleport_full(s);
        let s2 = spawn_full(s1, next).0;
        let n2 = spawn_full(s1, next).1;
        let s3 = make_transforms_full(s2);
        let s4 = make_index_step(s3);
        let s5 = set_transforms_step(s4);
        let s6 = set_index_step(s5);
        let s7 = indirect_step(s6);
        let s8 = direct_full(s7);
        let s9 = unprotected_full(s8);
        let s10 = receding_full(s9);
        let s11 = expiry_step(s10, elapsed);
        (s11, n2)
    } else {
        (s, next)
    }
}

/// The wrap engine. [`WrapPlugin::tick`] drives its steps once per
/// simulation tick, in the order the state machine requires.
pub struct WrapPlugin;

impl WrapPlugin {
    /// One wrap-engine tick: teleport, ghost-eligibility scan, ghost
    /// placement (computed, then written), indirect and direct teardown,
    /// out-of-bounds despawn, receding-spawn despawn, and auto-expiry, in
    /// that order. `elapsed` is the time since the previous tick, in the
    /// caller's units. A no-op when no viewport is present.
    pub fn tick(world: &mut World, elapsed: u64)
        requires
            old(world).wf(),
            old(world).next_id + 3 * old(world).entities@.len() <= u64::MAX,
        ensures
            final(world).wf(),
            final(world).entities@ == wrap_tick_spec(
                old(world).entities@,
                old(world).next_id as int,
                elapsed,
            ).0,
            final(world).next_id as int == wrap_tick_spec(
                old(world).entities@,
                old(world).next_id as int,
                elapsed,
            ).1,
    {
        match find_viewport(world) {
            Some(_) => {},
            None => {
                return ;
            },
        }
        let ghost s0 = world.entities@;
        teleport_wrapped(world);
        proof {
            assert(world.entities@.len() == s0.len()) by {
                if viewport_of(s0) is Some {
                    assert(world.entities@ == teleport_step(
                        s0,
                        viewport_of(s0)->Some_0,
                    ));
                }
            }
        }
        spawn_ghosts(world);
        make_ghost_transforms(world);
        make_ghost_sprite_index(world);
        set_ghost_transforms(world);
        set_ghost_sprite_index(world);
        despawn_ghosts_indirect(world);
        despawn_ghosts_direct(world);
        despawn_unwrapped(world);
        teleport_wrap_non_wrapped(world);
        auto_unwrap(world, elapsed);
    }
}

/// Teleport idempotence on one axis: a coordinate at most one full width
/// beyond an edge is shifted by exactly the width, lands within the bounds,
/// and a second teleport without further movement does not shift it again.
pub proof fn lemma_wrap_coord_idempotent(x: int, low: int, high: int)
    requires
        low < high,
        low - (high - low) <= x <= high + (high - low),
    ensures
        x > high ==> wrap_coord(x, low, high) == x - (high - low),
        x < low ==> wrap_coord(x, low, high) == x + (high - low),
        low <= wrap_coord(x, low, high) <= high,
        wrap_coord(wrap_coord(x, low, high), low, high) == wrap_coord(x, low, high),
{
}

/// Teleport idempotence at the entity level: once an entity no more than one
/// viewport width out of bounds has been teleported, teleporting again
/// without further movement changes nothing.
pub proof fn lemma_teleport_idempotent(e: Entity, vp: Area)
    requires
        viewport_wf(vp),
        vp.left - (vp.right - vp.left) <= e.translation.x <= vp.right + (vp.right - vp.left),
        vp.bottom - (vp.top - vp.bottom) <= e.translation.y <= vp.top + (vp.top - vp.bottom),
    ensures
        teleport_rec(teleport_rec(e, vp), vp) == teleport_rec(e, vp),
        e.wrapped is Some && e.ghost_tag is None && e.translation.x > vp.right ==> teleport_rec(
            e,
            vp,
        ).translation.x == e.translation.x - (vp.right - vp.left),
{
    lemma_wrap_coord_idempotent(e.translation.x as int, vp.left as int, vp.right as int);
    lemma_wrap_coord_idempotent(e.translation.y as int, vp.bottom as int, vp.top as int);
    if e.wrapped is Some && e.ghost_tag is None {
        let e1 = teleport_rec(e, vp);
        assert(crossings(e1.translation, vp) == 0);
        match e.wrap {
            Some(w) => {
                assert(dec_remaining(e1.wrap->Some_0.remaining, 0) == e1.wrap->Some_0.remaining);
                assert(e1.wrap->Some_0 == (Wrap {
                    remaining: dec_remaining(e1.wrap->Some_0.remaining, 0),
                    ..e1.wrap->Some_0
                }));
            },
            None => {},
        }
    }
}

/// Crossing-budget exhaustion: a wrapped entity with one crossing left that
/// crosses one or two edges in a tick ends at a budget of exactly zero,
/// never below, and the following auto-expiry check removes its wrap
/// policy.
pub proof fn lemma_crossing_budget(e: Entity, vp: Area, elapsed: u64)
    requires
        e.wrapped is Some,
        e.ghost_tag is None,
        e.wrap is Some,
        e.wrap->Some_0.remaining == Some(1u8),
        e.wrap->Some_0.timer is None,
        crossings(e.translation, vp) >= 1,
    ensures
        teleport_rec(e, vp).wrap->Some_0.remaining == Some(0u8),
        expire_rec(teleport_rec(e, vp), elapsed).wrap is None,
{
}

/// A ghost is never itself marked wrapped.
pub open spec fn ghosts_not_wrapped(s: Seq<Entity>) -> bool {
    forall|i: int| 0 <= i < s.len() && (#[trigger] s[i]).ghost_tag is Some ==> s[i].wrapped is None
}

/// `gid` names a live ghost entity mirroring `owner`.
pub open spec fn ghost_link(s: Seq<Entity>, gid: u64, owner: u64) -> bool {
    exists|j: int|
        0 <= j < s.len() && (#[trigger] s[j]).id == gid && s[j].ghost_tag is Some
            && s[j].ghost_tag->Some_0.target == owner
}

/// The wrapped entity at index `k` owns exactly three ghosts: all three
/// identifiers present, pairwise distinct, each naming a live ghost that
/// mirrors it.
pub open spec fn wrapped_links_ok(s: Seq<Entity>, k: int) -> bool {
    let w = s[k].wrapped->Some_0;
    &&& w.ghosts.0 is Some
    &&& w.ghosts.1 is Some
    &&& w.ghosts.2 is Some
    &&& w.ghosts.0->Some_0 != w.ghosts.1->Some_0
    &&& w.ghosts.0->Some_0 != w.ghosts.2->Some_0
    &&& w.ghosts.1->Some_0 != w.ghosts.2->Some_0
    &&& ghost_link(s, w.ghosts.0->Some_0, s[k].id)
    &&& ghost_link(s, w.ghosts.1->Some_0, s[k].id)
    &&& ghost_link(s, w.ghosts.2->Some_0, s[k].id)
}

/// Every entity marked [`Wrapped`] owns three live, distinct ghosts.
pub open spec fn ghosts_linked(s: Seq<Entity>) -> bool {
    forall|k: int| 0 <= k < s.len() && (#[trigger] s[k]).wrapped is Some ==> wrapped_links_ok(s, k)
}

/// Conversely, every ghost whose source is still in the pool is one of the
/// three ghosts its source's [`Wrapped`] marker lists.
pub open spec fn ghosts_owned(s: Seq<Entity>) -> bool {
    forall|j: int, k: int|
        0 <= j < s.len() && 0 <= k < s.len() && (#[trigger] s[j]).ghost_tag is Some
            && (#[trigger] s[k]).id == s[j].ghost_tag->Some_0.target ==> s[k].wrapped is Some
            && in_ghosts(s[k].wrapped->Some_0, s[j].id)
}

/// The ghost-count invariant: every entity marked [`Wrapped`] owns exactly
/// three live ghosts — no fewer (they are linked) and no more (every ghost
/// of a live source is listed) — and no ghost is wrapped itself.
pub open spec fn wrap_state_ok(s: Seq<Entity>) -> bool {
    &&& ghosts_not_wrapped(s)
    &&& ghosts_linked(s)
    &&& ghosts_owned(s)
}

/// Everything the filter keeps was in the sequence.
proof fn lemma_filter_subset(s: Seq<Entity>, pred: spec_fn(Entity) -> bool)
    ensures
        forall|e: Entity| #[trigger] s.filter(pred).contains(e) ==> s.contains(e),
    decreases s.len(),
{
    reveal_with_fuel(Seq::filter, 2);
    if s.len() > 0 {
        let prefix = s.drop_last();
        lemma_filter_subset(prefix, pred);
        assert forall|e: Entity| #[trigger] s.filter(pred).contains(e) implies s.contains(e) by {
            if pred(s.last()) && e == s.last() {
                assert(s[s.len() - 1] == e);
            } else {
                assert(prefix.filter(pred).contains(e));
                assert(prefix.contains(e));
                let i = choose|i: int| 0 <= i < prefix.len() && prefix[i] == e;
                assert(s[i] == e);
            }
        }
    }
}

/// A link survives any pointwise update that keeps identifiers, ghost
/// presence and ghost targets.
proof fn lemma_link_transfer(s: Seq<Entity>, s2: Seq<Entity>, gid: u64, owner: u64)
    requires
        ghost_link(s, gid, owner),
        s2.len() == s.len(),
        forall|i: int| 0 <= i < s.len() ==> (#[trigger] s2[i]).id == s[i].id,
        forall|i: int|
            0 <= i < s.len() ==> ((#[trigger] s2[i]).ghost_tag is Some <==> s[i].ghost_tag is Some),
        forall|i: int|
            0 <= i < s.len() && (#[trigger] s2[i]).ghost_tag is Some ==> s2[i].ghost_tag->Some_0.target
                == s[i].ghost_tag->Some_0.target,
    ensures
        ghost_link(s2, gid, owner),
{
    let j = choose|j: int|
        0 <= j < s.len() && (#[trigger] s[j]).id == gid && s[j].ghost_tag is Some
            && s[j].ghost_tag->Some_0.target == owner;
    assert(s2[j].id == gid && s2[j].ghost_tag is Some && s2[j].ghost_tag->Some_0.target == owner);
}

/// The ghost-count invariant survives any pointwise update that keeps
/// identifiers, wrapped markers, ghost presence and ghost targets.
proof fn lemma_links_pointwise(s: Seq<Entity>, s2: Seq<Entity>)
    requires
        wrap_state_ok(s),
        s2.len() == s.len(),
        forall|i: int| 0 <= i < s.len() ==> (#[trigger] s2[i]).id == s[i].id,
        forall|i: int| 0 <= i < s.len() ==> (#[trigger] s2[i]).wrapped == s[i].wrapped,
        forall|i: int|
            0 <= i < s.len() ==> ((#[trigger] s2[i]).ghost_tag is Some <==> s[i].ghost_tag is Some),
        forall|i: int|
            0 <= i < s.len() && (#[trigger] s2[i]).ghost_tag is Some ==> s2[i].ghost_tag->Some_0.target
                == s[i].ghost_tag->Some_0.target,
    ensures
        wrap_state_ok(s2),
{
    assert forall|k: int| 0 <= k < s2.len() && (#[trigger] s2[k]).wrapped is Some implies
        wrapped_links_ok(s2, k) by {
        assert(s[k].wrapped is Some);
        assert(wrapped_links_ok(s, k));
        let w = s[k].wrapped->Some_0;
        lemma_link_transfer(s, s2, w.ghosts.0->Some_0, s[k].id);
        lemma_link_transfer(s, s2, w.ghosts.1->Some_0, s[k].id);
        lemma_link_transfer(s, s2, w.ghosts.2->Some_0, s[k].id);
    }
    assert forall|j: int, k: int|
        0 <= j < s2.len() && 0 <= k < s2.len() && (#[trigger] s2[j]).ghost_tag is Some && (
        #[trigger] s2[k]).id == s2[j].ghost_tag->Some_0.target implies s2[k].wrapped is Some
        && in_ghosts(s2[k].wrapped->Some_0, s2[j].id) by {
        assert(s[j].ghost_tag is Some);
        assert(s[k].id == s[j].ghost_tag->Some_0.target);
    }
}

/// Some wrapped entity carries the identifier `id`.
pub open spec fn has_wrapped_owner(s: Seq<Entity>, id: u64) -> bool {
    exists|k: int| 0 <= k < s.len() && (#[trigger] s[k]).id == id && s[k].wrapped is Some
}

/// The linkage clauses survive a filter that keeps every wrapped entity and
/// every ghost whose target is a live wrapped entity.
proof fn lemma_links_filter(s: Seq<Entity>, pred: spec_fn(Entity) -> bool)
    requires
        ghosts_not_wrapped(s),
        ghosts_linked(s),
        forall|i: int| 0 <= i < s.len() && (#[trigger] s[i]).wrapped is Some ==> pred(s[i]),
        forall|j: int|
            0 <= j < s.len() && (#[trigger] s[j]).ghost_tag is Some && has_wrapped_owner(
                s,
                s[j].ghost_tag->Some_0.target,
            ) ==> pred(s[j]),
    ensures
        ghosts_not_wrapped(s.filter(pred)),
        ghosts_linked(s.filter(pred)),
{
    let f = s.filter(pred);
    lemma_filter_subset(s, pred);
    assert forall|i: int| 0 <= i < f.len() && (#[trigger] f[i]).ghost_tag is Some implies f[i].wrapped
        is None by {
        assert(f.contains(f[i]));
        assert(s.contains(f[i]));
        let x = choose|x: int| 0 <= x < s.len() && s[x] == f[i];
    }
    assert forall|k: int| 0 <= k < f.len() && (#[trigger] f[k]).wrapped is Some implies
        wrapped_links_ok(f, k) by {
        assert(f.contains(f[k]));
        assert(s.contains(f[k]));
        let x = choose|x: int| 0 <= x < s.len() && s[x] == f[k];
        assert(wrapped_links_ok(s, x));
        let w = s[x].wrapped->Some_0;
        assert forall|gid: u64| ghost_link(s, gid, s[x].id) implies ghost_link(f, gid, s[x].id) by {
            let j = choose|j: int|
                0 <= j < s.len() && (#[trigger] s[j]).id == gid && s[j].ghost_tag is Some
                    && s[j].ghost_tag->Some_0.target == s[x].id;
            assert(has_wrapped_owner(s, s[j].ghost_tag->Some_0.target)) by {
                assert(s[x].id == s[j].ghost_tag->Some_0.target && s[x].wrapped is Some);
            }
            assert(pred(s[j]));
            s.lemma_filter_contains(pred, j);
            assert(f.contains(s[j]));
            let j2 = choose|j2: int| 0 <= j2 < f.len() && f[j2] == s[j];
            assert(f[j2].id == gid && f[j2].ghost_tag is Some && f[j2].ghost_tag->Some_0.target
                == s[x].id);
        }
        assert(ghost_link(f, w.ghosts.0->Some_0, f[k].id));
        assert(ghost_link(f, w.ghosts.1->Some_0, f[k].id));
        assert(ghost_link(f, w.ghosts.2->Some_0, f[k].id));
    }
}

/// Ghost ownership survives any filter: dropping entities only drops pairs.
proof fn lemma_owned_filter(s: Seq<Entity>, pred: spec_fn(Entity) -> bool)
    requires
        ghosts_owned(s),
    ensures
        ghosts_owned(s.filter(pred)),
{
    let f = s.filter(pred);
    lemma_filter_subset(s, pred);
    assert forall|j: int, k: int|
        0 <= j < f.len() && 0 <= k < f.len() && (#[trigger] f[j]).ghost_tag is Some && (
        #[trigger] f[k]).id == f[j].ghost_tag->Some_0.target implies f[k].wrapped is Some
        && in_ghosts(f[k].wrapped->Some_0, f[j].id) by {
        assert(f.contains(f[j]));
        assert(f.contains(f[k]));
        assert(s.contains(f[j]));
        assert(s.contains(f[k]));
        let x = choose|x: int| 0 <= x < s.len() && s[x] == f[j];
        let y = choose|y: int| 0 <= y < s.len() && s[y] == f[k];
        assert(s[x].ghost_tag is Some && s[y].id == s[x].ghost_tag->Some_0.target);
    }
}

/// A pool in which nothing is wrapped and nothing is a ghost satisfies the
/// ghost-count invariant vacuously; this is how every freshly built pool
/// starts.
pub proof fn lemma_wrap_state_initial(s: Seq<Entity>)
    requires
        forall|i: int| 0 <= i < s.len() ==> (#[trigger] s[i]).wrapped is None,
        forall|i: int| 0 <= i < s.len() ==> (#[trigger] s[i]).ghost_tag is None,
    ensures
        wrap_state_ok(s),
{
}

/// The teleport step preserves well-formedness and the ghost-count
/// invariant.
proof fn lemma_teleport_preserves(s: Seq<Entity>, next: int, vp: Area)
    requires
        pool_wf(s, next),
        wrap_state_ok(s),
        viewport_wf(vp),
    ensures
        pool_wf(teleport_step(s, vp), next),
        wrap_state_ok(teleport_step(s, vp)),
{
    let s2 = teleport_step(s, vp);
    assert forall|i: int| 0 <= i < s.len() implies entity_wf(#[trigger] s2[i]) by {
        assert(entity_wf(s[i]));
    }
    lemma_pool_wf_update(s, s2, next);
    lemma_links_pointwise(s, s2);
}

/// The ghost-placement step preserves well-formedness and the ghost-count
/// invariant.
proof fn lemma_make_transforms_preserves(s: Seq<Entity>, next: int, vp: Area)
    requires
        pool_wf(s, next),
        wrap_state_ok(s),
        viewport_wf(vp),
    ensures
        pool_wf(make_transforms_step(s, vp), next),
        wrap_state_ok(make_transforms_step(s, vp)),
{
    let s2 = make_transforms_step(s, vp);
    assert forall|i: int| 0 <= i < s.len() implies entity_wf(#[trigger] s2[i]) by {
        assert(entity_wf(s[i]));
        match s[i].ghost_tag {
            Some(g) => {
                if has_id(s, g.target) {
                    let j = choose|j: int| 0 <= j < s.len() && s[j].id == g.target;
                    assert(s[j].ghost_tag is None);
                    assert(entity_wf(s[j]));
                    assert(vec2_bounded(
                        ghost_shift(vp, crate::world::entity_with(s, g.target).translation, g.direction),
                        3 * MAX_COORD as int,
                    ));
                }
            },
            None => {},
        }
    }
    lemma_pool_wf_update(s, s2, next);
    lemma_links_pointwise(s, s2);
}

/// The frame-recording step preserves well-formedness and the ghost-count
/// invariant.
proof fn lemma_make_index_preserves(s: Seq<Entity>, next: int)
    requires
        pool_wf(s, next),
        wrap_state_ok(s),
    ensures
        pool_wf(make_index_step(s), next),
        wrap_state_ok(make_index_step(s)),
{
    let s2 = make_index_step(s);
    assert forall|i: int| 0 <= i < s.len() implies entity_wf(#[trigger] s2[i]) by {
        assert(entity_wf(s[i]));
    }
    lemma_pool_wf_update(s, s2, next);
    lemma_links_pointwise(s, s2);
}

/// The transform-write step preserves well-formedness and the ghost-count
/// invariant.
proof fn lemma_set_transforms_preserves(s: Seq<Entity>, next: int)
    requires
        pool_wf(s, next),
        wrap_state_ok(s),
    ensures
        pool_wf(set_transforms_step(s), next),
        wrap_state_ok(set_transforms_step(s)),
{
    let s2 = set_transforms_step(s);
    assert forall|i: int| 0 <= i < s.len() implies entity_wf(#[trigger] s2[i]) by {
        assert(entity_wf(s[i]));
    }
    lemma_pool_wf_update(s, s2, next);
    lemma_links_pointwise(s, s2);
}

/// The frame-write step preserves well-formedness and the ghost-count
/// invariant.
proof fn lemma_set_index_preserves(s: Seq<Entity>, next: int)
    requires
        pool_wf(s, next),
        wrap_state_ok(s),
    ensures
        pool_wf(set_index_step(s), next),
        wrap_state_ok(set_index_step(s)),
{
    let s2 = set_index_step(s);
    assert forall|i: int| 0 <= i < s.len() implies entity_wf(#[trigger] s2[i]) by {
        assert(entity_wf(s[i]));
    }
    lemma_pool_wf_update(s, s2, next);
    lemma_links_pointwise(s, s2);
}

/// The indirect teardown preserves well-formedness and the ghost-count
/// invariant: a ghost that still backs a wrapped entity has a live source.
proof fn lemma_indirect_preserves(s: Seq<Entity>, next: int)
    requires
        pool_wf(s, next),
        wrap_state_ok(s),
    ensures
        pool_wf(indirect_step(s), next),
        wrap_state_ok(indirect_step(s)),
{
    crate::world::filter_preserves_pool_wf(s, |e: Entity| indirect_keep(s, e), next);
    assert forall|j: int|
        0 <= j < s.len() && (#[trigger] s[j]).ghost_tag is Some && has_wrapped_owner(
            s,
            s[j].ghost_tag->Some_0.target,
        ) implies indirect_keep(s, s[j]) by {
        let k = choose|k: int|
            0 <= k < s.len() && (#[trigger] s[k]).id == s[j].ghost_tag->Some_0.target && s[k].wrapped
                is Some;
        assert(has_id(s, s[j].ghost_tag->Some_0.target));
    }
    lemma_links_filter(s, |e: Entity| indirect_keep(s, e));
    lemma_owned_filter(s, |e: Entity| indirect_keep(s, e));
}

/// The direct teardown preserves well-formedness and the ghost-count
/// invariant: a torn-down source and its three ghosts leave together, and
/// nobody else's ghosts are touched.
#[verifier::rlimit(60)]
proof fn lemma_direct_preserves(s: Seq<Entity>, next: int, vp: Area)
    requires
        pool_wf(s, next),
        wrap_state_ok(s),
        viewport_wf(vp),
    ensures
        pool_wf(direct_step(s, vp), next),
        wrap_state_ok(direct_step(s, vp)),
{
    let stripped = Seq::new(s.len(), |i: int| strip_rec(s[i], vp));
    assert forall|i: int| 0 <= i < s.len() implies entity_wf(#[trigger] stripped[i]) by {
        assert(entity_wf(s[i]));
    }
    lemma_pool_wf_update(s, stripped, next);
    assert(ghosts_not_wrapped(stripped) && ghosts_linked(stripped)) by {
        assert forall|k: int| 0 <= k < stripped.len() && (#[trigger] stripped[k]).wrapped is Some
            implies wrapped_links_ok(stripped, k) by {
            assert(s[k].wrapped is Some);
            assert(wrapped_links_ok(s, k));
            let w = s[k].wrapped->Some_0;
            assert forall|gid: u64| ghost_link(s, gid, s[k].id) implies ghost_link(
                stripped,
                gid,
                stripped[k].id,
            ) by {
                let j = choose|j: int|
                    0 <= j < s.len() && (#[trigger] s[j]).id == gid && s[j].ghost_tag is Some
                        && s[j].ghost_tag->Some_0.target == s[k].id;
                assert(s[j].wrapped is None);
                assert(!torn(s[j], vp));
                assert(stripped[j] == s[j]);
            }
            assert(ghost_link(stripped, w.ghosts.0->Some_0, stripped[k].id));
            assert(ghost_link(stripped, w.ghosts.1->Some_0, stripped[k].id));
            assert(ghost_link(stripped, w.ghosts.2->Some_0, stripped[k].id));
        }
    }
    // A torn source's ghost identifier can only name a ghost entity, never a
    // wrapped entity nor a ghost still backing an untorn owner.
    assert forall|i: int| 0 <= i < stripped.len() && (#[trigger] stripped[i]).wrapped is Some
        implies !ghost_of_torn(s, vp, stripped[i].id) by {
        if ghost_of_torn(s, vp, stripped[i].id) {
            let k2 = choose|k2: int|
                0 <= k2 < s.len() && torn(#[trigger] s[k2], vp) && in_ghosts(
                    s[k2].wrapped->Some_0,
                    stripped[i].id,
                );
            assert(wrapped_links_ok(s, k2));
            assert(ghost_link(s, stripped[i].id, s[k2].id));
            let j = choose|j: int|
                0 <= j < s.len() && (#[trigger] s[j]).id == stripped[i].id && s[j].ghost_tag is Some
                    && s[j].ghost_tag->Some_0.target == s[k2].id;
            if i != j {
                crate::world::lemma_id_unique_at(s, j, s[j].id);
                assert(false);
            }
            assert(s[i].ghost_tag is Some);
            assert(s[i].wrapped is None);
            assert(stripped[i].wrapped is None);
            assert(false);
        }
    }
    assert forall|j: int|
        0 <= j < stripped.len() && (#[trigger] stripped[j]).ghost_tag is Some && has_wrapped_owner(
            stripped,
            stripped[j].ghost_tag->Some_0.target,
        ) implies !ghost_of_torn(s, vp, stripped[j].id) by {
        if ghost_of_torn(s, vp, stripped[j].id) {
            let k2 = choose|k2: int|
                0 <= k2 < s.len() && torn(#[trigger] s[k2], vp) && in_ghosts(
                    s[k2].wrapped->Some_0,
                    stripped[j].id,
                );
            assert(wrapped_links_ok(s, k2));
            assert(ghost_link(s, stripped[j].id, s[k2].id));
            let j2 = choose|j2: int|
                0 <= j2 < s.len() && (#[trigger] s[j2]).id == stripped[j].id && s[j2].ghost_tag is Some
                    && s[j2].ghost_tag->Some_0.target == s[k2].id;
            if j != j2 {
                crate::world::lemma_id_unique_at(s, j2, s[j2].id);
                assert(false);
            }
            let k3 = choose|k3: int|
                0 <= k3 < stripped.len() && (#[trigger] stripped[k3]).id == stripped[j].ghost_tag->Some_0.target
                    && stripped[k3].wrapped is Some;
            assert(stripped[j].ghost_tag->Some_0.target == s[k2].id);
            if k3 != k2 {
                crate::world::lemma_id_unique_at(s, k2, s[k2].id);
                assert(false);
            }
            assert(stripped[k2].wrapped is None);
            assert(false);
        }
    }
    crate::world::filter_preserves_pool_wf(stripped, |e: Entity| !ghost_of_torn(s, vp, e.id), next);
    lemma_links_filter(stripped, |e: Entity| !ghost_of_torn(s, vp, e.id));
    // Ownership after the teardown: a surviving ghost's source cannot be a
    // torn one (its ghosts were just removed), so it is still wrapped and
    // still lists the ghost.
    let keep = |e: Entity| !ghost_of_torn(s, vp, e.id);
    let f = stripped.filter(keep);
    lemma_filter_subset(stripped, keep);
    assert forall|j: int, k: int|
        0 <= j < f.len() && 0 <= k < f.len() && (#[trigger] f[j]).ghost_tag is Some && (
        #[trigger] f[k]).id == f[j].ghost_tag->Some_0.target implies f[k].wrapped is Some
        && in_ghosts(f[k].wrapped->Some_0, f[j].id) by {
        stripped.lemma_filter_pred(keep, j);
        assert(f.contains(f[j]));
        assert(f.contains(f[k]));
        assert(stripped.contains(f[j]));
        assert(stripped.contains(f[k]));
        let x = choose|x: int| 0 <= x < stripped.len() && stripped[x] == f[j];
        let y = choose|y: int| 0 <= y < stripped.len() && stripped[y] == f[k];
        assert(s[x].ghost_tag is Some);
        assert(s[x].wrapped is None);
        assert(!torn(s[x], vp));
        assert(stripped[x] == s[x]);
        assert(s[y].id == f[k].id);
        assert(s[y].wrapped is Some && in_ghosts(s[y].wrapped->Some_0, s[x].id));
        if torn(s[y], vp) {
            assert(ghost_of_torn(s, vp, s[x].id));
            assert(false);
        }
        assert(stripped[y] == s[y]);
    }
}

/// The out-of-bounds cleanup preserves well-formedness and the ghost-count
/// invariant: it never removes wrapped entities or ghosts.
proof fn lemma_unprotected_preserves(s: Seq<Entity>, next: int, vp: Area)
    requires
        pool_wf(s, next),
        wrap_state_ok(s),
    ensures
        pool_wf(unprotected_step(s, vp), next),
        wrap_state_ok(unprotected_step(s, vp)),
{
    crate::world::filter_preserves_pool_wf(s, |e: Entity| unprotected_keep(e, vp), next);
    lemma_links_filter(s, |e: Entity| unprotected_keep(e, vp));
    lemma_owned_filter(s, |e: Entity| unprotected_keep(e, vp));
}

/// The receding-spawn check preserves well-formedness and the ghost-count
/// invariant: it only removes entities that are neither wrapped nor ghosts.
proof fn lemma_receding_preserves(s: Seq<Entity>, next: int, vp: Area)
    requires
        pool_wf(s, next),
        wrap_state_ok(s),
    ensures
        pool_wf(receding_step(s, vp), next),
        wrap_state_ok(receding_step(s, vp)),
{
    crate::world::filter_preserves_pool_wf(s, |e: Entity| receding_keep(e, vp), next);
    lemma_links_filter(s, |e: Entity| receding_keep(e, vp));
    lemma_owned_filter(s, |e: Entity| receding_keep(e, vp));
    let filtered = s.filter(|e: Entity| receding_keep(e, vp));
    let s2 = filtered.map_values(|e: Entity| receding_upd(e, vp));
    assert forall|i: int| 0 <= i < filtered.len() implies entity_wf(#[trigger] s2[i]) by {
        assert(entity_wf(filtered[i]));
    }
    lemma_pool_wf_update(filtered, s2, next);
    lemma_links_pointwise(filtered, s2);
}

/// The auto-expiry step preserves well-formedness and the ghost-count
/// invariant.
proof fn lemma_expiry_preserves(s: Seq<Entity>, next: int, elapsed: u64)
    requires
        pool_wf(s, next),
        wrap_state_ok(s),
    ensures
        pool_wf(expiry_step(s, elapsed), next),
        wrap_state_ok(expiry_step(s, elapsed)),
{
    let s2 = expiry_step(s, elapsed);
    assert forall|i: int| 0 <= i < s.len() implies entity_wf(#[trigger] s2[i]) by {
        assert(entity_wf(s[i]));
    }
    lemma_pool_wf_update(s, s2, next);
    lemma_links_pointwise(s, s2);
}

/// Ghost-count invariant across a whole wrap tick: whatever steps fire, an
/// entity marked [`Wrapped`] afterwards owns exactly three live ghosts, and
/// no ghost is wrapped. Within the tick, creation and teardown are atomic:
/// marker and ghosts appear and disappear together.
pub proof fn lemma_wrap_tick_preserves_links(s: Seq<Entity>, next: int, elapsed: u64)
    requires
        pool_wf(s, next),
        wrap_state_ok(s),
        0 <= next,
        next + 3 * s.len() <= u64::MAX,
    ensures
        wrap_state_ok(wrap_tick_spec(s, next, elapsed).0),
        pool_wf(wrap_tick_spec(s, next, elapsed).0, wrap_tick_spec(s, next, elapsed).1),
{
    if viewport_of(s) is Some {
        let vp0 = viewport_of(s)->Some_0;
        lemma_viewport_wf(s, next, vp0);
        let s1 = teleport_full(s);
        lemma_teleport_preserves(s, next, vp0);
        let s2 = spawn_full(s1, next).0;
        let n2 = spawn_full(s1, next).1;
        assert(s1.len() == s.len());
        if viewport_of(s1) is Some {
            let vp1 = viewport_of(s1)->Some_0;
            lemma_spawn_step_wf(s1, vp1, next);
            lemma_spawn_links(s1, vp1, next);
            crate::world::lemma_count_matching_bounds(s1, |e: Entity| eligible(e, vp1));
        }
        assert(pool_wf(s2, n2) && wrap_state_ok(s2)) by {
            if viewport_of(s1) is None {
                assert(s2 == s1 && n2 == next);
            }
        }
        let s3 = make_transforms_full(s2);
        if viewport_of(s2) is Some {
            lemma_viewport_wf(s2, n2, viewport_of(s2)->Some_0);
            lemma_make_transforms_preserves(s2, n2, viewport_of(s2)->Some_0);
        }
        let s4 = make_index_step(s3);
        lemma_make_index_preserves(s3, n2);
        let s5 = set_transforms_step(s4);
        lemma_set_transforms_preserves(s4, n2);
        let s6 = set_index_step(s5);
        lemma_set_index_preserves(s5, n2);
        let s7 = indirect_step(s6);
        lemma_indirect_preserves(s6, n2);
        let s8 = direct_full(s7);
        if viewport_of(s7) is Some {
            lemma_viewport_wf(s7, n2, viewport_of(s7)->Some_0);
            lemma_direct_preserves(s7, n2, viewport_of(s7)->Some_0);
        }
        let s9 = unprotected_full(s8);
        if viewport_of(s8) is Some {
            lemma_unprotected_preserves(s8, n2, viewport_of(s8)->Some_0);
        }
        let s10 = receding_full(s9);
        if viewport_of(s9) is Some {
            lemma_receding_preserves(s9, n2, viewport_of(s9)->Some_0);
        }
        lemma_expiry_preserves(s10, n2, elapsed);
    }
}

/// A wrapped entity is mirrored by exactly three live ghosts: the three its
/// marker lists, and no others.
pub proof fn lemma_wrapped_ghost_count(s: Seq<Entity>, k: int)
    requires
        crate::world::ids_unique(s),
        wrap_state_ok(s),
        0 <= k < s.len(),
        s[k].wrapped is Some,
    ensures
        count_matching(
            s,
            |e: Entity| e.ghost_tag is Some && e.ghost_tag->Some_0.target == s[k].id,
        ) == 3,
{
    let pred = |e: Entity| e.ghost_tag is Some && e.ghost_tag->Some_0.target == s[k].id;
    assert(wrapped_links_ok(s, k));
    let w = s[k].wrapped->Some_0;
    let g0 = w.ghosts.0->Some_0;
    let g1 = w.ghosts.1->Some_0;
    let g2 = w.ghosts.2->Some_0;
    let j0 = choose|j: int|
        0 <= j < s.len() && (#[trigger] s[j]).id == g0 && s[j].ghost_tag is Some
            && s[j].ghost_tag->Some_0.target == s[k].id;
    let j1 = choose|j: int|
        0 <= j < s.len() && (#[trigger] s[j]).id == g1 && s[j].ghost_tag is Some
            && s[j].ghost_tag->Some_0.target == s[k].id;
    let j2 = choose|j: int|
        0 <= j < s.len() && (#[trigger] s[j]).id == g2 && s[j].ghost_tag is Some
            && s[j].ghost_tag->Some_0.target == s[k].id;
    assert(pred(s[j0]) && pred(s[j1]) && pred(s[j2]));
    assert(j0 != j1 && j0 != j2 && j1 != j2);
    assert forall|i: int| 0 <= i < s.len() && i != j0 && i != j1 && i != j2 implies !pred(
        #[trigger] s[i],
    ) by {
        if pred(s[i]) {
            assert(s[i].ghost_tag is Some && s[k].id == s[i].ghost_tag->Some_0.target);
            assert(in_ghosts(w, s[i].id));
            if s[i].id == g0 {
                crate::world::lemma_id_unique_at(s, j0, g0);
            } else if s[i].id == g1 {
                crate::world::lemma_id_unique_at(s, j1, g1);
            } else {
                crate::world::lemma_id_unique_at(s, j2, g2);
            }
            assert(false);
        }
    }
    crate::world::lemma_count_matching_exactly_three(s, pred, j0, j1, j2);
}

/// An entity not marked [`Wrapped`] has no ghosts mirroring it at all.
pub proof fn lemma_unwrapped_ghost_count(s: Seq<Entity>, k: int)
    requires
        wrap_state_ok(s),
        0 <= k < s.len(),
        s[k].wrapped is None,
    ensures
        count_matching(
            s,
            |e: Entity| e.ghost_tag is Some && e.ghost_tag->Some_0.target == s[k].id,
        ) == 0,
{
    let pred = |e: Entity| e.ghost_tag is Some && e.ghost_tag->Some_0.target == s[k].id;
    assert forall|i: int| 0 <= i < s.len() implies !pred(#[trigger] s[i]) by {
        if pred(s[i]) {
            assert(s[i].ghost_tag is Some && s[k].id == s[i].ghost_tag->Some_0.target);
            assert(s[k].wrapped is Some);
            assert(false);
        }
    }
    crate::world::lemma_count_matching_none(s, pred);
}

/// Shape of the spawned ghost sequence: one well-formed ghost per position,
/// with consecutive identifiers from `next`, each pointing at an eligible
/// source entity.
proof fn lemma_spawn_ghost_recs_props(s: Seq<Entity>, vp: Area, next: int)
    requires
        forall|i: int| 0 <= i < s.len() ==> entity_wf(#[trigger] s[i]),
        0 <= next,
        next + 3 * s.len() <= u64::MAX,
    ensures
        spawn_ghost_recs(s, vp, next).len() == 3 * count_eligible(s, vp),
        forall|p: int|
            0 <= p < spawn_ghost_recs(s, vp, next).len() ==> (#[trigger] spawn_ghost_recs(
                s,
                vp,
                next,
            )[p]).id == next + p,
        forall|p: int|
            0 <= p < spawn_ghost_recs(s, vp, next).len() ==> (#[trigger] spawn_ghost_recs(
                s,
                vp,
                next,
            )[p]).ghost_tag is Some,
        forall|p: int|
            0 <= p < spawn_ghost_recs(s, vp, next).len() ==> entity_wf(
                #[trigger] spawn_ghost_recs(s, vp, next)[p],
            ),
        forall|p: int|
            0 <= p < spawn_ghost_recs(s, vp, next).len() ==> (#[trigger] spawn_ghost_recs(
                s,
                vp,
                next,
            )[p]).wrapped is None,
        forall|p: int|
            0 <= p < spawn_ghost_recs(s, vp, next).len() ==> exists|x: int|
                0 <= x < s.len() && eligible(#[trigger] s[x], vp) && (#[trigger] spawn_ghost_recs(
                    s,
                    vp,
                    next,
                )[p]).ghost_tag->Some_0.target == s[x].id && 3 * count_eligible(
                    s.subrange(0, x),
                    vp,
                ) <= p < 3 * count_eligible(s.subrange(0, x), vp) + 3,
    decreases s.len(),
{
    let g = spawn_ghost_recs(s, vp, next);
    crate::world::lemma_count_matching_bounds(s, |e: Entity| eligible(e, vp));
    if s.len() == 0 {
    } else {
        let prefix = s.drop_last();
        assert(forall|i: int| 0 <= i < prefix.len() ==> prefix[i] == s[i]);
        lemma_spawn_ghost_recs_props(prefix, vp, next);
        let front = spawn_ghost_recs(prefix, vp, next);
        let last = s.last();
        assert(last == s[s.len() - 1]);
        if eligible(last, vp) {
            let base = next + 3 * count_eligible(prefix, vp);
            crate::world::lemma_count_matching_bounds(prefix, |e: Entity| eligible(e, vp));
            assert(base + 2 < next + 3 * s.len());
            assert(g == front + ghost_triple(last, base));
            assert(count_eligible(s, vp) == count_eligible(prefix, vp) + 1);
            assert(front.len() == 3 * count_eligible(prefix, vp));
            assert forall|p: int| 0 <= p < g.len() implies (#[trigger] g[p]).id == next + p
                && g[p].ghost_tag is Some && entity_wf(g[p]) && g[p].wrapped is None && exists|x: int|
                0 <= x < s.len() && eligible(#[trigger] s[x], vp) && g[p].ghost_tag->Some_0.target
                    == s[x].id && 3 * count_eligible(s.subrange(0, x), vp) <= p < 3
                * count_eligible(s.subrange(0, x), vp) + 3 by {
                if p < front.len() {
                    assert(g[p] == front[p]);
                    let x = choose|x: int|
                        0 <= x < prefix.len() && eligible(#[trigger] prefix[x], vp)
                            && front[p].ghost_tag->Some_0.target == prefix[x].id && 3
                            * count_eligible(prefix.subrange(0, x), vp) <= p < 3 * count_eligible(
                            prefix.subrange(0, x),
                            vp,
                        ) + 3;
                    assert(eligible(s[x], vp));
                    assert(prefix.subrange(0, x) =~= s.subrange(0, x));
                } else {
                    assert(g[p] == ghost_triple(last, base)[p - front.len()]);
                    assert(last.ghost_tag is None) by {
                        assert(entity_wf(s[s.len() - 1]));
                    }
                    assert(eligible(s[s.len() - 1], vp));
                    assert(entity_wf(g[p])) by {
                        assert(entity_wf(s[s.len() - 1]));
                    }
                    assert(prefix =~= s.subrange(0, s.len() - 1));
                    assert(3 * count_eligible(s.subrange(0, s.len() - 1), vp) <= p < 3
                        * count_eligible(s.subrange(0, s.len() - 1), vp) + 3);
                }
            }
        } else {
            assert(g == front);
            assert(count_eligible(s, vp) == count_eligible(prefix, vp));
            assert forall|p: int| 0 <= p < g.len() implies (#[trigger] g[p]).id == next + p
                && g[p].ghost_tag is Some && entity_wf(g[p]) && g[p].wrapped is None && exists|x: int|
                0 <= x < s.len() && eligible(#[trigger] s[x], vp) && g[p].ghost_tag->Some_0.target
                    == s[x].id && 3 * count_eligible(s.subrange(0, x), vp) <= p < 3
                * count_eligible(s.subrange(0, x), vp) + 3 by {
                assert(g[p] == front[p]);
                let x = choose|x: int|
                    0 <= x < prefix.len() && eligible(#[trigger] prefix[x], vp)
                        && front[p].ghost_tag->Some_0.target == prefix[x].id && 3 * count_eligible(
                        prefix.subrange(0, x),
                        vp,
                    ) <= p < 3 * count_eligible(prefix.subrange(0, x), vp) + 3;
                assert(eligible(s[x], vp));
                assert(prefix.subrange(0, x) =~= s.subrange(0, x));
            }
        }
    }
}

/// Each eligible entity's three ghosts sit consecutively in the spawned
/// sequence, at the offset its eligibility count determines.
proof fn lemma_spawn_ghost_recs_triples(s: Seq<Entity>, vp: Area, next: int)
    ensures
        forall|i: int|
            0 <= i < s.len() && eligible(#[trigger] s[i], vp) ==> spawn_ghost_recs(
                s,
                vp,
                next,
            ).subrange(
                3 * count_eligible(s.subrange(0, i), vp),
                3 * count_eligible(s.subrange(0, i), vp) + 3,
            ) == ghost_triple(s[i], next + 3 * count_eligible(s.subrange(0, i), vp)),
    decreases s.len(),
{
    if s.len() > 0 {
        let prefix = s.drop_last();
        let g = spawn_ghost_recs(s, vp, next);
        let front = spawn_ghost_recs(prefix, vp, next);
        lemma_spawn_ghost_recs_triples(prefix, vp, next);
        lemma_spawn_ghost_recs_len(prefix, vp, next);
        assert(forall|i: int| 0 <= i < prefix.len() ==> prefix[i] == s[i]);
        assert forall|i: int| 0 <= i < s.len() && eligible(#[trigger] s[i], vp) implies g.subrange(
            3 * count_eligible(s.subrange(0, i), vp),
            3 * count_eligible(s.subrange(0, i), vp) + 3,
        ) == ghost_triple(s[i], next + 3 * count_eligible(s.subrange(0, i), vp)) by {
            let b = 3 * count_eligible(s.subrange(0, i), vp);
            crate::world::lemma_count_matching_bounds(
                s.subrange(0, i),
                |e: Entity| eligible(e, vp),
            );
            if i == s.len() - 1 {
                assert(s.subrange(0, i) =~= prefix);
                assert(g == front + ghost_triple(s[i], next + b));
                assert(b == front.len());
                assert(g.subrange(b, b + 3) =~= ghost_triple(s[i], next + b));
            } else {
                assert(s.subrange(0, i) =~= prefix.subrange(0, i));
                assert(eligible(prefix[i], vp));
                crate::world::lemma_count_matching_extend(prefix, |e: Entity| eligible(e, vp), i);
                crate::world::lemma_count_matching_prefix(
                    prefix,
                    |e: Entity| eligible(e, vp),
                    i + 1,
                );
                assert(b + 3 <= 3 * count_eligible(prefix, vp));
                assert(b + 3 <= front.len());
                assert(front.subrange(b, b + 3) == ghost_triple(prefix[i], next + b));
                if eligible(s.last(), vp) {
                    assert(g == front + ghost_triple(
                        s.last(),
                        next + 3 * count_eligible(prefix, vp),
                    ));
                    assert(g[b + 0] == front[b + 0]);
                    assert(g[b + 1] == front[b + 1]);
                    assert(g[b + 2] == front[b + 2]);
                    assert(g.subrange(b, b + 3) =~= front.subrange(b, b + 3));
                } else {
                    assert(g == front);
                }
            }
        }
    }
}

/// Length of the spawned ghost sequence alone.
proof fn lemma_spawn_ghost_recs_len(s: Seq<Entity>, vp: Area, next: int)
    ensures
        spawn_ghost_recs(s, vp, next).len() == 3 * count_eligible(s, vp),
    decreases s.len(),
{
    if s.len() > 0 {
        lemma_spawn_ghost_recs_len(s.drop_last(), vp, next);
    }
}

/// The ghost-creation step keeps ghosts unwrapped: new ghosts carry no
/// marker, and entities that already carry one are not ghosts.
proof fn lemma_spawn_not_wrapped(s: Seq<Entity>, vp: Area, next: int)
    requires
        pool_wf(s, next),
        ghosts_not_wrapped(s),
        0 <= next,
        next + 3 * s.len() <= u64::MAX,
    ensures
        ghosts_not_wrapped(spawn_step(s, vp, next)),
{
    let m = spawn_marked(s, vp, next);
    let g = spawn_ghost_recs(s, vp, next);
    let s2 = spawn_step(s, vp, next);
    lemma_spawn_ghost_recs_props(s, vp, next);
    assert forall|i: int| 0 <= i < s2.len() && (#[trigger] s2[i]).ghost_tag is Some implies s2[i].wrapped
        is None by {
        if i < m.len() {
            assert(s2[i] == m[i]);
            assert(m[i] == spawn_mark(s[i], vp, next + 3 * count_eligible(s.subrange(0, i), vp)));
            assert(entity_wf(s[i]));
            assert(s[i].ghost_tag is Some);
            assert(s[i].wrap is None);
            assert(!scanned(s[i]));
            assert(s2[i] == s[i]);
        } else {
            assert(s2[i] == g[i - m.len()]);
        }
    }
}

/// The ghost-creation step links every wrapped entity to three live ghosts:
/// newly wrapped entities to the three just spawned for them,
/// already-wrapped entities to the ones they kept.
#[verifier::rlimit(60)]
proof fn lemma_spawn_linked(s: Seq<Entity>, vp: Area, next: int)
    requires
        pool_wf(s, next),
        wrap_state_ok(s),
        0 <= next,
        next + 3 * s.len() <= u64::MAX,
    ensures
        ghosts_linked(spawn_step(s, vp, next)),
{
    let m = spawn_marked(s, vp, next);
    let g = spawn_ghost_recs(s, vp, next);
    let s2 = spawn_step(s, vp, next);
    lemma_spawn_ghost_recs_props(s, vp, next);
    lemma_spawn_ghost_recs_triples(s, vp, next);
    crate::world::lemma_count_matching_bounds(s, |e: Entity| eligible(e, vp));
    assert forall|k: int| 0 <= k < s2.len() && (#[trigger] s2[k]).wrapped is Some implies
        wrapped_links_ok(s2, k) by {
        if k < m.len() {
            if s[k].wrapped is Some {
                assert(!scanned(s[k]));
                assert(s2[k] == s[k]);
                assert(wrapped_links_ok(s, k));
                let w = s[k].wrapped->Some_0;
                assert forall|gid: u64| ghost_link(s, gid, s[k].id) implies ghost_link(
                    s2,
                    gid,
                    s2[k].id,
                ) by {
                    let j = choose|j: int|
                        0 <= j < s.len() && (#[trigger] s[j]).id == gid && s[j].ghost_tag is Some
                            && s[j].ghost_tag->Some_0.target == s[k].id;
                    assert(s2[j].id == gid && s2[j].ghost_tag is Some && s2[j].ghost_tag->Some_0.target
                        == s2[k].id);
                }
                assert(ghost_link(s2, w.ghosts.0->Some_0, s2[k].id));
                assert(ghost_link(s2, w.ghosts.1->Some_0, s2[k].id));
                assert(ghost_link(s2, w.ghosts.2->Some_0, s2[k].id));
            } else {
                assert(eligible(s[k], vp));
                let c = count_eligible(s.subrange(0, k), vp);
                let b = next + 3 * c;
                assert(s2[k] == spawn_mark(s[k], vp, b));
                assert(s2[k].wrapped->Some_0.ghosts == (
                    Some(b as u64),
                    Some((b + 1) as u64),
                    Some((b + 2) as u64),
                ));
                assert(0 <= c) by {
                    crate::world::lemma_count_matching_bounds(
                        s.subrange(0, k),
                        |e: Entity| eligible(e, vp),
                    );
                }
                assert(3 * c + 3 <= g.len()) by {
                    crate::world::lemma_count_matching_extend(s, |e: Entity| eligible(e, vp), k);
                    crate::world::lemma_count_matching_prefix(
                        s,
                        |e: Entity| eligible(e, vp),
                        k + 1,
                    );
                }
                assert(b + 2 < next + 3 * s.len()) by {
                    crate::world::lemma_count_matching_bounds(
                        s.subrange(0, k),
                        |e: Entity| eligible(e, vp),
                    );
                }
                let triple = ghost_triple(s[k], b);
                assert(g.subrange(3 * c, 3 * c + 3) == triple);
                assert(g[3 * c] == triple[0] && g[3 * c + 1] == triple[1] && g[3 * c + 2]
                    == triple[2]) by {
                    assert(g.subrange(3 * c, 3 * c + 3)[0] == g[3 * c]);
                    assert(g.subrange(3 * c, 3 * c + 3)[1] == g[3 * c + 1]);
                    assert(g.subrange(3 * c, 3 * c + 3)[2] == g[3 * c + 2]);
                }
                assert(ghost_link(s2, b as u64, s2[k].id)) by {
                    assert(s2[m.len() + 3 * c] == g[3 * c]);
                    assert(g[3 * c].id == b as u64 && g[3 * c].ghost_tag is Some && g[3 * c].ghost_tag->Some_0.target
                        == s[k].id);
                }
                assert(ghost_link(s2, (b + 1) as u64, s2[k].id)) by {
                    assert(s2[m.len() + 3 * c + 1] == g[3 * c + 1]);
                }
                assert(ghost_link(s2, (b + 2) as u64, s2[k].id)) by {
                    assert(s2[m.len() + 3 * c + 2] == g[3 * c + 2]);
                }
            }
        } else {
            assert(s2[k] == g[k - m.len()]);
        }
    }
}

/// The ghost-creation step keeps every ghost owned: a surviving ghost's
/// source keeps listing it, and each new ghost is listed by the entity it
/// was spawned for.
#[verifier::rlimit(60)]
proof fn lemma_spawn_owned(s: Seq<Entity>, vp: Area, next: int)
    requires
        pool_wf(s, next),
        wrap_state_ok(s),
        0 <= next,
        next + 3 * s.len() <= u64::MAX,
    ensures
        ghosts_owned(spawn_step(s, vp, next)),
{
    let m = spawn_marked(s, vp, next);
    let g = spawn_ghost_recs(s, vp, next);
    let s2 = spawn_step(s, vp, next);
    lemma_spawn_ghost_recs_props(s, vp, next);
    crate::world::lemma_count_matching_bounds(s, |e: Entity| eligible(e, vp));
    assert forall|j: int, k: int|
        0 <= j < s2.len() && 0 <= k < s2.len() && (#[trigger] s2[j]).ghost_tag is Some && (
        #[trigger] s2[k]).id == s2[j].ghost_tag->Some_0.target implies s2[k].wrapped is Some
        && in_ghosts(s2[k].wrapped->Some_0, s2[j].id) by {
        if j < m.len() {
            // An old ghost: its target is an old identifier, so the owner
            // sits in the marked region, untouched by the scan.
            assert(s2[j] == m[j]);
            assert(m[j].ghost_tag == s[j].ghost_tag);
            let tgt = s[j].ghost_tag->Some_0.target;
            assert(tgt < next);
            assert(k < m.len()) by {
                if k >= m.len() {
                    assert(s2[k] == g[k - m.len()]);
                    assert(s2[k].id == next + (k - m.len()));
                }
            }
            assert(s2[k] == m[k]);
            assert(s[k].id == tgt);
            assert(s[k].wrapped is Some && in_ghosts(s[k].wrapped->Some_0, s[j].id));
            assert(!scanned(s[k]));
            assert(m[k] == s[k]);
            assert(m[j].id == s[j].id);
        } else {
            // A new ghost: its source was eligible, is now marked wrapped,
            // and lists the three identifiers of its fresh triple.
            let p = j - m.len();
            assert(s2[j] == g[p]);
            let x = choose|x: int|
                0 <= x < s.len() && eligible(#[trigger] s[x], vp) && g[p].ghost_tag->Some_0.target
                    == s[x].id && 3 * count_eligible(s.subrange(0, x), vp) <= p < 3
                    * count_eligible(s.subrange(0, x), vp) + 3;
            assert(k < m.len()) by {
                if k >= m.len() {
                    assert(s2[k] == g[k - m.len()]);
                    assert(s2[k].id == next + (k - m.len()));
                    assert(s[x].id < next);
                }
            }
            assert(s2[k] == m[k]);
            assert(s[k].id == s[x].id);
            if k != x {
                crate::world::lemma_id_unique_at(s, x, s[x].id);
                assert(false);
            }
            let c = count_eligible(s.subrange(0, x), vp);
            let b = next + 3 * c;
            assert(m[x] == spawn_mark(s[x], vp, b));
            assert(m[x].wrapped->Some_0.ghosts == (
                Some(b as u64),
                Some((b + 1) as u64),
                Some((b + 2) as u64),
            )) by {
                crate::world::lemma_count_matching_bounds(
                    s.subrange(0, x),
                    |e: Entity| eligible(e, vp),
                );
                crate::world::lemma_count_matching_extend(s, |e: Entity| eligible(e, vp), x);
                crate::world::lemma_count_matching_prefix(s, |e: Entity| eligible(e, vp), x + 1);
            }
            assert(g[p].id == next + p);
            assert(3 * c <= p < 3 * c + 3);
            assert(in_ghosts(m[x].wrapped->Some_0, g[p].id));
        }
    }
}

/// The ghost-creation step establishes the ghost-count invariant.
proof fn lemma_spawn_links(s: Seq<Entity>, vp: Area, next: int)
    requires
        pool_wf(s, next),
        wrap_state_ok(s),
        0 <= next,
        next + 3 * s.len() <= u64::MAX,
    ensures
        wrap_state_ok(spawn_step(s, vp, next)),
{
    lemma_spawn_not_wrapped(s, vp, next);
    lemma_spawn_linked(s, vp, next);
    lemma_spawn_owned(s, vp, next);
}

/// The ghost-creation step keeps the pool well-formed, with the
/// fresh-identifier bound advanced past the new ghosts.
proof fn lemma_spawn_step_wf(s: Seq<Entity>, vp: Area, next: int)
    requires
        pool_wf(s, next),
        0 <= next,
        next + 3 * s.len() <= u64::MAX,
    ensures
        pool_wf(spawn_step(s, vp, next), next + 3 * count_eligible(s, vp)),
{
    let pred = |e: Entity| eligible(e, vp);
    let m = spawn_marked(s, vp, next);
    let g = spawn_ghost_recs(s, vp, next);
    let s2 = spawn_step(s, vp, next);
    let e2 = count_eligible(s, vp);
    let next2 = next + 3 * e2;
    crate::world::lemma_count_matching_bounds(s, pred);
    lemma_spawn_ghost_recs_props(s, vp, next);
    assert(m.len() == s.len());
    assert forall|i: int| 0 <= i < s.len() implies (#[trigger] m[i]).id == s[i].id && m[i].ghost_tag
        == s[i].ghost_tag && entity_wf(m[i]) by {
        assert(entity_wf(s[i]));
    }
    assert forall|i: int, j: int| 0 <= i < j < s2.len() implies s2[i].id != s2[j].id by {
        if j < m.len() {
            assert(s[i].id != s[j].id);
        } else if i < m.len() {
            assert(s2[i].id == s[i].id < next);
            assert(s2[j].id == next + (j - m.len()));
        } else {
            assert(s2[i].id == next + (i - m.len()));
            assert(s2[j].id == next + (j - m.len()));
        }
    }
    assert forall|i: int| 0 <= i < s2.len() implies (#[trigger] s2[i]).id < next2 by {
        if i < m.len() {
            assert(s2[i].id == s[i].id < next);
        } else {
            assert(s2[i].id == next + (i - m.len()) < next + 3 * e2);
        }
    }
    assert forall|i: int| 0 <= i < s2.len() implies entity_wf(#[trigger] s2[i]) by {
        if i < m.len() {
            assert(s2[i] == m[i]);
        } else {
            assert(s2[i] == g[i - m.len()]);
        }
    }
    assert forall|i: int|
        0 <= i < s2.len() && (#[trigger] s2[i]).ghost_tag is Some implies s2[i].ghost_tag->Some_0.target
        < next2 by {
        if i < m.len() {
            assert(s2[i].ghost_tag == s[i].ghost_tag);
            assert(s[i].ghost_tag->Some_0.target < next);
        } else {
            let p = i - m.len();
            let x = choose|x: int|
                0 <= x < s.len() && eligible(#[trigger] s[x], vp) && g[p].ghost_tag->Some_0.target
                    == s[x].id;
            assert(s[x].id < next);
        }
    }
    assert forall|i: int, j: int|
        0 <= i < s2.len() && 0 <= j < s2.len() && s2[i].ghost_tag is Some && s2[j].id == s2[i].ghost_tag->Some_0.target
        implies s2[j].ghost_tag is None by {
        let t = s2[i].ghost_tag->Some_0.target;
        if i < m.len() {
            assert(s2[i].ghost_tag == s[i].ghost_tag);
            assert(t < next);
            assert(j < m.len()) by {
                if j >= m.len() {
                    assert(s2[j].id == next + (j - m.len()));
                }
            }
            assert(s[j].id == t);
            assert(s[j].ghost_tag is None);
        } else {
            let p = i - m.len();
            let x = choose|x: int|
                0 <= x < s.len() && eligible(#[trigger] s[x], vp) && g[p].ghost_tag->Some_0.target
                    == s[x].id;
            assert(t == s[x].id < next);
            assert(j < m.len()) by {
                if j >= m.len() {
                    assert(s2[j].id == next + (j - m.len()));
                }
            }
            assert(s[j].id == t);
            if j != x {
                crate::world::lemma_id_unique_at(s, x, s[x].id);
                assert(false);
            }
            assert(s[x].wrap is Some);
            assert(entity_wf(s[x]));
            assert(s[x].ghost_tag is None);
            assert(s2[j].ghost_tag == s[j].ghost_tag);
        }
    }
}

} // verus!

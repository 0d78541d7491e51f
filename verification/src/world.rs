//! The entity pool: positioned entities with optional components, keyed by
//! stable integer identifiers.
//!
//! Entities are heterogeneous component sets: any entity may or may not carry
//! a collider, layer/mask bits, a wrap policy, and so on; the engines query
//! them by component presence. Structural changes (spawn/despawn) go through
//! the pool's methods, which keep the pool well-formed ([`World::wf`]).

use vstd::prelude::*;

use crate::collision::{collider_wf, Collider2D, CollisionLayer, CollisionMask};
use crate::geom::{vec2_bounded, viewport_wf, Area, Vec2, MAX_COORD};
use crate::wrap::{GhostTag, NoWrapProtection, Wrap, WrapCamera, Wrapped};

verus! {

/// One entity: an identifier, a transform, and optional components.
#[derive(Clone, Copy, Debug)]
pub struct Entity {
    /// Stable identifier, unique within the pool.
    pub id: u64,
    /// World position of the entity's transform origin.
    pub translation: Vec2,
    /// Orientation, in caller-chosen angle units; the engines only copy it.
    pub rotation: i64,
    /// Animation/sprite frame index; the engines only copy it.
    pub frame: u32,
    pub collider: Option<Collider2D>,
    pub layer: Option<CollisionLayer>,
    pub mask: Option<CollisionMask>,
    pub wrap: Option<Wrap>,
    pub wrapped: Option<Wrapped>,
    pub ghost_tag: Option<GhostTag>,
    pub protection: Option<NoWrapProtection>,
    pub wrap_camera: Option<WrapCamera>,
    /// Viewport rectangle, carried by the camera entity.
    pub projection: Option<Area>,
    /// Last squared distance from the viewport, tracked by the wrap engine
    /// for entities that drift away before ever wrapping.
    pub screen_distance: Option<i64>,
}

/// An entity with no components, at the given position.
pub open spec fn blank_entity(id: u64, translation: Vec2) -> Entity {
    Entity {
        id,
        translation,
        rotation: 0,
        frame: 0,
        collider: None,
        layer: None,
        mask: None,
        wrap: None,
        wrapped: None,
        ghost_tag: None,
        protection: None,
        wrap_camera: None,
        projection: None,
        screen_distance: None,
    }
}

/// Per-entity well-formedness: coordinates within bounds (ghost transforms
/// may reach three times the caller bound), components well-formed, and
/// ghosts never wrap-eligible themselves.
pub open spec fn entity_wf(e: Entity) -> bool {
    &&& vec2_bounded(e.translation, 3 * MAX_COORD as int)
    &&& (e.ghost_tag is None ==> vec2_bounded(e.translation, MAX_COORD as int))
    &&& (e.collider is Some ==> collider_wf(e.collider->Some_0))
    &&& (e.projection is Some ==> viewport_wf(e.projection->Some_0))
    &&& (e.ghost_tag is Some ==> vec2_bounded(e.ghost_tag->Some_0.shift, 3 * MAX_COORD as int))
    &&& (e.ghost_tag is Some ==> e.wrap is None)
}

/// Identifiers are pairwise distinct.
pub open spec fn ids_unique(s: Seq<Entity>) -> bool {
    forall|i: int, j: int| 0 <= i < j < s.len() ==> s[i].id != s[j].id
}

/// Every identifier is below the pool's next fresh identifier.
pub open spec fn ids_below(s: Seq<Entity>, next: int) -> bool {
    forall|i: int| 0 <= i < s.len() ==> s[i].id < next
}

/// A ghost's target, when it is still in the pool, is never itself a ghost.
pub open spec fn ghost_targets_nonghost(s: Seq<Entity>) -> bool {
    forall|i: int, j: int|
        0 <= i < s.len() && 0 <= j < s.len() && s[i].ghost_tag is Some && s[j].id == s[i].ghost_tag->Some_0.target
            ==> s[j].ghost_tag is None
}

/// Ghost targets only name identifiers the pool has already handed out.
pub open spec fn ghost_targets_below(s: Seq<Entity>, next: int) -> bool {
    forall|i: int|
        0 <= i < s.len() && (#[trigger] s[i]).ghost_tag is Some ==> s[i].ghost_tag->Some_0.target
            < next
}

/// Pool well-formedness over a snapshot of the entities.
pub open spec fn pool_wf(s: Seq<Entity>, next: int) -> bool {
    &&& ids_unique(s)
    &&& ids_below(s, next)
    &&& (forall|i: int| 0 <= i < s.len() ==> entity_wf(#[trigger] s[i]))
    &&& ghost_targets_nonghost(s)
    &&& ghost_targets_below(s, next)
}

/// Some entity in the pool has the given identifier.
pub open spec fn has_id(s: Seq<Entity>, id: u64) -> bool {
    exists|i: int| 0 <= i < s.len() && s[i].id == id
}

/// The entity carrying the given identifier; meaningful when `has_id` holds
/// and identifiers are unique.
pub open spec fn entity_with(s: Seq<Entity>, id: u64) -> Entity {
    s[choose|j: int| 0 <= j < s.len() && s[j].id == id]
}

/// With unique identifiers, a known index pins `entity_with` down.
pub proof fn lemma_entity_with(s: Seq<Entity>, k: int, id: u64)
    requires
        ids_unique(s),
        0 <= k < s.len(),
        s[k].id == id,
    ensures
        has_id(s, id),
        entity_with(s, id) == s[k],
{
    assert(has_id(s, id));
    let j = choose|j: int| 0 <= j < s.len() && s[j].id == id;
    if j != k {
        lemma_id_unique_at(s, k, id);
        assert(false);
    }
}

/// `e` with its translation replaced.
pub open spec fn with_translation(e: Entity, v: Vec2) -> Entity {
    Entity { translation: v, ..e }
}

/// `e` with its rotation replaced.
pub open spec fn with_rotation(e: Entity, v: i64) -> Entity {
    Entity { rotation: v, ..e }
}

/// `e` with its frame index replaced.
pub open spec fn with_frame(e: Entity, v: u32) -> Entity {
    Entity { frame: v, ..e }
}

/// `e` with its collider replaced.
pub open spec fn with_collider(e: Entity, v: Collider2D) -> Entity {
    Entity { collider: Some(v), ..e }
}

/// `e` with its collision layer replaced.
pub open spec fn with_layer(e: Entity, v: CollisionLayer) -> Entity {
    Entity { layer: Some(v), ..e }
}

/// `e` with its collision mask replaced.
pub open spec fn with_mask(e: Entity, v: CollisionMask) -> Entity {
    Entity { mask: Some(v), ..e }
}

/// `e` with its wrap policy replaced.
pub open spec fn with_wrap(e: Entity, v: Wrap) -> Entity {
    Entity { wrap: Some(v), ..e }
}

/// `e` without a wrap policy.
pub open spec fn without_wrap(e: Entity) -> Entity {
    Entity { wrap: None, ..e }
}

/// `e` with despawn protection.
pub open spec fn with_protection(e: Entity) -> Entity {
    Entity { protection: Some(NoWrapProtection), ..e }
}

/// `e` marked as the wrap camera, carrying the viewport `v`.
pub open spec fn with_camera(e: Entity, v: Area) -> Entity {
    Entity { wrap_camera: Some(WrapCamera), projection: Some(v), ..e }
}

/// The shared pool of entities.
pub struct World {
    pub entities: Vec<Entity>,
    pub next_id: u64,
}

impl World {
    /// Pool well-formedness; every method preserves it.
    pub open spec fn wf(&self) -> bool {
        pool_wf(self.entities@, self.next_id as int)
    }

    /// An empty pool.
    pub fn new() -> (r: World)
        ensures
            r.wf(),
            r.entities@.len() == 0,
            r.next_id == 0,
    {
        World { entities: Vec::new(), next_id: 0 }
    }

    /// Number of entities in the pool.
    pub fn len(&self) -> (r: usize)
        ensures
            r == self.entities@.len(),
    {
        self.entities.len()
    }

    /// Creates a fresh entity with no components at `translation` and
    /// returns its identifier.
    pub fn spawn(&mut self, translation: Vec2) -> (id: u64)
        requires
            old(self).wf(),
            vec2_bounded(translation, MAX_COORD as int),
            old(self).next_id < u64::MAX,
        ensures
            final(self).wf(),
            id == old(self).next_id,
            final(self).next_id == old(self).next_id + 1,
            final(self).entities@ == old(self).entities@.push(blank_entity(id, translation)),
    {
        let id = self.next_id;
        let e = Entity {
            id,
            translation,
            rotation: 0,
            frame: 0,
            collider: None,
            layer: None,
            mask: None,
            wrap: None,
            wrapped: None,
            ghost_tag: None,
            protection: None,
            wrap_camera: None,
            projection: None,
            screen_distance: None,
        };
        self.entities.push(e);
        self.next_id = self.next_id + 1;
        proof {
            assert(self.entities@ == old(self).entities@.push(blank_entity(id, translation)));
        }
        id
    }

    /// Sets the world translation of entity `id`; returns whether it exists.
    pub fn set_translation(&mut self, id: u64, v: Vec2) -> (r: bool)
        requires
            old(self).wf(),
            vec2_bounded(v, MAX_COORD as int),
        ensures
            final(self).wf(),
            final(self).next_id == old(self).next_id,
            final(self).entities@.len() == old(self).entities@.len(),
            forall|i: int|
                0 <= i < old(self).entities@.len() ==> final(self).entities@[i] == (
                if old(self).entities@[i].id == id {
                    with_translation(old(self).entities@[i], v)
                } else {
                    old(self).entities@[i]
                }),
            r == has_id(old(self).entities@, id),
    {
        match index_of_id(&self.entities, id) {
            Some(k) => {
                let mut e = self.entities[k];
                e.translation = v;
                self.entities.set(k, e);
                proof {
                    lemma_id_unique_at(old(self).entities@, k as int, id);
                    lemma_pool_wf_update(
                        old(self).entities@,
                        self.entities@,
                        old(self).next_id as int,
                    );
                }
                true
            },
            None => false,
        }
    }

    /// Sets the rotation of entity `id`; returns whether it exists.
    pub fn set_rotation(&mut self, id: u64, v: i64) -> (r: bool)
        requires
            old(self).wf(),
        ensures
            final(self).wf(),
            final(self).next_id == old(self).next_id,
            final(self).entities@.len() == old(self).entities@.len(),
            forall|i: int|
                0 <= i < old(self).entities@.len() ==> final(self).entities@[i] == (
                if old(self).entities@[i].id == id {
                    with_rotation(old(self).entities@[i], v)
                } else {
                    old(self).entities@[i]
                }),
            r == has_id(old(self).entities@, id),
    {
        match index_of_id(&self.entities, id) {
            Some(k) => {
                let mut e = self.entities[k];
                e.rotation = v;
                self.entities.set(k, e);
                proof {
                    lemma_id_unique_at(old(self).entities@, k as int, id);
                    lemma_pool_wf_update(
                        old(self).entities@,
                        self.entities@,
                        old(self).next_id as int,
                    );
                }
                true
            },
            None => false,
        }
    }

    /// Sets the animation frame of entity `id`; returns whether it exists.
    pub fn set_frame(&mut self, id: u64, v: u32) -> (r: bool)
        requires
            old(self).wf(),
        ensures
            final(self).wf(),
            final(self).next_id == old(self).next_id,
            final(self).entities@.len() == old(self).entities@.len(),
            forall|i: int|
                0 <= i < old(self).entities@.len() ==> final(self).entities@[i] == (
                if old(self).entities@[i].id == id {
                    with_frame(old(self).entities@[i], v)
                } else {
                    old(self).entities@[i]
                }),
            r == has_id(old(self).entities@, id),
    {
        match index_of_id(&self.entities, id) {
            Some(k) => {
                let mut e = self.entities[k];
                e.frame = v;
                self.entities.set(k, e);
                proof {
                    lemma_id_unique_at(old(self).entities@, k as int, id);
                    lemma_pool_wf_update(
                        old(self).entities@,
                        self.entities@,
                        old(self).next_id as int,
                    );
                }
                true
            },
            None => false,
        }
    }

    /// Attaches a collider to entity `id`; returns whether it exists.
    pub fn set_collider(&mut self, id: u64, v: Collider2D) -> (r: bool)
        requires
            old(self).wf(),
            collider_wf(v),
        ensures
            final(self).wf(),
            final(self).next_id == old(self).next_id,
            final(self).entities@.len() == old(self).entities@.len(),
            forall|i: int|
                0 <= i < old(self).entities@.len() ==> final(self).entities@[i] == (
                if old(self).entities@[i].id == id {
                    with_collider(old(self).entities@[i], v)
                } else {
                    old(self).entities@[i]
                }),
            r == has_id(old(self).entities@, id),
    {
        match index_of_id(&self.entities, id) {
            Some(k) => {
                let mut e = self.entities[k];
                e.collider = Some(v);
                self.entities.set(k, e);
                proof {
                    lemma_id_unique_at(old(self).entities@, k as int, id);
                    lemma_pool_wf_update(
                        old(self).entities@,
                        self.entities@,
                        old(self).next_id as int,
                    );
                }
                true
            },
            None => false,
        }
    }

    /// Attaches collision layer bits to entity `id`; returns whether it
    /// exists.
    pub fn set_layer(&mut self, id: u64, v: CollisionLayer) -> (r: bool)
        requires
            old(self).wf(),
        ensures
            final(self).wf(),
            final(self).next_id == old(self).next_id,
            final(self).entities@.len() == old(self).entities@.len(),
            forall|i: int|
                0 <= i < old(self).entities@.len() ==> final(self).entities@[i] == (
                if old(self).entities@[i].id == id {
                    with_layer(old(self).entities@[i], v)
                } else {
                    old(self).entities@[i]
                }),
            r == has_id(old(self).entities@, id),
    {
        match index_of_id(&self.entities, id) {
            Some(k) => {
                let mut e = self.entities[k];
                e.layer = Some(v);
                self.entities.set(k, e);
                proof {
                    lemma_id_unique_at(old(self).entities@, k as int, id);
                    lemma_pool_wf_update(
                        old(self).entities@,
                        self.entities@,
                        old(self).next_id as int,
                    );
                }
                true
            },
            None => false,
        }
    }

    /// Attaches collision mask bits to entity `id`; returns whether it
    /// exists.
    pub fn set_mask(&mut self, id: u64, v: CollisionMask) -> (r: bool)
        requires
            old(self).wf(),
        ensures
            final(self).wf(),
            final(self).next_id == old(self).next_id,
            final(self).entities@.len() == old(self).entities@.len(),
            forall|i: int|
                0 <= i < old(self).entities@.len() ==> final(self).entities@[i] == (
                if old(self).entities@[i].id == id {
                    with_mask(old(self).entities@[i], v)
                } else {
                    old(self).entities@[i]
                }),
            r == has_id(old(self).entities@, id),
    {
        match index_of_id(&self.entities, id) {
            Some(k) => {
                let mut e = self.entities[k];
                e.mask = Some(v);
                self.entities.set(k, e);
                proof {
                    lemma_id_unique_at(old(self).entities@, k as int, id);
                    lemma_pool_wf_update(
                        old(self).entities@,
                        self.entities@,
                        old(self).next_id as int,
                    );
                }
                true
            },
            None => false,
        }
    }

    /// Attaches a wrap policy to entity `id`. Ghosts never wrap: the call is
    /// a no-op on a ghost entity. Returns whether the policy was attached.
    pub fn set_wrap(&mut self, id: u64, v: Wrap) -> (r: bool)
        requires
            old(self).wf(),
        ensures
            final(self).wf(),
            final(self).next_id == old(self).next_id,
            final(self).entities@.len() == old(self).entities@.len(),
            forall|i: int|
                0 <= i < old(self).entities@.len() ==> final(self).entities@[i] == (
                if old(self).entities@[i].id == id && old(self).entities@[i].ghost_tag is None {
                    with_wrap(old(self).entities@[i], v)
                } else {
                    old(self).entities@[i]
                }),
            r == exists|i: int|
                0 <= i < old(self).entities@.len() && (#[trigger] old(self).entities@[i]).id == id
                    && old(self).entities@[i].ghost_tag is None,
    {
        match index_of_id(&self.entities, id) {
            Some(k) => {
                let mut e = self.entities[k];
                if e.ghost_tag.is_some() {
                    proof {
                        lemma_id_unique_at(old(self).entities@, k as int, id);
                    }
                    return false;
                }
                e.wrap = Some(v);
                self.entities.set(k, e);
                proof {
                    lemma_id_unique_at(old(self).entities@, k as int, id);
                    lemma_pool_wf_update(
                        old(self).entities@,
                        self.entities@,
                        old(self).next_id as int,
                    );
                }
                true
            },
            None => false,
        }
    }

    /// Removes the wrap policy of entity `id`, ending its wrap eligibility;
    /// its ghosts are torn down once it settles inside the viewport. Returns
    /// whether the entity exists.
    pub fn remove_wrap(&mut self, id: u64) -> (r: bool)
        requires
            old(self).wf(),
        ensures
            final(self).wf(),
            final(self).next_id == old(self).next_id,
            final(self).entities@.len() == old(self).entities@.len(),
            forall|i: int|
                0 <= i < old(self).entities@.len() ==> final(self).entities@[i] == (
                if old(self).entities@[i].id == id {
                    without_wrap(old(self).entities@[i])
                } else {
                    old(self).entities@[i]
                }),
            r == has_id(old(self).entities@, id),
    {
        match index_of_id(&self.entities, id) {
            Some(k) => {
                let mut e = self.entities[k];
                e.wrap = None;
                self.entities.set(k, e);
                proof {
                    lemma_id_unique_at(old(self).entities@, k as int, id);
                    lemma_pool_wf_update(
                        old(self).entities@,
                        self.entities@,
                        old(self).next_id as int,
                    );
                }
                true
            },
            None => false,
        }
    }

    /// Protects entity `id` from the out-of-bounds despawn rule; returns
    /// whether it exists.
    pub fn set_protection(&mut self, id: u64) -> (r: bool)
        requires
            old(self).wf(),
        ensures
            final(self).wf(),
            final(self).next_id == old(self).next_id,
            final(self).entities@.len() == old(self).entities@.len(),
            forall|i: int|
                0 <= i < old(self).entities@.len() ==> final(self).entities@[i] == (
                if old(self).entities@[i].id == id {
                    with_protection(old(self).entities@[i])
                } else {
                    old(self).entities@[i]
                }),
            r == has_id(old(self).entities@, id),
    {
        match index_of_id(&self.entities, id) {
            Some(k) => {
                let mut e = self.entities[k];
                e.protection = Some(NoWrapProtection);
                self.entities.set(k, e);
                proof {
                    lemma_id_unique_at(old(self).entities@, k as int, id);
                    lemma_pool_wf_update(
                        old(self).entities@,
                        self.entities@,
                        old(self).next_id as int,
                    );
                }
                true
            },
            None => false,
        }
    }

    /// Marks entity `id` as the wrap camera and stores its viewport; returns
    /// whether it exists.
    pub fn set_camera(&mut self, id: u64, v: Area) -> (r: bool)
        requires
            old(self).wf(),
            viewport_wf(v),
        ensures
            final(self).wf(),
            final(self).next_id == old(self).next_id,
            final(self).entities@.len() == old(self).entities@.len(),
            forall|i: int|
                0 <= i < old(self).entities@.len() ==> final(self).entities@[i] == (
                if old(self).entities@[i].id == id {
                    with_camera(old(self).entities@[i], v)
                } else {
                    old(self).entities@[i]
                }),
            r == has_id(old(self).entities@, id),
    {
        match index_of_id(&self.entities, id) {
            Some(k) => {
                let mut e = self.entities[k];
                e.wrap_camera = Some(WrapCamera);
                e.projection = Some(v);
                self.entities.set(k, e);
                proof {
                    lemma_id_unique_at(old(self).entities@, k as int, id);
                    lemma_pool_wf_update(
                        old(self).entities@,
                        self.entities@,
                        old(self).next_id as int,
                    );
                }
                true
            },
            None => false,
        }
    }

    /// Whether an entity with the given identifier is in the pool.
    pub fn exists_id(&self, id: u64) -> (r: bool)
        ensures
            r == has_id(self.entities@, id),
    {
        match index_of_id(&self.entities, id) {
            Some(k) => {
                proof {
                    assert(has_id(self.entities@, id));
                }
                true
            },
            None => false,
        }
    }

    /// The translation of entity `id`, if it exists.
    pub fn translation_of(&self, id: u64) -> (r: Option<Vec2>)
        requires
            self.wf(),
        ensures
            r == if has_id(self.entities@, id) {
                Some(entity_with(self.entities@, id).translation)
            } else {
                Option::<Vec2>::None
            },
    {
        match index_of_id(&self.entities, id) {
            Some(k) => {
                proof {
                    lemma_entity_with(self.entities@, k as int, id);
                }
                Some(self.entities[k].translation)
            },
            None => None,
        }
    }

    /// The animation frame of entity `id`, if it exists.
    pub fn frame_of(&self, id: u64) -> (r: Option<u32>)
        requires
            self.wf(),
        ensures
            r == if has_id(self.entities@, id) {
                Some(entity_with(self.entities@, id).frame)
            } else {
                Option::<u32>::None
            },
    {
        match index_of_id(&self.entities, id) {
            Some(k) => {
                proof {
                    lemma_entity_with(self.entities@, k as int, id);
                }
                Some(self.entities[k].frame)
            },
            None => None,
        }
    }

    /// Whether entity `id` exists and carries a wrap policy.
    pub fn has_wrap(&self, id: u64) -> (r: bool)
        requires
            self.wf(),
        ensures
            r == (has_id(self.entities@, id) && entity_with(self.entities@, id).wrap is Some),
    {
        match index_of_id(&self.entities, id) {
            Some(k) => {
                proof {
                    lemma_entity_with(self.entities@, k as int, id);
                }
                self.entities[k].wrap.is_some()
            },
            None => false,
        }
    }

    /// Whether entity `id` exists and currently owns ghosts.
    pub fn has_wrapped(&self, id: u64) -> (r: bool)
        requires
            self.wf(),
        ensures
            r == (has_id(self.entities@, id) && entity_with(self.entities@, id).wrapped is Some),
    {
        match index_of_id(&self.entities, id) {
            Some(k) => {
                proof {
                    lemma_entity_with(self.entities@, k as int, id);
                }
                self.entities[k].wrapped.is_some()
            },
            None => false,
        }
    }

    /// The ghost identifiers entity `id` owns, if it is wrapped.
    pub fn wrapped_ghosts_of(&self, id: u64) -> (r: Option<(Option<u64>, Option<u64>, Option<u64>)>)
        requires
            self.wf(),
        ensures
            r == if has_id(self.entities@, id) && entity_with(self.entities@, id).wrapped is Some {
                Some(entity_with(self.entities@, id).wrapped->Some_0.ghosts)
            } else {
                Option::<(Option<u64>, Option<u64>, Option<u64>)>::None
            },
    {
        match index_of_id(&self.entities, id) {
            Some(k) => {
                proof {
                    lemma_entity_with(self.entities@, k as int, id);
                }
                match self.entities[k].wrapped {
                    Some(w) => Some(w.ghosts),
                    None => None,
                }
            },
            None => None,
        }
    }

    /// Whether entity `id` exists and is a ghost; a ghost's target is then
    /// returned by [`World::ghost_target_of`].
    pub fn is_ghost(&self, id: u64) -> (r: bool)
        requires
            self.wf(),
        ensures
            r == (has_id(self.entities@, id) && entity_with(self.entities@, id).ghost_tag is Some),
    {
        match index_of_id(&self.entities, id) {
            Some(k) => {
                proof {
                    lemma_entity_with(self.entities@, k as int, id);
                }
                self.entities[k].ghost_tag.is_some()
            },
            None => false,
        }
    }

    /// The source entity a ghost mirrors, if `id` is a ghost.
    pub fn ghost_target_of(&self, id: u64) -> (r: Option<u64>)
        requires
            self.wf(),
        ensures
            r == if has_id(self.entities@, id) && entity_with(self.entities@, id).ghost_tag is Some {
                Some(entity_with(self.entities@, id).ghost_tag->Some_0.target)
            } else {
                Option::<u64>::None
            },
    {
        match index_of_id(&self.entities, id) {
            Some(k) => {
                proof {
                    lemma_entity_with(self.entities@, k as int, id);
                }
                match self.entities[k].ghost_tag {
                    Some(g) => Some(g.target),
                    None => None,
                }
            },
            None => None,
        }
    }

    /// Number of live ghosts that mirror entity `target`.
    pub fn ghost_count_of(&self, target: u64) -> (r: usize)
        ensures
            r == count_matching(
                self.entities@,
                |e: Entity| e.ghost_tag is Some && e.ghost_tag->Some_0.target == target,
            ),
    {
        let ghost s = self.entities@;
        let n = self.entities.len();
        let mut count: usize = 0;
        let mut k: usize = 0;
        while k < n
            invariant
                n == s.len(),
                s == self.entities@,
                0 <= k <= n,
                count == count_matching(
                    s.subrange(0, k as int),
                    |e: Entity| e.ghost_tag is Some && e.ghost_tag->Some_0.target == target,
                ),
            decreases n - k,
        {
            proof {
                lemma_count_matching_extend(
                    s,
                    |e: Entity| e.ghost_tag is Some && e.ghost_tag->Some_0.target == target,
                    k as int,
                );
                lemma_count_matching_bounds(
                    s.subrange(0, k as int),
                    |e: Entity| e.ghost_tag is Some && e.ghost_tag->Some_0.target == target,
                );
            }
            let e = self.entities[k];
            match e.ghost_tag {
                Some(g) => {
                    if g.target == target {
                        count = count + 1;
                    }
                },
                None => {},
            }
            k = k + 1;
        }
        proof {
            assert(s.subrange(0, n as int) =~= s);
        }
        count
    }

    /// Removes the entity with the given identifier, if present. Ghosts it
    /// owned are swept by the wrap engine on the next tick.
    pub fn despawn(&mut self, id: u64)
        requires
            old(self).wf(),
        ensures
            final(self).wf(),
            final(self).next_id == old(self).next_id,
            final(self).entities@ == old(self).entities@.filter(|e: Entity| e.id != id),
    {
        let n = self.entities.len();
        let mut out: Vec<Entity> = Vec::new();
        let mut k: usize = 0;
        while k < n
            invariant
                n == self.entities@.len(),
                self.entities@ == old(self).entities@,
                self.next_id == old(self).next_id,
                0 <= k <= n,
                out@ == self.entities@.subrange(0, k as int).filter(|e: Entity| e.id != id),
            decreases n - k,
        {
            let e = self.entities[k];
            proof {
                assert(self.entities@.subrange(0, k as int + 1).drop_last() =~= self.entities@
                    .subrange(0, k as int));
                reveal_with_fuel(Seq::filter, 2);
                assert(self.entities@.subrange(0, k as int + 1).last() == e);
            }
            if e.id != id {
                out.push(e);
            }
            k = k + 1;
        }
        proof {
            assert(self.entities@.subrange(0, n as int) =~= self.entities@);
        }
        self.entities = out;
        proof {
            filter_preserves_pool_wf(old(self).entities@, |e: Entity| e.id != id, old(self).next_id as int);
        }
    }
}

/// Number of entities satisfying `pred`.
pub open spec fn count_matching(s: Seq<Entity>, pred: spec_fn(Entity) -> bool) -> int
    decreases s.len(),
{
    if s.len() == 0 {
        0
    } else {
        count_matching(s.drop_last(), pred) + if pred(s.last()) {
            1int
        } else {
            0int
        }
    }
}

/// The count is between zero and the pool size.
pub proof fn lemma_count_matching_bounds(s: Seq<Entity>, pred: spec_fn(Entity) -> bool)
    ensures
        0 <= count_matching(s, pred) <= s.len(),
    decreases s.len(),
{
    if s.len() > 0 {
        lemma_count_matching_bounds(s.drop_last(), pred);
    }
}

/// An entity satisfying `pred` makes the count positive.
pub proof fn lemma_count_matching_at(s: Seq<Entity>, pred: spec_fn(Entity) -> bool, i: int)
    requires
        0 <= i < s.len(),
        pred(s[i]),
    ensures
        count_matching(s, pred) >= 1,
    decreases s.len(),
{
    lemma_count_matching_bounds(s.drop_last(), pred);
    if i < s.len() - 1 {
        lemma_count_matching_at(s.drop_last(), pred, i);
    }
}

/// A positive count exhibits an entity satisfying `pred`.
pub proof fn lemma_count_matching_pos(s: Seq<Entity>, pred: spec_fn(Entity) -> bool)
    requires
        count_matching(s, pred) > 0,
    ensures
        exists|i: int| 0 <= i < s.len() && pred(#[trigger] s[i]),
    decreases s.len(),
{
    if s.len() > 0 {
        if pred(s.last()) {
            assert(pred(s[s.len() - 1]));
        } else {
            lemma_count_matching_pos(s.drop_last(), pred);
            let i = choose|i: int| 0 <= i < s.drop_last().len() && pred(#[trigger] s.drop_last()[i]);
            assert(pred(s[i]));
        }
    }
}

/// Two distinct entities satisfying `pred` make the count at least two.
pub proof fn lemma_count_matching_two(s: Seq<Entity>, pred: spec_fn(Entity) -> bool, i: int, j: int)
    requires
        0 <= i < j < s.len(),
        pred(s[i]),
        pred(s[j]),
    ensures
        count_matching(s, pred) >= 2,
    decreases s.len(),
{
    if j == s.len() - 1 {
        lemma_count_matching_at(s.drop_last(), pred, i);
    } else {
        lemma_count_matching_two(s.drop_last(), pred, i, j);
        lemma_count_matching_bounds(s.drop_last(), pred);
    }
}

/// When nothing satisfies `pred`, the count is zero.
pub proof fn lemma_count_matching_none(s: Seq<Entity>, pred: spec_fn(Entity) -> bool)
    requires
        forall|i: int| 0 <= i < s.len() ==> !pred(#[trigger] s[i]),
    ensures
        count_matching(s, pred) == 0,
    decreases s.len(),
{
    if s.len() > 0 {
        let prefix = s.drop_last();
        assert(forall|i: int| 0 <= i < prefix.len() ==> prefix[i] == s[i]);
        lemma_count_matching_none(prefix, pred);
        assert(!pred(s[s.len() - 1]));
    }
}

/// When exactly one position satisfies `pred`, the count is one.
pub proof fn lemma_count_matching_exactly_one(
    s: Seq<Entity>,
    pred: spec_fn(Entity) -> bool,
    j0: int,
)
    requires
        0 <= j0 < s.len(),
        pred(s[j0]),
        forall|i: int| 0 <= i < s.len() && i != j0 ==> !pred(#[trigger] s[i]),
    ensures
        count_matching(s, pred) == 1,
    decreases s.len(),
{
    let prefix = s.drop_last();
    assert(forall|i: int| 0 <= i < prefix.len() ==> prefix[i] == s[i]);
    if j0 == s.len() - 1 {
        lemma_count_matching_none(prefix, pred);
    } else {
        assert(!pred(s[s.len() - 1]));
        lemma_count_matching_exactly_one(prefix, pred, j0);
    }
}

/// When exactly two positions satisfy `pred`, the count is two.
pub proof fn lemma_count_matching_exactly_two(
    s: Seq<Entity>,
    pred: spec_fn(Entity) -> bool,
    j0: int,
    j1: int,
)
    requires
        0 <= j0 < s.len(),
        0 <= j1 < s.len(),
        j0 != j1,
        pred(s[j0]),
        pred(s[j1]),
        forall|i: int| 0 <= i < s.len() && i != j0 && i != j1 ==> !pred(#[trigger] s[i]),
    ensures
        count_matching(s, pred) == 2,
    decreases s.len(),
{
    let prefix = s.drop_last();
    assert(forall|i: int| 0 <= i < prefix.len() ==> prefix[i] == s[i]);
    if j0 == s.len() - 1 {
        lemma_count_matching_exactly_one(prefix, pred, j1);
    } else if j1 == s.len() - 1 {
        lemma_count_matching_exactly_one(prefix, pred, j0);
    } else {
        assert(!pred(s[s.len() - 1]));
        lemma_count_matching_exactly_two(prefix, pred, j0, j1);
    }
}

/// When exactly three positions satisfy `pred`, the count is three.
pub proof fn lemma_count_matching_exactly_three(
    s: Seq<Entity>,
    pred: spec_fn(Entity) -> bool,
    j0: int,
    j1: int,
    j2: int,
)
    requires
        0 <= j0 < s.len(),
        0 <= j1 < s.len(),
        0 <= j2 < s.len(),
        j0 != j1,
        j0 != j2,
        j1 != j2,
        pred(s[j0]),
        pred(s[j1]),
        pred(s[j2]),
        forall|i: int| 0 <= i < s.len() && i != j0 && i != j1 && i != j2 ==> !pred(#[trigger] s[i]),
    ensures
        count_matching(s, pred) == 3,
    decreases s.len(),
{
    let prefix = s.drop_last();
    assert(forall|i: int| 0 <= i < prefix.len() ==> prefix[i] == s[i]);
    if j0 == s.len() - 1 {
        lemma_count_matching_exactly_two(prefix, pred, j1, j2);
    } else if j1 == s.len() - 1 {
        lemma_count_matching_exactly_two(prefix, pred, j0, j2);
    } else if j2 == s.len() - 1 {
        lemma_count_matching_exactly_two(prefix, pred, j0, j1);
    } else {
        assert(!pred(s[s.len() - 1]));
        lemma_count_matching_exactly_three(prefix, pred, j0, j1, j2);
    }
}

/// A prefix never counts more than the whole sequence.
pub proof fn lemma_count_matching_prefix(s: Seq<Entity>, pred: spec_fn(Entity) -> bool, k: int)
    requires
        0 <= k <= s.len(),
    ensures
        count_matching(s.subrange(0, k), pred) <= count_matching(s, pred),
    decreases s.len() - k,
{
    if k == s.len() {
        assert(s.subrange(0, k) =~= s);
    } else {
        lemma_count_matching_extend(s, pred, k);
        lemma_count_matching_prefix(s, pred, k + 1);
    }
}

/// Counting over a prefix extended by one element.
pub proof fn lemma_count_matching_extend(s: Seq<Entity>, pred: spec_fn(Entity) -> bool, k: int)
    requires
        0 <= k < s.len(),
    ensures
        count_matching(s.subrange(0, k + 1), pred) == count_matching(s.subrange(0, k), pred) + if pred(
            s[k],
        ) {
            1int
        } else {
            0int
        },
{
    assert(s.subrange(0, k + 1).drop_last() =~= s.subrange(0, k));
    assert(s.subrange(0, k + 1).last() == s[k]);
}

/// Index of the entity with the given identifier, if any.
pub(crate) fn index_of_id(entities: &Vec<Entity>, id: u64) -> (r: Option<usize>)
    ensures
        match r {
            Some(k) => k < entities@.len() && entities@[k as int].id == id,
            None => !has_id(entities@, id),
        },
{
    let n = entities.len();
    let mut k: usize = 0;
    while k < n
        invariant
            0 <= k <= n,
            n == entities@.len(),
            forall|j: int| 0 <= j < k ==> (#[trigger] entities@[j]).id != id,
        decreases n - k,
    {
        if entities[k].id == id {
            return Some(k);
        }
        k = k + 1;
    }
    None
}

/// Pointwise component updates keep the pool well-formed, provided they
/// leave identifiers and ghost tags alone and keep each entity well-formed.
pub proof fn lemma_pool_wf_update(s: Seq<Entity>, s2: Seq<Entity>, next: int)
    requires
        pool_wf(s, next),
        s2.len() == s.len(),
        forall|i: int| 0 <= i < s.len() ==> (#[trigger] s2[i]).id == s[i].id,
        forall|i: int| 0 <= i < s.len() ==> entity_wf(#[trigger] s2[i]),
        forall|i: int|
            0 <= i < s.len() ==> ((#[trigger] s2[i]).ghost_tag is Some <==> s[i].ghost_tag is Some),
        forall|i: int|
            0 <= i < s.len() && (#[trigger] s2[i]).ghost_tag is Some ==> s2[i].ghost_tag->Some_0.target
                == s[i].ghost_tag->Some_0.target,
    ensures
        pool_wf(s2, next),
{
}

/// In a pool with unique identifiers, the entity at a known index is the only
/// one with its identifier.
pub proof fn lemma_id_unique_at(s: Seq<Entity>, k: int, id: u64)
    requires
        ids_unique(s),
        0 <= k < s.len(),
        s[k].id == id,
    ensures
        forall|i: int| 0 <= i < s.len() && i != k ==> (#[trigger] s[i]).id != id,
{
    assert forall|i: int| 0 <= i < s.len() && i != k implies (#[trigger] s[i]).id != id by {
        if i < k {
            assert(s[i].id != s[k].id);
        } else {
            assert(s[k].id != s[i].id);
        }
    }
}

/// Filtering the pool keeps it well-formed: the kept entities are a
/// subsequence, so uniqueness, bounds and ghost-target facts carry over.
pub proof fn filter_preserves_pool_wf(s: Seq<Entity>, pred: spec_fn(Entity) -> bool, next: int)
    requires
        pool_wf(s, next),
    ensures
        pool_wf(s.filter(pred), next),
        forall|e: Entity| s.filter(pred).contains(e) ==> s.contains(e),
    decreases s.len(),
{
    reveal_with_fuel(Seq::filter, 2);
    if s.len() > 0 {
        let prefix = s.drop_last();
        assert(pool_wf(prefix, next)) by {
            assert(forall|i: int| 0 <= i < prefix.len() ==> prefix[i] == s[i]);
        }
        filter_preserves_pool_wf(prefix, pred, next);
        let f = s.filter(pred);
        let fp = prefix.filter(pred);
        if pred(s.last()) {
            assert(f == fp.push(s.last()));
            assert forall|e: Entity| f.contains(e) implies s.contains(e) by {
                if e == s.last() {
                    assert(s[s.len() - 1] == e);
                } else {
                    assert(fp.contains(e));
                    assert(prefix.contains(e));
                    let i = choose|i: int| 0 <= i < prefix.len() && prefix[i] == e;
                    assert(s[i] == e);
                }
            }
            assert(ids_unique(f)) by {
                assert forall|i: int, j: int| 0 <= i < j < f.len() implies f[i].id != f[j].id by {
                    if j < f.len() - 1 {
                        assert(fp[i].id != fp[j].id);
                    } else {
                        assert(f[i] == fp[i]);
                        assert(fp.contains(fp[i]));
                        assert(prefix.contains(fp[i]));
                        let x = choose|x: int| 0 <= x < prefix.len() && prefix[x] == fp[i];
                        assert(s[x].id != s[s.len() - 1].id);
                    }
                }
            }
            assert(ids_below(f, next)) by {
                assert forall|i: int| 0 <= i < f.len() implies f[i].id < next by {
                    assert(s.contains(f[i]));
                    let x = choose|x: int| 0 <= x < s.len() && s[x] == f[i];
                }
            }
            assert(forall|i: int| 0 <= i < f.len() ==> entity_wf(#[trigger] f[i])) by {
                assert forall|i: int| 0 <= i < f.len() implies entity_wf(#[trigger] f[i]) by {
                    assert(s.contains(f[i]));
                    let x = choose|x: int| 0 <= x < s.len() && s[x] == f[i];
                }
            }
            assert(ghost_targets_nonghost(f)) by {
                assert forall|i: int, j: int|
                    0 <= i < f.len() && 0 <= j < f.len() && f[i].ghost_tag is Some && f[j].id == f[i].ghost_tag->Some_0.target
                    implies f[j].ghost_tag is None by {
                    assert(s.contains(f[i]));
                    assert(s.contains(f[j]));
                    let x = choose|x: int| 0 <= x < s.len() && s[x] == f[i];
                    let y = choose|y: int| 0 <= y < s.len() && s[y] == f[j];
                }
            }
        } else {
            assert(f == fp);
            assert forall|e: Entity| f.contains(e) implies s.contains(e) by {
                assert(prefix.contains(e));
                let i = choose|i: int| 0 <= i < prefix.len() && prefix[i] == e;
                assert(s[i] == e);
            }
        }
    } else {
        assert(s.filter(pred) =~= Seq::<Entity>::empty());
    }
}

} // verus!

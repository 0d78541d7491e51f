//! Simulation core of a single-screen arcade game.
//!
//! Two cooperating subsystems run once per simulation tick over a shared pool
//! of positioned entities:
//!
//! - the collision engine: bitmask-filtered pairwise overlap testing between
//!   circle and axis-aligned-rectangle colliders, producing overlap
//!   notifications;
//! - the wrap engine: a bounded rectangular play-field behaves as a seamless
//!   toroidal surface; entities flagged as wrapping keep up to three mirror
//!   ("ghost") entities near the play-field edges, teleport across edges once
//!   fully crossed, and tear their ghosts down once no longer needed.
//!
//! World coordinates are plain `i64` values in caller-chosen fixed-point
//! units, bounded by [`MAX_COORD`] so that every squared-distance computation
//! fits in `i64`.

use vstd::prelude::*;

pub mod collision;
pub mod geom;
pub mod rules;
pub mod score;
pub mod world;
pub mod wrap;

pub use crate::collision::{
    event_of, pair_fires, Collider2D, CollisionEvent, CollisionLayer, CollisionMask,
    CollisionPlugin, Shape2D,
};
pub use crate::geom::{Area, Vec2};
pub use crate::rules::{PlayerLifes, PLAYER_LIFES_MAX};
pub use crate::score::{
    Score, SCORE_BIG_ASTEROID, SCORE_SAUCER, SCORE_SMALL_ASTEROID, SCORE_TINY_ASTEROID,
};
pub use crate::world::{Entity, World};
pub use crate::wrap::{
    wrap_tick_spec, GhostTag, MirrorAxis, NoWrapProtection, Wrap, WrapCamera, WrapPlugin, Wrapped,
};

verus! {

/// Layer bit for entities that are the player ship.
pub const PLAYER: u8 = 0b00000001;

/// Layer bit for obstacles (asteroids, saucers).
pub const OBSTACLE: u8 = 0b00000010;

/// Layer bit for ammunition.
pub const AMMO: u8 = 0b00000100;

/// The whole simulation core. [`AsteroidsGamePlugins::tick`] runs both
/// engines once, in their control-flow order.
pub struct AsteroidsGamePlugins;

impl AsteroidsGamePlugins {
    /// One simulation tick: the wrap engine teleports, maintains ghosts and
    /// despawns as its steps dictate; then the collision engine scans the
    /// resulting pool (ghosts included) and returns this tick's overlap
    /// notifications.
    pub fn tick(world: &mut World, elapsed: u64) -> (events: Vec<CollisionEvent>)
        requires
            old(world).wf(),
            old(world).next_id + 3 * old(world).entities@.len() <= u64::MAX,
        ensures
            final(world).wf(),
            final(world).entities@ == wrap_tick_spec(
                old(world).entities@,
                old(world).next_id as int,
                elapsed,
            ).0,
            final(world).next_id as int == wrap_tick_spec(
                old(world).entities@,
                old(world).next_id as int,
                elapsed,
            ).1,
            forall|i: int, j: int|
                #[trigger] pair_fires(final(world).entities@, i, j) ==> events@.contains(
                    event_of(final(world).entities@, i, j),
                ),
            forall|e: CollisionEvent|
                #[trigger] events@.contains(e) ==> exists|i: int, j: int|
                    pair_fires(final(world).entities@, i, j) && e == event_of(
                        final(world).entities@,
                        i,
                        j,
                    ),
    {
        WrapPlugin::tick(world, elapsed);
        CollisionPlugin::transform_based_check(world)
    }
}

} // verus!

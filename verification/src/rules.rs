//! Game-rule bookkeeping shared with external collaborators.

use vstd::prelude::*;

verus! {

/// Number of lives a player starts with.
pub const PLAYER_LIFES_MAX: u8 = 3;

/// Remaining player lives.
#[derive(Debug, Copy, Clone, PartialEq, Eq, Structural)]
pub struct PlayerLifes(pub u8);

impl Default for PlayerLifes {
    /// A fresh player starts with [`PLAYER_LIFES_MAX`] lives.
    fn default() -> (r: PlayerLifes)
        ensures
            r.0 == PLAYER_LIFES_MAX,
    {
        PlayerLifes(PLAYER_LIFES_MAX)
    }
}

} // verus!

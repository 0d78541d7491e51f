//! Score keeping: a running score and the best score reached so far.

use vstd::prelude::*;

verus! {

/// Points awarded for destroying a big asteroid.
pub const SCORE_BIG_ASTEROID: u16 = 5;

/// Points awarded for destroying a small asteroid.
pub const SCORE_SMALL_ASTEROID: u16 = 10;

/// Points awarded for destroying a tiny asteroid.
pub const SCORE_TINY_ASTEROID: u16 = 15;

/// Points awarded for destroying a saucer.
pub const SCORE_SAUCER: u16 = 100;

/// The current score together with the highest score reached so far.
#[derive(Debug, Copy, Clone, PartialEq, Eq, Structural)]
pub struct Score {
    pub current: u16,
    pub highest: u16,
}

impl Default for Score {
    /// A fresh score: both counters at zero.
    fn default() -> (r: Score)
        ensures
            r.current == 0,
            r.highest == 0,
    {
        Score { current: 0, highest: 0 }
    }
}

impl Score {
    /// Adds `increment` points; the highest score follows the current one
    /// upward. Returns whether a new highest score was just set.
    pub fn add(&mut self, increment: u16) -> (r: bool)
        requires
            old(self).current + increment <= u16::MAX,
        ensures
            final(self).current == old(self).current + increment,
            final(self).highest == if final(self).current > old(self).highest {
                final(self).current
            } else {
                old(self).highest
            },
            r == (final(self).current > old(self).highest),
    {
        self.current += increment;
        if self.current > self.highest {
            self.highest = self.current;
            true
        } else {
            false
        }
    }

    /// Whether the current score equals the highest score reached.
    pub fn is_highest(&self) -> (r: bool)
        ensures
            r == (self.current == self.highest),
    {
        self.current == self.highest
    }
}

} // verus!

//! The local route-table generation counter.
//!
//! A single unsigned 32-bit counter, bumped on every material table change
//! and used only for equality-based reply suppression, so wraparound after
//! 2^32 increments is accepted.

use vstd::prelude::*;

verus! {

/// `v + 1` with wraparound at the top of the 32-bit range.
pub open spec fn wrap_inc(v: u32) -> u32 {
    if v == u32::MAX {
        0
    } else {
        (v + 1) as u32
    }
}

/// The route-table generation counter.
pub struct RouteVersion {
    v: u32,
}

impl View for RouteVersion {
    type V = u32;

    closed spec fn view(&self) -> u32 {
        self.v
    }
}

impl RouteVersion {
    /// A counter starting at zero.
    pub fn new() -> (r: Self)
        ensures
            r@ == 0,
    {
        RouteVersion { v: 0 }
    }

    /// The current generation.
    pub fn get(&self) -> (r: u32)
        ensures
            r == self@,
    {
        self.v
    }

    /// Bumps the generation, wrapping at the top of the range.
    pub fn inc(&mut self)
        ensures
            final(self)@ == wrap_inc(old(self)@),
    {
        if self.v == u32::MAX {
            self.v = 0;
        } else {
            self.v = self.v + 1;
        }
    }
}

} // verus!

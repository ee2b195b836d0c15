//! Deterministic pseudo-random source.
//!
//! A xorshift generator with a 128-bit state and a 32-bit output.  Every
//! simulation is seeded with the same fixed four-word seed, so two simulations
//! built with the same parameters draw the same sequence of values and follow
//! the same trajectory.

use vstd::prelude::*;

verus! {

/// Xorshift generator state: four 32-bit words.
#[derive(Clone, Copy, PartialEq, Eq, Structural, Debug)]
pub struct XorShift {
    pub x: u32,
    pub y: u32,
    pub z: u32,
    pub w: u32,
}

/// The state every generator starts from.
pub open spec fn seeded() -> XorShift {
    XorShift { x: 1, y: 2, z: 3, w: 4 }
}

/// One step of the xorshift recurrence.  The output of the step is the `w`
/// word of the new state.
pub open spec fn spec_step(s: XorShift) -> XorShift {
    let t = s.x ^ (s.x << 11u32);
    XorShift { x: s.y, y: s.z, z: s.w, w: s.w ^ (s.w >> 19u32) ^ t ^ (t >> 8u32) }
}

impl XorShift {
    /// A generator in the fixed seed state.
    pub fn new_seeded() -> (r: XorShift)
        ensures
            r == seeded(),
    {
        XorShift { x: 1, y: 2, z: 3, w: 4 }
    }

    /// Advance the state one step and return the fresh 32-bit word.
    pub fn step(&mut self) -> (r: u32)
        ensures
            *final(self) == spec_step(*old(self)),
            r == spec_step(*old(self)).w,
    {
        let t = self.x ^ (self.x << 11u32);
        let w0 = self.w;
        self.x = self.y;
        self.y = self.z;
        self.z = w0;
        self.w = w0 ^ (w0 >> 19u32) ^ t ^ (t >> 8u32);
        self.w
    }
}

} // verus!

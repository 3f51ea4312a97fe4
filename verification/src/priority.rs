//! View-dependent priorities of quadtree nodes.

use vstd::prelude::*;

verus! {

/// The bit pattern of the single-precision number one.
pub const CUTOFF_BITS: u32 = 0x3f80_0000;

/// The bit pattern of the largest finite single-precision number.
pub const LARGEST_BITS: u32 = 0x7f7f_ffff;

/// How urgently a node needs its data: higher means "needs finer resolution
/// now".
///
/// A priority is the ratio of a node's squared minimum viewing distance to
/// its squared distance from the camera, a finite number that is never
/// negative. It is held as the bit pattern of that number in single
/// precision: among such patterns the larger pattern is the larger number,
/// so priorities compare as unsigned integers.
#[derive(Copy, Clone, Debug, PartialEq, Eq, PartialOrd, Ord, Hash, Structural)]
pub struct Priority(pub u32);

impl Priority {
    /// The place of this priority in the order of priorities.
    pub open spec fn rank(self) -> int {
        self.0 as int
    }

    /// Whether the pattern stands for a finite number that is not negative.
    pub open spec fn valid(self) -> bool {
        self.0 <= LARGEST_BITS
    }

    /// The least priority at which a node's data is worth keeping resident:
    /// the ratio one.
    pub fn cutoff() -> (p: Priority)
        ensures
            p == Priority(CUTOFF_BITS),
            p.valid(),
    {
        Priority(CUTOFF_BITS)
    }

    /// The lowest priority of all: the ratio zero.
    pub fn none() -> (p: Priority)
        ensures
            p == Priority(0),
            p.valid(),
    {
        Priority(0)
    }

    /// The priority with the given bit pattern, where the pattern stands for
    /// a finite number that is not negative.
    pub fn from_bits(bits: u32) -> (p: Option<Priority>)
        ensures
            p == (if bits <= LARGEST_BITS {
                Some(Priority(bits))
            } else {
                None
            }),
    {
        if bits <= LARGEST_BITS {
            Some(Priority(bits))
        } else {
            None
        }
    }

    /// The bit pattern of this priority.
    pub fn to_bits(self) -> (bits: u32)
        ensures
            bits == self.0,
    {
        self.0
    }

    /// Whether this priority is at least `other`.
    pub fn at_least(self, other: Priority) -> (r: bool)
        ensures
            r == (self.rank() >= other.rank()),
    {
        self.0 >= other.0
    }
}

} // verus!

//! Volumes and gains.

use vstd::prelude::*;

verus! {

/// A volume or a gain: a single precision number, by its IEEE 754 bits.
#[derive(Debug, Clone, Copy)]
pub struct Level {
    pub bits: u32,
}

/// The bits of `1`.
pub const UNITY_BITS: u32 = 0x3f80_0000;

/// The bits of `2`, the loudest a clip is played.
pub const CLIP_MAX_BITS: u32 = 0x4000_0000;

/// The bits of one and a half, the loudest a node is set.
pub const NODE_MAX_BITS: u32 = 0x3fc0_0000;

/// The bits of the positive infinity; a larger magnitude is no number.
pub const INFINITY_BITS: u32 = 0x7f80_0000;

impl Level {
    /// The bits without the sign.
    pub open spec fn magnitude(self) -> int {
        if self.bits >= 0x8000_0000 {
            self.bits - 0x8000_0000
        } else {
            self.bits as int
        }
    }

    pub open spec fn is_nan(self) -> bool {
        self.magnitude() > INFINITY_BITS
    }

    /// A rank by which levels that are numbers are ordered as the numbers are;
    /// both zeros have rank 0.
    pub open spec fn rank(self) -> int {
        if self.bits >= 0x8000_0000 {
            -self.magnitude()
        } else {
            self.magnitude()
        }
    }

    /// The levels are numbers, and the same one.
    pub open spec fn equals(self, other: Level) -> bool {
        !self.is_nan() && !other.is_nan() && self.rank() == other.rank()
    }

    /// The level held between zero and `max`: a smaller one becomes zero, a
    /// larger one `max`. What is no number stays.
    pub open spec fn held(self, max: Level) -> Level {
        if self.is_nan() {
            self
        } else if self.rank() < 0 {
            Level { bits: 0 }
        } else if self.rank() > max.rank() {
            max
        } else {
            self
        }
    }

    pub fn unity() -> (r: Level)
        ensures
            r.bits == UNITY_BITS,
    {
        Level { bits: UNITY_BITS }
    }

    /// Whether two levels are the same number.
    pub fn same(self, other: Level) -> (r: bool)
        ensures
            r == self.equals(other),
    {
        let a: u32 = if self.bits >= 0x8000_0000 {
            self.bits - 0x8000_0000
        } else {
            self.bits
        };
        let b: u32 = if other.bits >= 0x8000_0000 {
            other.bits - 0x8000_0000
        } else {
            other.bits
        };
        a <= INFINITY_BITS && b <= INFINITY_BITS && (self.bits == other.bits || (a == 0 && b == 0))
    }

    /// Holds the level between zero and `max`.
    pub fn hold(self, max: Level) -> (r: Level)
        requires
            max.rank() >= 0,
            !max.is_nan(),
        ensures
            r == self.held(max),
    {
        if self.bits >= 0x8000_0000 {
            let m: u32 = self.bits - 0x8000_0000;
            if m > INFINITY_BITS || m == 0 {
                self
            } else {
                Level { bits: 0 }
            }
        } else if self.bits > INFINITY_BITS {
            self
        } else if max.bits < 0x8000_0000 && self.bits > max.bits {
            max
        } else if max.bits >= 0x8000_0000 && self.bits > 0 {
            max
        } else {
            self
        }
    }

    /// The level at which a clip is played or kept: between zero and two.
    pub fn for_clip(self) -> (r: Level)
        ensures
            r == self.held(Level { bits: CLIP_MAX_BITS }),
    {
        self.hold(Level { bits: CLIP_MAX_BITS })
    }
}

impl Level {
    /// The level at which a node is set: between zero and one and a half.
    pub fn for_node(self) -> (r: Level)
        ensures
            r == self.held(Level { bits: NODE_MAX_BITS }),
    {
        self.hold(Level { bits: NODE_MAX_BITS })
    }
}

/// A held level is no number, or lies between zero and the bound; and holding
/// it again changes nothing.
pub proof fn held_is_bounded(l: Level, max: Level)
    requires
        max.rank() >= 0,
        !max.is_nan(),
    ensures
        l.held(max).is_nan() == l.is_nan(),
        !l.is_nan() ==> 0 <= l.held(max).rank() <= max.rank(),
        l.held(max).held(max) == l.held(max),
{
}

/// The bits are ordered as the numbers are: without a sign the rank is the bits, with
/// a sign it is turned round, and what lies beyond the infinities is no number.
pub proof fn ranks_follow_the_bits(b: u32, l: Level)
    requires
        b < 0x8000_0000,
    ensures
        (Level { bits: b }).rank() == b,
        (Level { bits: (b + 0x8000_0000) as u32 }).rank() == -(b as int),
        (Level { bits: b }).is_nan() <==> b > 0x7f80_0000,
        (Level { bits: (b + 0x8000_0000) as u32 }).is_nan() <==> b > 0x7f80_0000,
        l.equals(Level { bits: b }) ==> l.bits == b || b == 0 && l.bits == 0x8000_0000,
        b <= 0x7f80_0000 ==> (Level { bits: b }).equals(Level { bits: b }),
        (Level { bits: 0 }).equals(Level { bits: 0x8000_0000 }),
{
}

/// A level between zero and the bound is held as it is, one above as the bound and one
/// below as zero; what is no number stays.
pub proof fn levels_are_held(l: Level, max: Level)
    requires
        max.rank() >= 0,
        !max.is_nan(),
    ensures
        !l.is_nan() && 0 <= l.rank() <= max.rank() ==> l.held(max) == l,
        !l.is_nan() && l.rank() > max.rank() ==> l.held(max) == max,
        !l.is_nan() && l.rank() < 0 ==> l.held(max).bits == 0,
        l.is_nan() ==> l.held(max) == l,
{
}

/// The levels that are named, by their bits: one has the exponent 127 and no fraction,
/// two the next exponent, and one and a half the first bit of the fraction.
pub proof fn named_levels()
    ensures
        UNITY_BITS == 127 * 0x80_0000,
        CLIP_MAX_BITS == 128 * 0x80_0000,
        NODE_MAX_BITS == 127 * 0x80_0000 + 0x40_0000,
        INFINITY_BITS == 255 * 0x80_0000,
{
}

} // verus!

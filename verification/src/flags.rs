//! Rendering flags of a scene node: a set of bits telling which of the
//! later stages (layout, paint) a node has to go through.
use vstd::prelude::*;

verus! {

/// The bit of the no-op flag.
pub const NOOP_BIT: u32 = 1;
/// The bit asking for a layout pass.
pub const NEEDS_LAYOUT_BIT: u32 = 2;
/// The bit asking for a repaint.
pub const NEEDS_PAINT_BIT: u32 = 4;

/// A set of rendering flags, held as the bits of a `u32`.
#[derive(Clone, Copy, Debug, PartialEq, Eq, Structural)]
pub struct RenderableFlags {
    pub bits: u32,
}

impl RenderableFlags {
    /// The empty set.
    pub fn empty() -> (r: RenderableFlags)
        ensures
            r.bits == 0,
    {
        RenderableFlags { bits: 0 }
    }

    /// The set holding only the no-op flag.
    pub fn noop() -> (r: RenderableFlags)
        ensures
            r.bits == NOOP_BIT,
    {
        RenderableFlags { bits: NOOP_BIT }
    }

    /// The set holding only the layout flag.
    pub fn needs_layout() -> (r: RenderableFlags)
        ensures
            r.bits == NEEDS_LAYOUT_BIT,
    {
        RenderableFlags { bits: NEEDS_LAYOUT_BIT }
    }

    /// The set holding only the paint flag.
    pub fn needs_paint() -> (r: RenderableFlags)
        ensures
            r.bits == NEEDS_PAINT_BIT,
    {
        RenderableFlags { bits: NEEDS_PAINT_BIT }
    }

    /// Whether every flag of `other` is in this set.
    pub open spec fn spec_contains(self, other: RenderableFlags) -> bool {
        self.bits & other.bits == other.bits
    }

    /// The union of two sets.
    pub fn union(self, other: RenderableFlags) -> (r: RenderableFlags)
        ensures
            r.bits == self.bits | other.bits,
    {
        RenderableFlags { bits: self.bits | other.bits }
    }

    /// Whether every flag of `other` is in this set.
    pub fn contains(&self, other: RenderableFlags) -> (r: bool)
        ensures
            r == self.spec_contains(other),
    {
        self.bits & other.bits == other.bits
    }

    /// Adds the flags of `other` to this set.
    pub fn insert(&mut self, other: RenderableFlags)
        ensures
            final(self).bits == old(self).bits | other.bits,
    {
        self.bits = self.bits | other.bits;
    }

    /// Removes the flags of `other` from this set.
    pub fn remove(&mut self, other: RenderableFlags)
        ensures
            final(self).bits == old(self).bits & !other.bits,
    {
        self.bits = self.bits & !other.bits;
    }

    /// Adds the flags of `other` when `value` holds, removes them otherwise.
    pub fn set(&mut self, other: RenderableFlags, value: bool)
        ensures
            value ==> final(self).bits == old(self).bits | other.bits,
            !value ==> final(self).bits == old(self).bits & !other.bits,
    {
        if value {
            self.insert(other);
        } else {
            self.remove(other);
        }
    }
}

/// After `insert`, the set contains what was inserted, and every flag it held before.
pub proof fn law_insert_contains(a: u32, b: u32, c: u32)
    ensures
        (a | b) & b == b,
        a & c == c ==> (a | b) & c == c,
{
    assert((a | b) & b == b) by (bit_vector);
    assert(a & c == c ==> (a | b) & c == c) by (bit_vector);
}

/// After `remove` of a single non-zero bit, the set no longer contains it, and
/// the flags on other bits are unchanged.
pub proof fn law_remove_contains(a: u32, b: u32, c: u32)
    ensures
        b != 0 ==> (a & !b) & b != b,
        b & c == 0 ==> ((a & !b) & c == c <==> a & c == c),
{
    assert(b != 0 ==> (a & !b) & b != b) by (bit_vector);
    assert(b & c == 0 ==> ((a & !b) & c == c <==> a & c == c)) by (bit_vector);
}

} // verus!

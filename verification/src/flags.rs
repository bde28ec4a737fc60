use vstd::prelude::*;

verus! {

/// Bit 0: the node holds authoritative state, or is being re-evaluated.
pub const MUTABLE: u8 = 0b0000_0001;

/// Bit 1: the node is an effect that may be notified and flushed.
pub const WATCHING: u8 = 0b0000_0010;

/// Bit 2: the node's own body is on the stack.
pub const RECURSED_CHECK: u8 = 0b0000_0100;

/// Bit 3: marks a node that executes and was reached by a marking once
/// more. No operation leaves it set on a node of a consistent graph.
pub const RECURSED: u8 = 0b0000_1000;

/// Bit 4: the node is known to be stale and must be recomputed.
pub const DIRTY: u8 = 0b0001_0000;

/// Bit 5: the node may be stale; its dependencies decide.
pub const PENDING: u8 = 0b0010_0000;

/// The bits that make a subscriber unfit for a plain pending mark.
pub const BUSY: u8 = 0b0011_1100;

/// Per-node state, one byte wide.
#[derive(Clone, Copy, Debug, PartialEq, Eq, Structural)]
pub struct ReactiveFlags(pub u8);

impl ReactiveFlags {
    /// Every bit of `other` is set.
    pub open spec fn spec_contains(&self, other: ReactiveFlags) -> bool {
        self.0 & other.0 == other.0
    }

    /// Some bit of `other` is set.
    pub open spec fn spec_intersects(&self, other: ReactiveFlags) -> bool {
        self.0 & other.0 != 0
    }

    /// The bits of both.
    pub open spec fn spec_union(self, other: ReactiveFlags) -> ReactiveFlags {
        ReactiveFlags(self.0 | other.0)
    }

    /// The bits of `self` that are not bits of `other`.
    pub open spec fn spec_without(self, other: ReactiveFlags) -> ReactiveFlags {
        ReactiveFlags(self.0 & !other.0)
    }

    /// The flags carry the given bit pattern in full.
    pub open spec fn has(self, bits: u8) -> bool {
        self.0 & bits == bits
    }

    /// The flags carry at least one bit of the pattern.
    pub open spec fn any(self, bits: u8) -> bool {
        self.0 & bits != 0
    }

    /// No bit.
    pub fn none() -> (r: ReactiveFlags)
        ensures
            r.0 == 0,
    {
        ReactiveFlags(0)
    }

    /// The `MUTABLE` bit alone.
    pub fn mutable() -> (r: ReactiveFlags)
        ensures
            r.0 == MUTABLE,
    {
        ReactiveFlags(MUTABLE)
    }

    /// The `WATCHING` bit alone.
    pub fn watching() -> (r: ReactiveFlags)
        ensures
            r.0 == WATCHING,
    {
        ReactiveFlags(WATCHING)
    }

    /// The `RECURSED_CHECK` bit alone.
    pub fn recursed_check() -> (r: ReactiveFlags)
        ensures
            r.0 == RECURSED_CHECK,
    {
        ReactiveFlags(RECURSED_CHECK)
    }

    /// The `RECURSED` bit alone.
    pub fn recursed() -> (r: ReactiveFlags)
        ensures
            r.0 == RECURSED,
    {
        ReactiveFlags(RECURSED)
    }

    /// The `DIRTY` bit alone.
    pub fn dirty() -> (r: ReactiveFlags)
        ensures
            r.0 == DIRTY,
    {
        ReactiveFlags(DIRTY)
    }

    /// The `PENDING` bit alone.
    pub fn pending() -> (r: ReactiveFlags)
        ensures
            r.0 == PENDING,
    {
        ReactiveFlags(PENDING)
    }

    /// Clears every bit of `other`.
    pub fn remove(&mut self, other: ReactiveFlags)
        ensures
            *final(self) == old(self).spec_without(other),
    {
        self.0 = self.0 & !other.0;
    }

    /// Every bit of `other` is set.
    #[verifier::when_used_as_spec(spec_contains)]
    pub fn contains(&self, other: ReactiveFlags) -> (r: bool)
        ensures
            r == self.spec_contains(other),
    {
        (self.0 & other.0) == other.0
    }

    /// Some bit of `other` is set.
    #[verifier::when_used_as_spec(spec_intersects)]
    pub fn intersects(&self, other: ReactiveFlags) -> (r: bool)
        ensures
            r == self.spec_intersects(other),
    {
        (self.0 & other.0) != 0
    }

    /// No bit is set.
    pub fn is_empty(&self) -> (r: bool)
        ensures
            r == (self.0 == 0),
    {
        self.0 == 0
    }

    /// Bitwise or.
    #[verifier::when_used_as_spec(spec_union)]
    pub fn union(self, other: ReactiveFlags) -> (r: ReactiveFlags)
        ensures
            r == self.spec_union(other),
    {
        ReactiveFlags(self.0 | other.0)
    }

    /// Bitwise and.
    pub fn intersection(self, other: ReactiveFlags) -> (r: ReactiveFlags)
        ensures
            r.0 == self.0 & other.0,
    {
        ReactiveFlags(self.0 & other.0)
    }

    /// Bitwise not.
    pub fn complement(self) -> (r: ReactiveFlags)
        ensures
            r.0 == !self.0,
    {
        ReactiveFlags(!self.0)
    }

    /// The same bits are set in both.
    pub fn same(&self, other: &ReactiveFlags) -> (r: bool)
        ensures
            r == (*self == *other),
    {
        self.0 == other.0
    }
}

/// What the flag patterns that the engine writes hold: none of them carries
/// the reserved bit, and watching and dirty are apart.
pub proof fn lemma_patterns()
    ensures
        0u8 & RECURSED == 0,
        MUTABLE & RECURSED == 0,
        WATCHING & RECURSED == 0,
        (MUTABLE | DIRTY) & RECURSED == 0,
        (MUTABLE | RECURSED_CHECK) & RECURSED == 0,
        (WATCHING | RECURSED_CHECK) & RECURSED == 0,
        WATCHING & DIRTY == 0,
        MUTABLE & BUSY == 0,
        (MUTABLE | DIRTY) & MUTABLE == MUTABLE,
        PENDING | DIRTY == 48,
        RECURSED_CHECK | RECURSED == 12,
        RECURSED_CHECK | RECURSED | DIRTY | PENDING == 60,
        MUTABLE | DIRTY == 17,
{
    assert(0u8 & 8 == 0 && 1u8 & 8 == 0 && 2u8 & 8 == 0 && (1u8 | 16) & 8 == 0 && (1u8 | 4) & 8
        == 0 && (2u8 | 4) & 8 == 0 && 2u8 & 16 == 0 && 1u8 & 60 == 0 && (1u8 | 16) & 1 == 1
        && 32u8 | 16 == 48 && 4u8 | 8 == 12 && 4u8 | 8 | 16 | 32 == 60 && 1u8 | 16 == 17)
        by (bit_vector);
}

/// Setting bits sets them, and leaves every bit outside them as it was.
pub proof fn lemma_set_bits(f: u8, add: u8, probe: u8)
    ensures
        (f | add) & add == add,
        probe & add == 0 ==> (f | add) & probe == f & probe,
{
    assert((f | add) & add == add && (probe & add == 0 ==> (f | add) & probe == f & probe))
        by (bit_vector);
}

/// What setting the dirty bit does to the marks that propagation reads.
pub proof fn lemma_mark_dirty(f: u8)
    ensures
        f & RECURSED == 0 ==> (f | DIRTY) & RECURSED == 0,
        (f | DIRTY) & (PENDING | DIRTY) != PENDING,
        (f | DIRTY) | DIRTY == f | DIRTY,
        (f | DIRTY) & BUSY != 0,
{
    lemma_patterns();
    assert((f & 8 == 0 ==> (f | 16) & 8 == 0) && (f | 16) & 48 != 32 && (f | 16) | 16 == f | 16
        && (f | 16) & 60 != 0) by (bit_vector);
}

/// What setting the pending bit does to the marks that propagation reads.
pub proof fn lemma_mark_pending(f: u8)
    ensures
        f & RECURSED == 0 ==> (f | PENDING) & RECURSED == 0,
        (f | PENDING) & BUSY != 0,
        (f | PENDING) & MUTABLE == f & MUTABLE,
        (f | PENDING) & WATCHING == f & WATCHING,
        f & BUSY == 0 ==> f & RECURSED == 0 && f & (RECURSED_CHECK | RECURSED) != (RECURSED_CHECK
            | RECURSED),
        f & RECURSED == 0 ==> f & (RECURSED_CHECK | RECURSED) != (RECURSED_CHECK | RECURSED),
        (f & (RECURSED_CHECK | RECURSED | DIRTY | PENDING) != 0) <==> f & BUSY != 0,
        f & RECURSED_CHECK == RECURSED_CHECK ==> f & BUSY != 0,
{
    lemma_patterns();
    assert((f & 8 == 0 ==> (f | 32) & 8 == 0) && (f | 32) & 60 != 0 && (f | 32) & 1 == f & 1 && (f
        | 32) & 2 == f & 2 && (f & 60 == 0 ==> f & 8 == 0 && f & 12 != 12) && (f & 8 == 0 ==> f
        & 12 != 12) && (f & 4 == 4 ==> f & 60 != 0)) by (bit_vector);
}

/// Clearing bits never sets the reserved bit, and clearing the executing bit
/// leaves a mutable node mutable.
pub proof fn lemma_clear_keeps(f: u8, del: u8)
    ensures
        f & RECURSED == 0 ==> (f & !del) & RECURSED == 0,
        f & MUTABLE == MUTABLE ==> (f & !RECURSED_CHECK) & MUTABLE == MUTABLE,
{
    assert((f & 8 == 0 ==> (f & !del) & 8 == 0) && (f & 1 == 1 ==> (f & !4u8) & 1 == 1))
        by (bit_vector);
}

/// The empty flags carry no bit.
pub proof fn lemma_empty_flags()
    ensures
        0u8 & MUTABLE != MUTABLE,
        0u8 & WATCHING != WATCHING,
        0u8 & DIRTY != DIRTY,
        0u8 & PENDING != PENDING,
        0u8 & RECURSED == 0,
        0u8 & BUSY == 0,
{
    assert(0u8 & 1 != 1 && 0u8 & 2 != 2 && 0u8 & 16 != 16 && 0u8 & 32 != 32 && 0u8 & 8 == 0 && 0u8
        & 60 == 0) by (bit_vector);
}

/// What tearing down may do to the flags of a node that stays: clear bits,
/// and mark a mutable node dirty.
pub open spec fn demoted_bits(now: u8, was: u8) -> bool {
    &&& (now & !was) & !DIRTY == 0
    &&& ((now & !was) & DIRTY != 0 ==> was & MUTABLE == MUTABLE)
}

/// Demotion holds of equal flags, of the empty flags, of flags with bits
/// cleared and of a mutable node marked dirty; it carries over two steps; and
/// it never sets the executing bit.
pub proof fn lemma_demoted(now: u8, mid: u8, was: u8, del: u8)
    ensures
        demoted_bits(was, was),
        demoted_bits(0, was),
        demoted_bits(was & !del, was),
        was & MUTABLE == MUTABLE ==> demoted_bits(MUTABLE | DIRTY, was),
        demoted_bits(now, mid) && demoted_bits(mid, was) ==> demoted_bits(now, was),
        demoted_bits(now, 0) ==> now == 0,
        demoted_bits(now, mid) && mid & RECURSED_CHECK == 0 ==> now & RECURSED_CHECK == 0,
        (was & !RECURSED_CHECK) & RECURSED_CHECK == 0,
{
    lemma_patterns();
    assert((was & !was) & !16u8 == 0 && (was & !was) & 16u8 == 0 && (0u8 & !was) & !16u8 == 0 && (
    0u8 & !was) & 16u8 == 0 && ((was & !del) & !was) & !16u8 == 0 && ((was & !del) & !was) & 16u8
        == 0 && ((17u8 & !was) & !16u8 == 0 || was & 1 != 1)) by (bit_vector);
    assert(((now & !mid) & !16u8 == 0 && ((now & !mid) & 16u8 != 0 ==> mid & 1 == 1) && (mid
        & !was) & !16u8 == 0 && ((mid & !was) & 16u8 != 0 ==> was & 1 == 1)) ==> ((now & !was)
        & !16u8 == 0 && ((now & !was) & 16u8 != 0 ==> was & 1 == 1))) by (bit_vector);
    assert((((now & !0u8) & !16u8 == 0 && ((now & !0u8) & 16u8 != 0 ==> 0u8 & 1 == 1)) ==> now
        == 0) && (((now & !mid) & !16u8 == 0 && mid & 4 == 0) ==> now & 4 == 0) && (was & !4u8) & 4
        == 0) by (bit_vector);
}

} // verus!

//! Trusted interface to `fixedbitset`.
//!
//! The traversals in this library mark visited nodes in a
//! `fixedbitset::FixedBitSet`. The type is opaque to the verifier, so its
//! contents and capacity are named by uninterpreted spec functions, and each
//! method the library calls is wrapped with a contract matching what the
//! crate's source does.

use vstd::prelude::*;

verus! {

#[verifier::external_type_specification]
#[verifier::external_body]
pub struct ExFixedBitSet(fixedbitset::FixedBitSet);

/// The set of enabled bit indices of a `FixedBitSet`.
pub uninterp spec fn bitset_bits(s: fixedbitset::FixedBitSet) -> Set<int>;

/// The number of bits the `FixedBitSet` was created with.
pub uninterp spec fn bitset_cap(s: fixedbitset::FixedBitSet) -> nat;

/// Relies on fixedbitset::FixedBitSet::with_capacity: a set of `bits` bits,
/// all initially clear.
#[verifier::external_body]
pub(crate) fn bitset_new(bits: usize) -> (r: fixedbitset::FixedBitSet)
    ensures
        bitset_cap(r) == bits,
        bitset_bits(r) == Set::<int>::empty(),
{
    fixedbitset::FixedBitSet::with_capacity(bits)
}

/// Relies on fixedbitset::FixedBitSet::contains: true exactly when the bit is
/// enabled (bits outside the capacity are never enabled).
#[verifier::external_body]
pub(crate) fn bitset_contains(s: &fixedbitset::FixedBitSet, bit: usize) -> (r: bool)
    ensures
        r == bitset_bits(*s).contains(bit as int),
{
    s.contains(bit)
}

/// Relies on fixedbitset::FixedBitSet::insert: enables the bit. The method
/// panics on a bit at or beyond the capacity, so such bits are excluded.
#[verifier::external_body]
pub(crate) fn bitset_insert(s: &mut fixedbitset::FixedBitSet, bit: usize)
    requires
        bit < bitset_cap(*old(s)),
    ensures
        bitset_bits(*final(s)) == bitset_bits(*old(s)).insert(bit as int),
        bitset_cap(*final(s)) == bitset_cap(*old(s)),
{
    s.insert(bit)
}

} // verus!

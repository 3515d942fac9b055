//! Trusted surface over ez-bitset's `BitSet`, used to track the probed and
//! unprobed regulator sets.

use vstd::prelude::*;

verus! {

/// Relies on ez-bitset's `BitSet`: a fixed-size set of machine-word indices.
#[verifier::external_type_specification]
#[verifier::external_body]
pub struct ExBitSet(ez_bitset::bitset::BitSet);

/// The set of indices a `BitSet` holds.
pub uninterp spec fn bitset_contents(b: ez_bitset::bitset::BitSet) -> Set<int>;

/// The fixed capacity a `BitSet` was created with.
pub uninterp spec fn bitset_size(b: ez_bitset::bitset::BitSet) -> int;

/// Relies on `BitSet::new_all_set`: a set of the given capacity with every
/// index below it present.
#[verifier::external_body]
pub(crate) fn bitset_new_all_set(size: usize) -> (b: ez_bitset::bitset::BitSet)
    ensures
        bitset_size(b) == size,
        bitset_contents(b) == Set::new(|i: int| 0 <= i < size),
{
    ez_bitset::bitset::BitSet::new_all_set(size)
}

/// Relies on `BitSet::new`: a set of the given capacity with no index
/// present.
#[verifier::external_body]
pub(crate) fn bitset_new(size: usize) -> (b: ez_bitset::bitset::BitSet)
    ensures
        bitset_size(b) == size,
        bitset_contents(b) == Set::<int>::empty(),
{
    ez_bitset::bitset::BitSet::new(size)
}

/// Relies on `BitSet::set_bit`: adds the index and reports whether it was
/// already present; the index must be within capacity.
#[verifier::external_body]
pub(crate) fn bitset_set_bit(b: &mut ez_bitset::bitset::BitSet, idx: usize) -> (was: bool)
    requires
        idx < bitset_size(*old(b)),
    ensures
        bitset_size(*final(b)) == bitset_size(*old(b)),
        bitset_contents(*final(b)) == bitset_contents(*old(b)).insert(idx as int),
        was == bitset_contents(*old(b)).contains(idx as int),
{
    b.set_bit(idx)
}

/// Relies on `BitSet::unset_bit`: removes the index and reports whether it
/// was present; the index must be within capacity.
#[verifier::external_body]
pub(crate) fn bitset_unset_bit(b: &mut ez_bitset::bitset::BitSet, idx: usize) -> (was: bool)
    requires
        idx < bitset_size(*old(b)),
    ensures
        bitset_size(*final(b)) == bitset_size(*old(b)),
        bitset_contents(*final(b)) == bitset_contents(*old(b)).remove(idx as int),
        was == bitset_contents(*old(b)).contains(idx as int),
{
    b.unset_bit(idx)
}

/// Relies on `BitSet::at`: whether the index is present; the index must be
/// within capacity.
#[verifier::external_body]
pub(crate) fn bitset_at(b: &ez_bitset::bitset::BitSet, idx: usize) -> (r: bool)
    requires
        idx < bitset_size(*b),
    ensures
        r == bitset_contents(*b).contains(idx as int),
{
    b.at(idx)
}

} // verus!

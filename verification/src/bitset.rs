//! Sets of shred indexes: what the bit sets of the `fixedbitset` crate hold.

use fixedbitset::FixedBitSet;
use vstd::prelude::*;
use vstd::set_lib::set_int_range;

verus! {

/// The bit set type of the `fixedbitset` crate.
#[verifier::external_type_specification]
#[verifier::external_body]
pub struct ExFixedBitSet(fixedbitset::FixedBitSet);

/// The bits that are set.
pub uninterp spec fn ones(set: FixedBitSet) -> Set<int>;

/// The number of bits that there is room for.
pub uninterp spec fn width(set: FixedBitSet) -> nat;

/// Calls `FixedBitSet::with_capacity`: room for `bits` bits, none of them set.
#[verifier::external_body]
pub(crate) fn with_capacity(bits: usize) -> (set: FixedBitSet)
    ensures
        ones(set) == Set::<int>::empty(),
        width(set) == bits,
{
    FixedBitSet::with_capacity(bits)
}

/// Calls `FixedBitSet::contains`: whether the bit is set, which a bit that there
/// is no room for is not.
#[verifier::external_body]
pub(crate) fn contains(set: &FixedBitSet, bit: usize) -> (is_set: bool)
    ensures
        is_set == ones(*set).contains(bit as int),
{
    set.contains(bit)
}

/// Calls `FixedBitSet::insert`, which sets one bit. It panics where there is no
/// room for the bit.
#[verifier::external_body]
pub(crate) fn insert(set: &mut FixedBitSet, bit: usize)
    requires
        bit < width(*old(set)),
    ensures
        ones(*final(set)) == ones(*old(set)).insert(bit as int),
        width(*final(set)) == width(*old(set)),
{
    set.insert(bit)
}

/// Calls `FixedBitSet::insert_range`, which sets the bits from `start` up to, not
/// including, `end`. It panics where there is no room for them.
#[verifier::external_body]
pub(crate) fn insert_range(set: &mut FixedBitSet, start: usize, end: usize)
    requires
        start <= end <= width(*old(set)),
    ensures
        ones(*final(set)) == ones(*old(set)).union(set_int_range(start as int, end as int)),
        width(*final(set)) == width(*old(set)),
{
    set.insert_range(start..end)
}

/// Calls `FixedBitSet::count_ones`: how many of the bits from `start` up to, not
/// including, `end` are set. It panics where the range runs past the last bit.
#[verifier::external_body]
pub(crate) fn count_ones(set: &FixedBitSet, start: usize, end: usize) -> (count: usize)
    requires
        start <= end <= width(*set),
    ensures
        count == ones(*set).intersect(set_int_range(start as int, end as int)).len(),
{
    set.count_ones(start..end)
}

} // verus!

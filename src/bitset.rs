//! The set of deleted documents of a segment, kept in the `bit_set` crate's
//! `BitSet`.
use vstd::prelude::*;

verus! {

#[verifier::external_type_specification]
#[verifier::external_body]
#[verifier::reject_recursive_types(B)]
pub struct ExBitSet<B>(bit_set::BitSet<B>);

/// The values that a bit set holds.
pub uninterp spec fn bitset_members(b: bit_set::BitSet) -> Set<nat>;

/// Relies on `BitSet::with_capacity`: a set with room for `nbits` values
/// and no value in it.
#[verifier::external_body]
pub(crate) fn bitset_with_capacity(nbits: usize) -> (r: bit_set::BitSet)
    requires
        nbits <= u32::MAX,
    ensures
        bitset_members(r) == Set::<nat>::empty(),
{
    bit_set::BitSet::with_capacity(nbits)
}

/// Relies on `BitSet::insert`: adds `value` (growing the storage as needed)
/// and returns whether it was absent.
#[verifier::external_body]
pub(crate) fn bitset_insert(b: &mut bit_set::BitSet, value: usize) -> (r: bool)
    requires
        value < u32::MAX,
    ensures
        bitset_members(*final(b)) == bitset_members(*old(b)).insert(value as nat),
        r == !bitset_members(*old(b)).contains(value as nat),
{
    b.insert(value)
}

/// Relies on `BitSet::contains`: whether `value` is in the set.
#[verifier::external_body]
pub(crate) fn bitset_contains(b: &bit_set::BitSet, value: usize) -> (r: bool)
    ensures
        r == bitset_members(*b).contains(value as nat),
{
    b.contains(value)
}

/// Relies on `BitSet::len`: the number of values in the set.
#[verifier::external_body]
pub(crate) fn bitset_len(b: &bit_set::BitSet) -> (r: usize)
    ensures
        r == bitset_members(*b).len(),
{
    b.len()
}

} // verus!

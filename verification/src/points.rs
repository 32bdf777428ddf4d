//! Sets of points, held in one bit per point.
use bitvec::array::BitArray;
use bitvec::order::Lsb0;
use vstd::prelude::*;

verus! {

/// Number of bits of a point set; every point of the grid is below it.
pub const POINT_SET_BITS: usize = 384;

/// A bit array of `bitvec` with one bit per point. What it holds is named by
/// `members`.
#[verifier::external_body]
#[derive(Debug)]
pub struct PointSet {
    bits: BitArray<[u64; 6], Lsb0>,
}

/// The indices of the bits that are set.
pub uninterp spec fn members(set: PointSet) -> Set<usize>;

impl PointSet {
    /// `BitArray::ZERO`: no bit is set.
    #[verifier::external_body]
    pub(crate) fn empty() -> (set: PointSet)
        ensures
            members(set) == Set::<usize>::empty(),
    {
        PointSet { bits: BitArray::ZERO }
    }

    /// `BitSlice::set`: writes the one bit. It panics on an index that is not
    /// below the length.
    #[verifier::external_body]
    pub(crate) fn set(&mut self, point: usize, value: bool)
        requires
            point < POINT_SET_BITS,
        ensures
            members(*final(self)) == (if value {
                members(*old(self)).insert(point)
            } else {
                members(*old(self)).remove(point)
            }),
    {
        self.bits.set(point, value);
    }

    /// Indexing a `BitArray`: the value of the one bit. It panics on an index
    /// that is not below the length.
    #[verifier::external_body]
    pub(crate) fn get(&self, point: usize) -> (value: bool)
        requires
            point < POINT_SET_BITS,
        ensures
            value == members(*self).contains(point),
    {
        self.bits[point]
    }

    /// `|=` between bit arrays: afterwards the bits of both are set.
    #[verifier::external_body]
    pub(crate) fn join(&mut self, other: &PointSet)
        ensures
            members(*final(self)) == members(*old(self)).union(members(*other)),
    {
        self.bits |= other.bits;
    }

    /// `BitSlice::iter_ones`: the indices of the set bits, ascending.
    #[verifier::external_body]
    pub(crate) fn ones(&self) -> (points: Vec<usize>)
        ensures
            forall|i: int, j: int| 0 <= i < j < points@.len() ==> points@[i] < points@[j],
            forall|i: int| 0 <= i < points@.len() ==> #[trigger] points@[i] < POINT_SET_BITS,
            points@.to_set() == members(*self),
    {
        self.bits.iter_ones().collect()
    }

    /// `BitSlice::not_any`: whether no bit is set.
    #[verifier::external_body]
    pub(crate) fn is_empty(&self) -> (none: bool)
        ensures
            none == (members(*self) == Set::<usize>::empty()),
    {
        self.bits.not_any()
    }

    /// `BitSlice::count_ones`: how many bits are set.
    #[verifier::external_body]
    pub(crate) fn count(&self) -> (n: usize)
        ensures
            n == members(*self).len(),
    {
        self.bits.count_ones()
    }

    /// `==` between bit arrays: whether the same bits are set.
    #[verifier::external_body]
    pub(crate) fn same(&self, other: &PointSet) -> (equal: bool)
        ensures
            equal == (members(*self) == members(*other)),
    {
        self.bits == other.bits
    }
}

} // verus!

//! Fixed-length bit sets, stored in a `bitvec` bit-vector.
//!
//! A [`BitSet`] is viewed as the sequence of its bits. The positions of its
//! set (or cleared) bits, in ascending order, are given by [`positions`].

use bitvec::order::Lsb0;
use bitvec::vec::BitVec;
use vstd::prelude::*;

verus! {

/// The largest number of bits a [`BitSet`] may be created with. A bit-vector
/// can address this many bits on every supported pointer width.
pub const MAX_BITS: usize = 0x1fff_ffff;

/// A fixed-length sequence of bits backed by `bitvec::vec::BitVec`.
///
/// The bit-vector is opaque to the verifier; everything known about it is
/// stated over [`bit_values`].
#[verifier::external_body]
#[derive(Debug)]
pub struct BitSet {
    bits: BitVec<usize, Lsb0>,
}

/// The bits that the bit-vector inside a [`BitSet`] holds, in index order.
pub uninterp spec fn bit_values(set: BitSet) -> Seq<bool>;

/// `list` enumerates, in strictly ascending order and without omission, the
/// indices at which `bits` equals `value`.
pub open spec fn lists_positions(list: Seq<usize>, bits: Seq<bool>, value: bool) -> bool {
    &&& forall|i: int, j: int| 0 <= i < j < list.len() ==> list[i] < list[j]
    &&& forall|i: int|
        0 <= i < list.len() ==> (#[trigger] list[i]) < bits.len() && bits[list[i] as int] == value
    &&& forall|k: int|
        0 <= k < bits.len() && #[trigger] bits[k] == value ==> exists|i: int|
            0 <= i < list.len() && list[i] == k
}

/// `BitVec::repeat(false, len)`: a new bit-vector of `len` bits, all cleared.
/// `repeat` panics when `len` exceeds `BitSlice::MAX_BITS`, which is never
/// below [`MAX_BITS`].
#[verifier::external_body]
fn bitvec_zeroed(len: usize) -> (set: BitSet)
    requires
        len <= MAX_BITS,
    ensures
        bit_values(set) == Seq::new(len as nat, |i: int| false),
{
    BitSet { bits: BitVec::repeat(false, len) }
}

/// `BitVec::len`: the number of bits held.
#[verifier::external_body]
fn bitvec_len(set: &BitSet) -> (len: usize)
    ensures
        len == bit_values(*set).len(),
{
    set.bits.len()
}

/// `BitSlice::set`, through the bit-vector: writes `value` at `index` and
/// leaves every other bit as it was. The call panics when `index` is out of
/// bounds.
#[verifier::external_body]
fn bitvec_set(set: &mut BitSet, index: usize, value: bool)
    requires
        index < bit_values(*old(set)).len(),
    ensures
        bit_values(*final(set)) == bit_values(*old(set)).update(index as int, value),
{
    set.bits.set(index, value);
}

/// `BitOrAssign::bitor_assign` of a bit-vector with a reference to another:
/// each bit of the left side that has a counterpart on the right becomes the
/// disjunction of the two; bits beyond the right side's length are
/// untouched, and the length stays.
#[verifier::external_body]
fn bitvec_or_assign(set: &mut BitSet, other: &BitSet)
    ensures
        bit_values(*final(set)) == Seq::new(
            bit_values(*old(set)).len(),
            |i: int|
                bit_values(*old(set))[i] || (i < bit_values(*other).len() && bit_values(
                    *other,
                )[i]),
        ),
{
    set.bits |= &other.bits;
}

/// `BitSlice::iter_ones`, collected: the index of every set bit, ascending.
#[verifier::external_body]
fn bitvec_ones(set: &BitSet) -> (ones: Vec<usize>)
    ensures
        lists_positions(ones@, bit_values(*set), true),
{
    set.bits.iter_ones().collect()
}

/// `BitSlice::iter_zeros`, collected: the index of every cleared bit,
/// ascending.
#[verifier::external_body]
fn bitvec_zeros(set: &BitSet) -> (zeros: Vec<usize>)
    ensures
        lists_positions(zeros@, bit_values(*set), false),
{
    set.bits.iter_zeros().collect()
}

/// `Clone::clone` of a bit-vector: a new bit-vector with the same bits.
#[verifier::external_body]
fn bitvec_clone(set: &BitSet) -> (copy: BitSet)
    ensures
        bit_values(copy) == bit_values(*set),
{
    BitSet { bits: set.bits.clone() }
}

/// The indices at which `bits` equals `value`, in ascending order.
pub open spec fn positions(bits: Seq<bool>, value: bool) -> Seq<usize>
    decreases bits.len(),
{
    if bits.len() == 0 {
        Seq::empty()
    } else if bits.last() == value {
        positions(bits.drop_last(), value).push((bits.len() - 1) as usize)
    } else {
        positions(bits.drop_last(), value)
    }
}

/// [`positions`] is strictly ascending, holds only matching indices and
/// misses none of them.
pub proof fn lemma_positions_lists(bits: Seq<bool>, value: bool)
    requires
        bits.len() <= usize::MAX,
    ensures
        lists_positions(positions(bits, value), bits, value),
    decreases bits.len(),
{
    if bits.len() > 0 {
        let front = bits.drop_last();
        let list = positions(bits, value);
        lemma_positions_lists(front, value);
        assert forall|k: int| 0 <= k < bits.len() && #[trigger] bits[k] == value implies exists|
            i: int,
        |
            0 <= i < list.len() && list[i] == k by {
            if k < bits.len() - 1 {
                assert(front[k] == value);
                let i = choose|i: int|
                    0 <= i < positions(front, value).len() && positions(front, value)[i] == k;
                assert(list[i] == k);
            } else {
                assert(list[list.len() - 1] == k);
            }
        }
    }
}

/// Only one list enumerates the positions of a value: [`positions`].
pub proof fn lemma_positions_unique(list: Seq<usize>, bits: Seq<bool>, value: bool)
    requires
        lists_positions(list, bits, value),
    ensures
        list == positions(bits, value),
    decreases bits.len(),
{
    if bits.len() == 0 {
        if list.len() > 0 {
            assert(list[0] < bits.len());
        }
        assert(list =~= Seq::empty());
    } else {
        let front = bits.drop_last();
        let top = bits.len() - 1;
        if bits.last() == value {
            assert(bits[top] == value);
            let at = choose|i: int| 0 <= i < list.len() && list[i] == top;
            if at < list.len() - 1 {
                assert(list[at] < list[list.len() - 1]);
                assert(list[list.len() - 1] < bits.len());
            }
            let rest = list.drop_last();
            assert forall|k: int| 0 <= k < front.len() && #[trigger] front[k] == value implies exists|
                i: int,
            |
                0 <= i < rest.len() && rest[i] == k by {
                assert(bits[k] == value);
                let i = choose|i: int| 0 <= i < list.len() && list[i] == k;
                assert(rest[i] == k);
            }
            assert forall|i: int| 0 <= i < rest.len() implies (#[trigger] rest[i]) < front.len()
                && front[rest[i] as int] == value by {
                assert(list[i] < list[list.len() - 1]);
            }
            lemma_positions_unique(rest, front, value);
            assert(list =~= rest.push(top as usize));
        } else {
            assert forall|i: int| 0 <= i < list.len() implies (#[trigger] list[i]) < front.len()
                && front[list[i] as int] == value by {
                assert(list[i] < bits.len());
                assert(bits[list[i] as int] == value);
            }
            assert forall|k: int| 0 <= k < front.len() && #[trigger] front[k] == value implies exists|
                i: int,
            |
                0 <= i < list.len() && list[i] == k by {
                assert(bits[k] == value);
            }
            lemma_positions_unique(list, front, value);
        }
    }
}

impl View for BitSet {
    type V = Seq<bool>;

    open spec fn view(&self) -> Seq<bool> {
        bit_values(*self)
    }
}

impl BitSet {
    /// The indices of the set bits, ascending.
    pub open spec fn ones(&self) -> Seq<usize> {
        positions(self@, true)
    }

    /// The indices of the cleared bits, ascending.
    pub open spec fn zeros(&self) -> Seq<usize> {
        positions(self@, false)
    }

    /// A set of `len` bits, all cleared.
    pub fn new(len: usize) -> (set: BitSet)
        requires
            len <= MAX_BITS,
        ensures
            set@.len() == len,
            forall|i: int| 0 <= i < len ==> !set@[i],
    {
        bitvec_zeroed(len)
    }

    /// The number of bits.
    pub fn len(&self) -> (len: usize)
        ensures
            len == self@.len(),
    {
        bitvec_len(self)
    }

    /// Writes `value` at `index`.
    pub fn set(&mut self, index: usize, value: bool)
        requires
            index < old(self)@.len(),
        ensures
            final(self)@ == old(self)@.update(index as int, value),
    {
        bitvec_set(self, index, value);
    }

    /// Sets every bit that is set in `other`. Bits of `self` beyond the
    /// length of `other` keep their value.
    pub fn union_with(&mut self, other: &BitSet)
        ensures
            final(self)@.len() == old(self)@.len(),
            forall|i: int|
                0 <= i < old(self)@.len() ==> (#[trigger] final(self)@[i]) == (old(self)@[i] || (i
                    < other@.len() && other@[i])),
    {
        bitvec_or_assign(self, other);
    }

    /// The indices of the set bits, ascending.
    pub fn iter_ones(&self) -> (ones: Vec<usize>)
        ensures
            ones@ == self.ones(),
            lists_positions(ones@, self@, true),
    {
        let ones = bitvec_ones(self);
        proof {
            lemma_positions_unique(ones@, self@, true);
        }
        ones
    }

    /// The indices of the cleared bits, ascending.
    pub fn iter_zeros(&self) -> (zeros: Vec<usize>)
        ensures
            zeros@ == self.zeros(),
            lists_positions(zeros@, self@, false),
    {
        let zeros = bitvec_zeros(self);
        proof {
            lemma_positions_unique(zeros@, self@, false);
        }
        zeros
    }
}

impl Clone for BitSet {
    fn clone(&self) -> (copy: BitSet)
        ensures
            copy@ == self@,
    {
        bitvec_clone(self)
    }
}

} // verus!

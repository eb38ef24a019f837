//! The set of selections that the search has already visited.
//!
//! A selection is recorded under its canonical key: the ascending indices of
//! its set bits, padded to [`SEARCH_MAX_DEPTH`] entries with
//! [`INVALID_SENTINEL`].

use crate::bits::{lemma_positions_lists, positions, BitSet};
use crate::{MAX_WORDS, SEARCH_MAX_DEPTH};
use std::collections::HashSet;
use vstd::prelude::*;

verus! {

broadcast use vstd::std_specs::hash::group_hash_axioms;

/// Fills the unused slots of a canonical key.
pub const INVALID_SENTINEL: u16 = 0xffff;

/// A canonical key as it is computed: one entry per word of a combination.
pub type SeenSetElement = [u16; SEARCH_MAX_DEPTH];

/// The canonical key of the selection whose set bits are at `ones`.
pub open spec fn canonical_key(ones: Seq<usize>) -> Seq<u16> {
    Seq::new(
        SEARCH_MAX_DEPTH as nat,
        |i: int|
            if i < ones.len() {
                ones[i] as u16
            } else {
                INVALID_SENTINEL
            },
    )
}

/// A selection can be keyed when it has at most [`SEARCH_MAX_DEPTH`] set
/// bits and every index is below the sentinel.
pub open spec fn encodable(bits: Seq<bool>) -> bool {
    &&& bits.len() <= MAX_WORDS
    &&& positions(bits, true).len() <= SEARCH_MAX_DEPTH
}

/// The canonical key tells selections of one catalog apart: two selections
/// of the same length with the same key are the same selection, whatever
/// the order in which they were put together.
pub proof fn lemma_canonical_key_injective(a: Seq<bool>, b: Seq<bool>)
    requires
        encodable(a),
        encodable(b),
        a.len() == b.len(),
        canonical_key(positions(a, true)) == canonical_key(positions(b, true)),
    ensures
        a == b,
{
    let ones_a = positions(a, true);
    let ones_b = positions(b, true);
    let key_a = canonical_key(ones_a);
    let key_b = canonical_key(ones_b);
    lemma_positions_lists(a, true);
    lemma_positions_lists(b, true);
    if ones_a.len() < ones_b.len() {
        let i = ones_a.len() as int;
        assert(ones_b[i] < b.len());
        assert(key_b[i] == ones_b[i]);
        assert(key_a[i] == key_b[i]);
    }
    if ones_b.len() < ones_a.len() {
        let i = ones_b.len() as int;
        assert(ones_a[i] < a.len());
        assert(key_a[i] == ones_a[i]);
        assert(key_b[i] == key_a[i]);
    }
    assert forall|i: int| 0 <= i < ones_a.len() implies ones_a[i] == ones_b[i] by {
        assert(ones_a[i] < a.len());
        assert(ones_b[i] < b.len());
        assert(key_a[i] == ones_a[i]);
        assert(key_b[i] == ones_b[i]);
    }
    assert(ones_a =~= ones_b);
    assert forall|k: int| 0 <= k < a.len() implies a[k] == b[k] by {
        if a[k] {
            assert(a[k] == true);
            let i = choose|i: int| 0 <= i < ones_a.len() && ones_a[i] == k;
            assert(b[ones_b[i] as int] == true);
        }
        if b[k] {
            assert(b[k] == true);
            let i = choose|i: int| 0 <= i < ones_b.len() && ones_b[i] == k;
            assert(a[ones_a[i] as int] == true);
        }
    }
    assert(a =~= b);
}

/// A key as one number, sixteen bits per entry.
spec fn pack(key: Seq<u16>) -> u128 {
    (key[0] + key[1] * 0x1_0000 + key[2] * 0x1_0000_0000 + key[3] * 0x1_0000_0000_0000 + key[4]
        * 0x1_0000_0000_0000_0000) as u128
}

proof fn lemma_split_digit(low_a: int, high_a: int, low_b: int, high_b: int)
    requires
        0 <= low_a < 0x1_0000,
        0 <= low_b < 0x1_0000,
        low_a + 0x1_0000 * high_a == low_b + 0x1_0000 * high_b,
    ensures
        low_a == low_b,
        high_a == high_b,
{
    if high_a < high_b {
        assert(0x1_0000 * high_a + 0x1_0000 <= 0x1_0000 * high_b);
    } else if high_b < high_a {
        assert(0x1_0000 * high_b + 0x1_0000 <= 0x1_0000 * high_a);
    }
}

proof fn lemma_pack_injective(a: Seq<u16>, b: Seq<u16>)
    requires
        a.len() == SEARCH_MAX_DEPTH,
        b.len() == SEARCH_MAX_DEPTH,
        pack(a) == pack(b),
    ensures
        a == b,
{
    let a3 = a[3] + 0x1_0000 * a[4];
    let a2 = a[2] + 0x1_0000 * a3;
    let a1 = a[1] + 0x1_0000 * a2;
    let b3 = b[3] + 0x1_0000 * b[4];
    let b2 = b[2] + 0x1_0000 * b3;
    let b1 = b[1] + 0x1_0000 * b2;
    assert(pack(a) == a[0] + 0x1_0000 * a1);
    assert(pack(b) == b[0] + 0x1_0000 * b1);
    lemma_split_digit(a[0] as int, a1, b[0] as int, b1);
    lemma_split_digit(a[1] as int, a2, b[1] as int, b2);
    lemma_split_digit(a[2] as int, a3, b[2] as int, b3);
    lemma_split_digit(a[3] as int, a[4] as int, b[3] as int, b[4] as int);
    assert(a =~= b);
}

fn pack_key(key: &SeenSetElement) -> (packed: u128)
    ensures
        packed == pack(key@),
{
    key[0] as u128 + key[1] as u128 * 0x1_0000 + key[2] as u128 * 0x1_0000_0000 + key[3] as u128
        * 0x1_0000_0000_0000 + key[4] as u128 * 0x1_0000_0000_0000_0000
}

/// One more than the largest number that stands for a key.
const PACKED_LIMIT: u128 = 0x1_0000_0000_0000_0000_0000;

/// The key that a number stands for.
closed spec fn unpack(packed: u128) -> Seq<u16> {
    let over1 = packed / 0x1_0000;
    let over2 = over1 / 0x1_0000;
    let over3 = over2 / 0x1_0000;
    let over4 = over3 / 0x1_0000;
    seq![
        (packed % 0x1_0000) as u16,
        (over1 % 0x1_0000) as u16,
        (over2 % 0x1_0000) as u16,
        (over3 % 0x1_0000) as u16,
        (over4 % 0x1_0000) as u16,
    ]
}

proof fn lemma_pack_unpack(packed: u128)
    requires
        packed < PACKED_LIMIT,
    ensures
        unpack(packed).len() == SEARCH_MAX_DEPTH,
        pack(unpack(packed)) == packed,
{
    let over1 = packed / 0x1_0000;
    let over2 = over1 / 0x1_0000;
    let over3 = over2 / 0x1_0000;
    let over4 = over3 / 0x1_0000;
    let key = unpack(packed);
    assert(packed == key[0] + 0x1_0000 * over1);
    assert(over1 == key[1] + 0x1_0000 * over2);
    assert(over2 == key[2] + 0x1_0000 * over3);
    assert(over3 == key[3] + 0x1_0000 * over4);
    assert(over1 < 0x1_0000_0000_0000_0000);
    assert(over2 < 0x1_0000_0000_0000);
    assert(over3 < 0x1_0000_0000);
    assert(over4 < 0x1_0000);
    assert(over4 == key[4]);
}

proof fn lemma_pack_bounded(key: Seq<u16>)
    requires
        key.len() == SEARCH_MAX_DEPTH,
    ensures
        pack(key) < PACKED_LIMIT,
{
}

/// The canonical keys of all selections visited so far.
pub struct SeenSet {
    set: HashSet<u128>,
}

impl View for SeenSet {
    type V = Set<Seq<u16>>;

    closed spec fn view(&self) -> Set<Seq<u16>> {
        Set::new(|key: Seq<u16>| key.len() == SEARCH_MAX_DEPTH && self.set@.contains(pack(key)))
    }
}

impl SeenSet {
    /// The set is finite and holds nothing but keys.
    pub closed spec fn wf(&self) -> bool {
        &&& self.set@.finite()
        &&& forall|packed: u128| self.set@.contains(packed) ==> packed < PACKED_LIMIT
    }

    /// The keys are finitely many, and no more than `usize` can count.
    pub proof fn lemma_finite(&self)
        requires
            self.wf(),
        ensures
            self@.finite(),
            self@.len() <= usize::MAX,
    {
        self.lemma_len();
        assert(self.set@.len() == vstd::std_specs::hash::spec_hash_set_len(&self.set));
    }

    proof fn lemma_len(&self)
        requires
            self.wf(),
        ensures
            self@.finite(),
            self@.len() == self.set@.len(),
    {
        let image = self.set@.map(|packed: u128| unpack(packed));
        assert forall|key: Seq<u16>| self@.contains(key) implies image.contains(key) by {
            lemma_pack_bounded(key);
            lemma_pack_unpack(pack(key));
            lemma_pack_injective(unpack(pack(key)), key);
            assert(self.set@.contains(pack(key)) && key == unpack(pack(key)));
        }
        assert forall|key: Seq<u16>| image.contains(key) implies self@.contains(key) by {
            let packed = choose|packed: u128| self.set@.contains(packed) && key == unpack(packed);
            lemma_pack_unpack(packed);
        }
        assert(image =~= self@);
        assert(vstd::relations::injective_on(|packed: u128| unpack(packed), self.set@)) by {
            assert forall|a: u128, b: u128|
                self.set@.contains(a) && self.set@.contains(b) && unpack(a) == unpack(
                    b,
                ) implies a == b by {
                lemma_pack_unpack(a);
                lemma_pack_unpack(b);
            }
        }
        vstd::set_lib::lemma_map_size(self.set@, self@, |packed: u128| unpack(packed));
    }

    /// An empty set.
    pub fn new() -> (seen: SeenSet)
        ensures
            seen.wf(),
            seen@ == Set::<Seq<u16>>::empty(),
    {
        let seen = SeenSet { set: HashSet::new() };
        assert(seen@ =~= Set::<Seq<u16>>::empty());
        seen
    }

    /// The number of keys recorded.
    pub fn len(&self) -> (len: usize)
        requires
            self.wf(),
        ensures
            len == self@.len(),
    {
        proof {
            self.lemma_len();
        }
        self.set.len()
    }

    /// The canonical key of `value`: the indices of its set bits in
    /// ascending order, then the sentinel in every remaining slot.
    pub fn encode(value: &BitSet) -> (key: SeenSetElement)
        requires
            encodable(value@),
        ensures
            key@ == canonical_key(value.ones()),
            forall|i: int| 0 <= i < value.ones().len() ==> key@[i] == value.ones()[i],
            forall|i: int| value.ones().len() <= i < SEARCH_MAX_DEPTH ==> key@[i] == INVALID_SENTINEL,
    {
        let ones = value.iter_ones();
        let mut compact = [INVALID_SENTINEL; SEARCH_MAX_DEPTH];
        let mut i: usize = 0;
        while i < ones.len()
            invariant
                i <= ones.len() <= SEARCH_MAX_DEPTH,
                value@.len() <= MAX_WORDS,
                forall|j: int| 0 <= j < ones.len() ==> (#[trigger] ones@[j]) < value@.len(),
                forall|j: int| 0 <= j < i ==> compact@[j] == ones@[j],
                forall|j: int| i <= j < SEARCH_MAX_DEPTH ==> compact@[j] == INVALID_SENTINEL,
            decreases ones.len() - i,
        {
            compact[i] = ones[i] as u16;
            i += 1;
        }
        assert(compact@ =~= canonical_key(value.ones()));
        compact
    }

    /// Records the canonical key of `value` and tells whether it was new.
    pub fn insert(&mut self, value: &BitSet) -> (inserted: bool)
        requires
            old(self).wf(),
            encodable(value@),
        ensures
            final(self).wf(),
            final(self)@ == old(self)@.insert(canonical_key(value.ones())),
            inserted == !old(self)@.contains(canonical_key(value.ones())),
    {
        let compact = Self::encode(value);
        let packed = pack_key(&compact);
        let inserted = self.set.insert(packed);
        proof {
            let key = canonical_key(value.ones());
            assert forall|other: Seq<u16>|
                other.len() == SEARCH_MAX_DEPTH && pack(other) == packed implies other == key by {
                lemma_pack_injective(other, key);
            }
            assert(final(self)@ =~= old(self)@.insert(key));
            lemma_pack_bounded(key);
        }
        inserted
    }
}

} // verus!

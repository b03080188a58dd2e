//! Bit vectors: the outside type, what its values hold, and the calls that are made on it.
use bitvec::field::BitField;
use bitvec::order::Lsb0;
use bitvec::vec::BitVec;
use vstd::prelude::*;

verus! {

/// A growable sequence of bits, packed by the `bitvec` crate.
#[verifier::external_body]
pub struct Bits {
    /// The packed bits.
    inner: BitVec<usize, Lsb0>,
}

/// The bits that a bit vector holds, in order.
pub uninterp spec fn bits_of(bits: Bits) -> Seq<bool>;

impl View for Bits {
    type V = Seq<bool>;

    open spec fn view(&self) -> Seq<bool> {
        bits_of(*self)
    }
}

/// The greatest number of bits that one bit vector can hold.
pub open spec fn max_bits() -> int {
    usize::MAX as int / 8
}

/// The number of set bits among the first `end` bits.
pub open spec fn ones_before(bits: Seq<bool>, end: int) -> nat
    decreases end,
{
    if end <= 0 {
        0
    } else {
        ones_before(bits, end - 1) + if bits[end - 1] {
            1nat
        } else {
            0nat
        }
    }
}

/// Whether no position is set in both of two bit sequences.
pub open spec fn exclusive(a: Seq<bool>, b: Seq<bool>) -> bool {
    forall|i: int| 0 <= i < a.len() ==> !(#[trigger] a[i] && b[i])
}

/// A bit sequence of the given length in which every bit has one value.
pub open spec fn uniform(bit: bool, len: int) -> Seq<bool> {
    Seq::new(len as nat, |i: int| bit)
}

impl Bits {
    /// Calls `BitVec::repeat`: the result holds `len` copies of `bit`. The call panics above the
    /// greatest length.
    #[verifier::external_body]
    pub(crate) fn repeat(bit: bool, len: usize) -> (bits: Bits)
        requires
            len <= max_bits(),
        ensures
            bits_of(bits) == uniform(bit, len as int),
    {
        Bits { inner: BitVec::repeat(bit, len) }
    }

    /// Calls `BitSlice::len`: the number of bits held.
    #[verifier::external_body]
    pub(crate) fn len(&self) -> (len: usize)
        ensures
            len == bits_of(*self).len(),
    {
        self.inner.len()
    }

    /// Calls the index operator of `BitVec`: the bit at a position, which must be in bounds.
    #[verifier::external_body]
    pub(crate) fn get(&self, index: usize) -> (bit: bool)
        requires
            index < bits_of(*self).len(),
        ensures
            bit == bits_of(*self)[index as int],
    {
        self.inner[index]
    }

    /// Calls `BitSlice::set`: writes the bit at a position, which must be in bounds, and no other.
    #[verifier::external_body]
    pub(crate) fn set(&mut self, index: usize, bit: bool)
        requires
            index < bits_of(*old(self)).len(),
        ensures
            bits_of(*final(self)) == bits_of(*old(self)).update(index as int, bit),
    {
        self.inner.set(index, bit);
    }

    /// Calls `BitSlice::to_bitvec` on the part of a bit vector from `start` to `end`: the result
    /// holds a copy of those bits.
    #[verifier::external_body]
    pub(crate) fn section(&self, start: usize, end: usize) -> (part: Bits)
        requires
            start <= end <= bits_of(*self).len(),
        ensures
            bits_of(part) == bits_of(*self).subrange(start as int, end as int),
    {
        Bits { inner: self.inner[start..end].to_bitvec() }
    }

    /// Calls the `|=` operator of `BitSlice` on the part of a bit vector from `start` to `end`,
    /// which must be as long as `other`: every bit of that part is set if it was set or `other` has
    /// it, and the bits outside of the part stay.
    #[verifier::external_body]
    pub(crate) fn or_at(&mut self, start: usize, end: usize, other: &Bits)
        requires
            start <= end <= bits_of(*old(self)).len(),
            end - start == bits_of(*other).len(),
        ensures
            bits_of(*final(self)) == Seq::new(
                bits_of(*old(self)).len(),
                |i: int|
                    bits_of(*old(self))[i] || (start <= i < end && bits_of(*other)[i - start]),
            ),
    {
        self.inner[start..end] |= other.inner.as_bitslice();
    }

    /// Calls the `!` operator on the mutable slice of a bit vector: inverts every bit.
    #[verifier::external_body]
    pub(crate) fn invert(&mut self)
        ensures
            bits_of(*final(self)) == Seq::new(
                bits_of(*old(self)).len(),
                |i: int| !bits_of(*old(self))[i],
            ),
    {
        let _ = !self.inner.as_mut_bitslice();
    }

    /// Calls `BitSlice::all`: whether every bit is set.
    #[verifier::external_body]
    pub(crate) fn all(&self) -> (result: bool)
        ensures
            result == (forall|i: int| 0 <= i < bits_of(*self).len() ==> #[trigger] bits_of(*self)[i]),
    {
        self.inner.all()
    }

    /// Calls `BitSlice::first_zero`: the position of the first bit that is not set, if any.
    #[verifier::external_body]
    pub(crate) fn first_zero(&self) -> (result: Option<usize>)
        ensures
            match result {
                Some(index) => index < bits_of(*self).len() && !bits_of(*self)[index as int]
                    && forall|i: int| 0 <= i < index ==> #[trigger] bits_of(*self)[i],
                None => forall|i: int|
                    0 <= i < bits_of(*self).len() ==> #[trigger] bits_of(*self)[i],
            },
    {
        self.inner.first_zero()
    }

    /// Calls `BitSlice::count_ones` on the first `end` bits: how many of them are set.
    #[verifier::external_body]
    pub(crate) fn count_ones_before(&self, end: usize) -> (count: usize)
        requires
            end <= bits_of(*self).len(),
        ensures
            count == ones_before(bits_of(*self), end as int),
    {
        self.inner[..end].count_ones()
    }

    /// Calls `BitSlice::iter_ones`: the positions of the set bits, in ascending order.
    #[verifier::external_body]
    pub(crate) fn ones(&self) -> (positions: Vec<usize>)
        ensures
            positions_of(bits_of(*self), positions@),
    {
        self.inner.iter_ones().collect()
    }

    /// Calls `BitSlice::iter_zeros`: the positions of the bits that are not set, in ascending
    /// order.
    #[verifier::external_body]
    pub(crate) fn zeros(&self) -> (positions: Vec<usize>)
        ensures
            forall|k: int|
                0 <= k < positions@.len() ==> (#[trigger] positions@[k]) < bits_of(*self).len()
                    && !bits_of(*self)[positions@[k] as int],
            forall|j: int, k: int| 0 <= j < k < positions@.len() ==> positions@[j] < positions@[k],
            forall|i: int|
                0 <= i < bits_of(*self).len() && !(#[trigger] bits_of(*self)[i])
                    ==> positions@.contains(i as usize),
    {
        self.inner.iter_zeros().collect()
    }

    /// Calls `BitVec::resize`: the first bits stay, and bits that are added have the given value.
    /// The call panics above the greatest length.
    #[verifier::external_body]
    pub(crate) fn resize(&mut self, len: usize, bit: bool)
        requires
            len <= max_bits(),
        ensures
            bits_of(*final(self)) == Seq::new(
                len as nat,
                |i: int|
                    if i < bits_of(*old(self)).len() {
                        bits_of(*old(self))[i]
                    } else {
                        bit
                    },
            ),
    {
        self.inner.resize(len, bit);
    }

    /// Calls `BitSlice::fill`: gives every bit one value.
    #[verifier::external_body]
    pub(crate) fn fill(&mut self, bit: bool)
        ensures
            bits_of(*final(self)) == uniform(bit, bits_of(*old(self)).len() as int),
    {
        self.inner.fill(bit);
    }

    /// Calls `BitField::load_le` on the part of a bit vector from `start` to `end`, which must hold
    /// 1 to 64 bits: the bit of that part at a position is the bit of the result at the same
    /// position, and the bits of the result above the part are not set.
    #[verifier::external_body]
    pub(crate) fn load(&self, start: usize, end: usize) -> (word: u64)
        requires
            start < end <= start + 64,
            end <= bits_of(*self).len(),
        ensures
            forall|i: u64|
                i < 64 ==> (((#[trigger] (word >> i)) & 1u64) == 1u64) == (start + i < end
                    && bits_of(*self)[start + i]),
    {
        self.inner[start..end].load_le()
    }
}

/// Determines whether two bitmaps do not share any set bit.
pub fn bitmaps_exclusive(a: &Bits, b: &Bits) -> (result: bool)
    requires
        a@.len() == b@.len(),
    ensures
        result == exclusive(a@, b@),
{
    let len: usize = a.len();
    let mut start: usize = 0;
    while start < len
        invariant
            len == a@.len(),
            len == b@.len(),
            start <= len,
            forall|i: int| 0 <= i < start ==> !(#[trigger] a@[i] && b@[i]),
        decreases len - start,
    {
        let end: usize = if len - start < 64 {
            len
        } else {
            start + 64
        };
        let word_a: u64 = a.load(start, end);
        let word_b: u64 = b.load(start, end);
        let shared: u64 = word_a & word_b;
        if shared != 0 {
            proof {
                let i = lemma_set_bit(shared);
                assert((word_a >> i) & 1u64 == 1u64 && (word_b >> i) & 1u64 == 1u64) by (bit_vector)
                    requires
                        shared == word_a & word_b,
                        (shared >> i) & 1u64 == 1u64,
                ;
                assert(a@[start + i] && b@[start + i]);
            }
            return false;
        }
        proof {
            assert forall|i: int| 0 <= i < end implies !(#[trigger] a@[i]
                && b@[i]) by {
                if i >= start {
                    let k = (i - start) as u64;
                    assert((word_a >> k) & 1u64 != 1u64 || (word_b >> k) & 1u64 != 1u64)
                        by (bit_vector)
                        requires
                            word_a & word_b == 0u64,
                            k < 64u64,
                    ;
                }
            }
        }
        start = end;
    }
    true
}

/// Some bit of a word that is not zero is set.
proof fn lemma_set_bit(word: u64) -> (i: u64)
    requires
        word != 0,
    ensures
        i < 64,
        (word >> i) & 1u64 == 1u64,
    decreases word,
{
    if word & 1u64 == 1u64 {
        assert((word >> 0u64) & 1u64 == 1u64) by (bit_vector)
            requires
                word & 1u64 == 1u64,
        ;
        0
    } else {
        let half = word >> 1u64;
        assert(half != 0 && half < word) by (bit_vector)
            requires
                word != 0u64,
                word & 1u64 != 1u64,
                half == word >> 1u64,
        ;
        let j = lemma_set_bit(half);
        assert(j < 63 && (word >> ((j + 1) as u64)) & 1u64 == 1u64) by (bit_vector)
            requires
                j < 64u64,
                half == word >> 1u64,
                (half >> j) & 1u64 == 1u64,
        ;
        (j + 1) as u64
    }
}

/// The number of set bits grows with the length of the prefix.
pub proof fn lemma_ones_before_monotonic(bits: Seq<bool>, a: int, b: int)
    requires
        0 <= a <= b,
    ensures
        ones_before(bits, a) <= ones_before(bits, b),
        ones_before(bits, b) - ones_before(bits, a) <= b - a,
        ones_before(bits, b) <= b,
    decreases b,
{
    if a < b {
        lemma_ones_before_monotonic(bits, a, b - 1);
    } else if b > 0 {
        lemma_ones_before_monotonic(bits, b - 1, b - 1);
    }
}

/// The number of set bits is the same for prefixes between which no bit is set.
pub proof fn lemma_ones_before_gap(bits: Seq<bool>, a: int, b: int)
    requires
        0 <= a <= b,
        forall|i: int| a <= i < b ==> !#[trigger] bits[i],
    ensures
        ones_before(bits, a) == ones_before(bits, b),
    decreases b - a,
{
    if a < b {
        lemma_ones_before_gap(bits, a, b - 1);
    }
}

/// Whether a list holds the positions of the set bits, in ascending order.
pub open spec fn positions_of(bits: Seq<bool>, positions: Seq<usize>) -> bool {
    &&& forall|k: int|
        0 <= k < positions.len() ==> (#[trigger] positions[k]) < bits.len()
            && bits[positions[k] as int]
    &&& forall|j: int, k: int| 0 <= j < k < positions.len() ==> positions[j] < positions[k]
    &&& forall|i: int|
        0 <= i < bits.len() && #[trigger] bits[i] ==> positions.contains(i as usize)
}

/// Before a set bit there are as many set bits as its place among the positions says.
pub proof fn lemma_positions(bits: Seq<bool>, positions: Seq<usize>, q: int)
    requires
        positions_of(bits, positions),
        0 <= q <= positions.len(),
        bits.len() <= usize::MAX,
    ensures
        q < positions.len() ==> ones_before(bits, positions[q] as int) == q,
        q == positions.len() ==> ones_before(bits, bits.len() as int) == q,
    decreases q,
{
    let end = if q < positions.len() {
        positions[q] as int
    } else {
        bits.len() as int
    };
    let start = if q == 0 {
        0
    } else {
        positions[q - 1] + 1
    };
    if q > 0 {
        lemma_positions(bits, positions, q - 1);
        assert(ones_before(bits, start) == q);
    }
    assert forall|i: int| start <= i < end implies !#[trigger] bits[i] by {
        if bits[i] {
            assert(positions.contains(i as usize));
            let r = choose|r: int| 0 <= r < positions.len() && positions[r] == i as usize;
            if r < q - 1 {
                assert(positions[r] < positions[q - 1]);
            } else if q < r && q < positions.len() {
                assert(positions[q] < positions[r]);
            }
        }
    }
    lemma_ones_before_gap(bits, start, end);
}

/// The number of bits that are set before a place is the number of places before it whose bits are.
pub proof fn law_ones_are_counted(bits: Seq<bool>, end: int)
    requires
        0 <= end <= bits.len(),
    ensures
        Set::new(|i: int| 0 <= i < end && bits[i]).finite(),
        ones_before(bits, end) == Set::new(|i: int| 0 <= i < end && bits[i]).len(),
    decreases end,
{
    let ones = Set::new(|i: int| 0 <= i < end && bits[i]);
    if end == 0 {
        assert(ones =~= Set::empty());
    } else {
        law_ones_are_counted(bits, end - 1);
        let fewer = Set::new(|i: int| 0 <= i < end - 1 && bits[i]);
        if bits[end - 1] {
            assert(ones =~= fewer.insert(end - 1));
        } else {
            assert(ones =~= fewer);
        }
    }
}

} // verus!

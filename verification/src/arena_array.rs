//! Arrays in which places are handed out and taken back.
use crate::bits::lemma_ones_before_monotonic;
use crate::bits::max_bits;
use crate::bits::ones_before;
use crate::bits::Bits;
use vstd::prelude::*;

verus! {

/// The number of bits in a block.
pub const BLOCK_BITS: usize = 64;

/// The number of items per block.
pub const BLOCK_ITEMS: usize = 8;

/// An array of a fixed number of places, which is given as the number of items and as the number of
/// blocks that keep track of them.
pub struct ArenaArray<T, const ITEM_COUNT: usize, const BLOCK_COUNT: usize> {
    /// The places.
    allocation: Vec<Option<T>>,
    /// Which places are in use.
    bits: Bits,
}

impl<T, const ITEM_COUNT: usize, const BLOCK_COUNT: usize> ArenaArray<
    T,
    ITEM_COUNT,
    BLOCK_COUNT,
> {
    /// The items at the places of the array.
    pub closed spec fn items(&self) -> Seq<Option<T>> {
        self.allocation@
    }

    /// Which bits of the blocks are set.
    pub closed spec fn used(&self) -> Seq<bool> {
        self.bits@
    }

    /// Whether exactly those places hold items whose bits are set.
    pub open spec fn wf(&self) -> bool {
        &&& self.items().len() == ITEM_COUNT
        &&& self.used().len() == BLOCK_BITS * BLOCK_COUNT
        &&& ITEM_COUNT <= BLOCK_BITS * BLOCK_COUNT
        &&& forall|i: int|
            0 <= i < ITEM_COUNT ==> #[trigger] self.used()[i] == (self.items()[i] is Some)
        &&& forall|i: int| ITEM_COUNT <= i < self.used().len() ==> !#[trigger] self.used()[i]
    }

    /// Whether a place is the first that is not in use.
    pub open spec fn first_free(&self, place: int) -> bool {
        &&& 0 <= place < ITEM_COUNT
        &&& !self.used()[place]
        &&& forall|i: int| 0 <= i < place ==> #[trigger] self.used()[i]
    }

    /// Creates an array of which no place is in use. The number of items must be the number of
    /// blocks times the block size.
    pub fn new() -> (array: Self)
        requires
            ITEM_COUNT == BLOCK_ITEMS * BLOCK_COUNT,
            BLOCK_BITS * BLOCK_COUNT <= max_bits(),
        ensures
            array.wf(),
            forall|i: int| 0 <= i < array.used().len() ==> !#[trigger] array.used()[i],
    {
        let mut allocation: Vec<Option<T>> = Vec::new();
        let mut i: usize = 0;
        while i < ITEM_COUNT
            invariant
                i <= ITEM_COUNT,
                allocation@.len() == i,
                forall|k: int| 0 <= k < i ==> (#[trigger] allocation@[k]) is None,
            decreases ITEM_COUNT - i,
        {
            allocation.push(None);
            i = i + 1;
        }
        ArenaArray { allocation, bits: Bits::repeat(false, BLOCK_BITS * BLOCK_COUNT) }
    }

    /// Determines the number of bits that are not set.
    pub fn spare_capacity(&self) -> (count: usize)
        requires
            self.wf(),
        ensures
            count == self.used().len() - ones_before(self.used(), self.used().len() as int),
    {
        proof {
            lemma_ones_before_monotonic(
                self.used(),
                0,
                self.used().len() as int,
            );
        }
        self.bits.len() - self.bits.count_ones_before(self.bits.len())
    }

    /// Puts an item into the first place that is not in use. There must be one.
    pub fn alloc_unchecked(&mut self, value: T) -> (result: (usize, &mut T))
        requires
            old(self).wf(),
            exists|place: int| #[trigger] old(self).first_free(place),
        ensures
            old(self).first_free(result.0 as int),
            result.0 < ITEM_COUNT,
            old(self).items()[result.0 as int] is None,
            forall|i: int| 0 <= i < result.0 ==> (#[trigger] old(self).items()[i]) is Some,
            *result.1 == value,
            final(self).wf(),
            final(self).items() == old(self).items().update(
                result.0 as int,
                Some(*final(result.1)),
            ),
    {
        let ghost before = *self;
        let bit: usize = match self.bits.first_zero() {
            Some(bit) => bit,
            None => 0,
        };
        proof {
            let place = choose|place: int| #[trigger] before.first_free(place);
            if place < bit {
                assert(before.used()[place]);
            } else if bit < place {
                assert(before.used()[bit as int]);
            }
        }
        self.bits.set(bit, true);
        let slot = &mut self.allocation[bit];
        assert forall|i: int| 0 <= i < bit implies (#[trigger] before.items()[i]) is Some by {
            assert(before.used()[i]);
        }
        (bit, slot.insert(value))
    }

    /// Gets the item at a place, which must be in use.
    pub fn get_unchecked(&self, index: usize) -> (item: &T)
        requires
            self.wf(),
            index < ITEM_COUNT,
            self.used()[index as int],
        ensures
            Some(*item) == self.items()[index as int],
    {
        self.allocation[index].as_ref().unwrap()
    }

    /// Gets mutable access to the item at a place, which must be in use.
    pub fn get_unchecked_mut(&mut self, index: usize) -> (item: &mut T)
        requires
            old(self).wf(),
            index < ITEM_COUNT,
            old(self).used()[index as int],
        ensures
            Some(*item) == old(self).items()[index as int],
            final(self).wf(),
            final(self).items() == old(self).items().update(index as int, Some(*final(item))),
            final(self).used() == old(self).used(),
    {
        self.allocation[index].as_mut().unwrap()
    }

    /// Takes a place out of use, which must be in use, and drops its item.
    pub fn free_unchecked(&mut self, index: usize)
        requires
            old(self).wf(),
            index < ITEM_COUNT,
            old(self).used()[index as int],
        ensures
            final(self).wf(),
            final(self).items() == old(self).items().update(index as int, None),
            final(self).used() == old(self).used().update(index as int, false),
    {
        let _ = self.allocation[index].take();
        self.bits.set(index, false);
    }
}

} // verus!

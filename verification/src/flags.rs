//! Square tables of flags, which hold one row of bits for each system.
use crate::bits::max_bits;
use crate::bits::Bits;
use vstd::prelude::*;

verus! {

/// Represents a densely-packed list of lists of bitflags used to store
/// per-system information about other systems.
pub struct SystemFlagsList {
    /// The underlying data buffer.
    data: Bits,
    /// The amount of bits per system.
    stride: usize,
}

impl SystemFlagsList {
    /// The number of systems.
    pub closed spec fn size(&self) -> int {
        self.stride as int
    }

    /// Whether the buffer holds exactly one row per system.
    pub closed spec fn wf(&self) -> bool {
        &&& self.data@.len() == self.stride * self.stride
        &&& self.stride * self.stride <= max_bits()
    }

    /// The flag that the list holds for the pair of a system and another one.
    pub closed spec fn flag(&self, system: int, other: int) -> bool {
        self.data@[system * self.stride + other]
    }

    /// The flags of one system.
    pub open spec fn row(&self, system: int) -> Seq<bool> {
        Seq::new(self.size() as nat, |other: int| self.flag(system, other))
    }

    /// Creates a new list of system flags, initialized to the given value.
    pub fn new(bit: bool, size: usize) -> (list: Self)
        requires
            size * size <= max_bits(),
        ensures
            list.wf(),
            list.size() == size,
            forall|i: int, j: int|
                0 <= i < size && 0 <= j < size ==> #[trigger] list.flag(i, j) == bit,
    {
        let ghost n = size as int;
        let list = SystemFlagsList { data: Bits::repeat(bit, size * size), stride: size };
        proof {
            assert forall|i: int, j: int| 0 <= i < size && 0 <= j < size implies #[trigger] list.flag(
                i,
                j,
            ) == bit by {
                lemma_cell(n, i, j);
            }
        }
        list
    }

    /// Gets the flags of the given system.
    pub fn get_unchecked(&self, index: usize) -> (row: Bits)
        requires
            self.wf(),
            index < self.size(),
        ensures
            row@ == self.row(index as int),
    {
        proof {
            lemma_row(self.stride as int, index as int);
        }
        let row = self.data.section(index * self.stride, index * self.stride + self.stride);
        assert(row@ =~= self.row(index as int));
        row
    }

    /// Initializes an edit of the flags for the given system, allowing for the
    /// simultaneous use of flags with smaller indices during the edit.
    pub fn edit_unchecked(&mut self, index: usize) -> (edit: SystemFlagsListEdit<'_>)
        requires
            old(self).wf(),
            index < old(self).size(),
        ensures
            edit.index == index,
            *edit.list == *old(self),
            *final(self) == *final(edit.list),
    {
        SystemFlagsListEdit { list: self, index }
    }
}

impl SystemFlagsList {
    /// Computes the bitwise or with another list of the same size into this one.
    pub fn bitor_assign(&mut self, rhs: &SystemFlagsList)
        requires
            old(self).wf(),
            rhs.wf(),
            old(self).size() == rhs.size(),
        ensures
            final(self).wf(),
            final(self).size() == old(self).size(),
            forall|i: int, j: int|
                0 <= i < rhs.size() && 0 <= j < rhs.size() ==> #[trigger] final(self).flag(i, j)
                    == (old(self).flag(i, j) || rhs.flag(i, j)),
    {
        let ghost n = self.stride as int;
        let ghost before = *self;
        self.data.or_at(0, rhs.data.len(), &rhs.data);
        proof {
            assert forall|i: int, j: int| 0 <= i < n && 0 <= j < n implies #[trigger] self.flag(
                i,
                j,
            ) == (before.flag(i, j) || rhs.flag(i, j)) by {
                lemma_cell(n, i, j);
            }
        }
    }
}

/// Represents an ongoing edit operation to a system flags list. This allows
/// for editing one part of the list while referencing other parts.
pub struct SystemFlagsListEdit<'a> {
    /// The list that is being edited.
    pub list: &'a mut SystemFlagsList,
    /// The system whose flags are being edited.
    pub index: usize,
}

impl<'a> SystemFlagsListEdit<'a> {
    /// Whether the edited system belongs to the list.
    pub open spec fn wf(&self) -> bool {
        &&& self.list.wf()
        &&& self.index < self.list.size()
    }

    /// Writes one flag of the edited system.
    pub fn set_unchecked(&mut self, other: usize, bit: bool)
        requires
            old(self).wf(),
            other < old(self).list.size(),
        ensures
            final(self).wf(),
            final(self).index == old(self).index,
            final(self).list.size() == old(self).list.size(),
            forall|i: int, j: int|
                0 <= i < old(self).list.size() && 0 <= j < old(self).list.size()
                    ==> #[trigger] final(self).list.flag(i, j) == if i == old(self).index && j
                    == other {
                    bit
                } else {
                    old(self).list.flag(i, j)
                },
            *final(final(self).list) == *final(old(self).list),
    {
        let ghost n = self.list.stride as int;
        let ghost before = *self.list;
        proof {
            lemma_cell(n, self.index as int, other as int);
        }
        self.list.data.set(self.index * self.list.stride + other, bit);
        proof {
            assert forall|i: int, j: int| 0 <= i < n && 0 <= j < n implies #[trigger] self.list.flag(
                i,
                j,
            ) == if i == self.index && j == other {
                bit
            } else {
                before.flag(i, j)
            } by {
                lemma_cell(n, i, j);
                if i * n + j == self.index * n + other {
                    lemma_cells_differ(n, i, j, self.index as int, other as int);
                }
            }
        }
    }

    /// Computes the bitwise or into the edited flags with those of the system at the given index.
    pub fn or_with_unchecked(&mut self, index: usize)
        requires
            old(self).wf(),
            index < old(self).index,
        ensures
            final(self).wf(),
            final(self).index == old(self).index,
            final(self).list.size() == old(self).list.size(),
            forall|i: int, j: int|
                0 <= i < old(self).list.size() && 0 <= j < old(self).list.size()
                    ==> #[trigger] final(self).list.flag(i, j) == (old(self).list.flag(i, j) || (i
                    == old(self).index && old(self).list.flag(index as int, j))),
            *final(final(self).list) == *final(old(self).list),
    {
        let edited: usize = self.index;
        or_rows(&mut *self.list, edited, index);
    }

    /// Computes the bitwise or of the edited flags into those of the system at the given index.
    pub fn or_into_unchecked(&mut self, index: usize)
        requires
            old(self).wf(),
            index < old(self).index,
        ensures
            final(self).wf(),
            final(self).index == old(self).index,
            final(self).list.size() == old(self).list.size(),
            forall|i: int, j: int|
                0 <= i < old(self).list.size() && 0 <= j < old(self).list.size()
                    ==> #[trigger] final(self).list.flag(i, j) == (old(self).list.flag(i, j) || (i
                    == index && old(self).list.flag(old(self).index as int, j))),
            *final(final(self).list) == *final(old(self).list),
    {
        let edited: usize = self.index;
        or_rows(&mut *self.list, index, edited);
    }
}

/// Computes the bitwise or of the flags of the system `from` into those of the system `to`.
fn or_rows(list: &mut SystemFlagsList, to: usize, from: usize)
    requires
        old(list).wf(),
        to < old(list).size(),
        from < old(list).size(),
    ensures
        final(list).wf(),
        final(list).size() == old(list).size(),
        forall|i: int, j: int|
            0 <= i < old(list).size() && 0 <= j < old(list).size() ==> #[trigger] final(list).flag(
                i,
                j,
            ) == (old(list).flag(i, j) || (i == to && old(list).flag(from as int, j))),
{
    let ghost n = list.stride as int;
    let ghost before = *list;
    let row = list.get_unchecked(from);
    proof {
        lemma_row(n, to as int);
    }
    list.data.or_at(to * list.stride, to * list.stride + list.stride, &row);
    proof {
        assert forall|i: int, j: int| 0 <= i < n && 0 <= j < n implies #[trigger] list.flag(i, j)
            == (before.flag(i, j) || (i == to && before.flag(from as int, j))) by {
            lemma_cell(n, i, j);
            if i == to {
                assert(row@[j] == before.flag(from as int, j));
            } else if to * n <= i * n + j < to * n + n {
                lemma_cells_differ(n, i, j, to as int, i * n + j - to * n);
            }
        }
    }
}

/// The position of a flag lies inside of a square table.
proof fn lemma_cell(n: int, i: int, j: int)
    requires
        0 <= i < n,
        0 <= j < n,
    ensures
        0 <= i * n + j < n * n,
        i * n <= i * n + j < (i + 1) * n,
{
    lemma_row(n, i);
    assert((i + 1) * n == i * n + n) by (nonlinear_arith);
}

/// The positions of a row lie inside of a square table.
proof fn lemma_row(n: int, i: int)
    requires
        0 <= i < n,
    ensures
        0 <= i * n,
        i * n + n <= n * n,
{
    assert(0 <= i * n && i * n + n <= n * n) by (nonlinear_arith)
        requires
            0 <= i < n,
    ;
}

/// Different flags have different positions.
proof fn lemma_cells_differ(n: int, i: int, j: int, p: int, q: int)
    requires
        0 <= i < n,
        0 <= j < n,
        0 <= p < n,
        0 <= q < n,
        i * n + j == p * n + q,
    ensures
        i == p,
        j == q,
{
    if i < p {
        assert(i * n + n <= p * n) by (nonlinear_arith)
            requires
                i + 1 <= p,
                0 <= n,
        ;
    } else if p < i {
        assert(p * n + n <= i * n) by (nonlinear_arith)
            requires
                p + 1 <= i,
                0 <= n,
        ;
    }
}

} // verus!

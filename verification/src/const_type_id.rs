//! Identifiers for types, which are small integers that a table hands out.
use std::any::TypeId;
use vstd::prelude::*;

verus! {

/// The identifier that the standard library gives to a type.
#[verifier::external_type_specification]
#[verifier::external_body]
pub struct ExTypeId(TypeId);

/// A unique identifier for a type, among the types of one table.
#[derive(Copy, Clone, Debug, PartialEq, Eq, Structural)]
pub struct ConstTypeId {
    /// The place of the type in its table.
    pub key: usize,
}

/// Assigns identifiers to types, in the order in which they are first seen.
pub struct TypeTable {
    /// The types that were seen.
    ids: Vec<TypeId>,
}

/// `TypeId::of` gets the identifier of a type. Which value that is changes from one build to the
/// next, so that nothing is claimed of it.
pub assume_specification<T: ?Sized + 'static>[ TypeId::of::<T> ]() -> (id: TypeId);

/// Calls the `==` operator of `TypeId`: whether two identifiers are the same.
#[verifier::external_body]
fn same_type(a: &TypeId, b: &TypeId) -> (result: bool)
    ensures
        result == (*a == *b),
{
    *a == *b
}

impl View for TypeTable {
    type V = Seq<TypeId>;

    closed spec fn view(&self) -> Seq<TypeId> {
        self.ids@
    }
}

/// Whether a key stands for a type after the type was looked up in a table.
pub open spec fn assigned(
    before: Seq<TypeId>,
    after: Seq<TypeId>,
    id: TypeId,
    key: ConstTypeId,
) -> bool {
    if before.contains(id) {
        &&& after == before
        &&& key.key < before.len()
        &&& before[key.key as int] == id
    } else {
        &&& after == before.push(id)
        &&& key.key == before.len()
    }
}

impl TypeTable {
    /// Whether no type occurs twice.
    pub open spec fn wf(&self) -> bool {
        self@.no_duplicates()
    }

    /// Creates a table that has not seen any type.
    pub fn new() -> (table: Self)
        ensures
            table.wf(),
            table@ == Seq::<TypeId>::empty(),
    {
        TypeTable { ids: Vec::new() }
    }

    /// Gets the number of types that were seen.
    pub fn len(&self) -> (len: usize)
        ensures
            len == self@.len(),
    {
        self.ids.len()
    }

    /// Gets the key of a type, and assigns the next free one if the type is new.
    pub fn key_of(&mut self, id: TypeId) -> (key: ConstTypeId)
        requires
            old(self).wf(),
        ensures
            final(self).wf(),
            assigned(old(self)@, final(self)@, id, key),
    {
        let mut i: usize = 0;
        while i < self.ids.len()
            invariant
                i <= self.ids@.len(),
                *self == *old(self),
                self.wf(),
                forall|j: int| 0 <= j < i ==> self.ids@[j] != id,
            decreases self.ids@.len() - i,
        {
            if same_type(&self.ids[i], &id) {
                return ConstTypeId { key: i };
            }
            i = i + 1;
        }
        self.ids.push(id);
        ConstTypeId { key: i }
    }
}

impl ConstTypeId {
    /// Gets the ID associated with the given type.
    pub fn of<T: 'static>(table: &mut TypeTable) -> (key: Self)
        requires
            old(table).wf(),
        ensures
            final(table).wf(),
            exists|id: TypeId| #[trigger]
                assigned(old(table)@, final(table)@, id, key) && call_ensures(
                    TypeId::of::<T>,
                    (),
                    id,
                ),
    {
        table.key_of(TypeId::of::<T>())
    }

    /// Determines whether this type ID matches another.
    pub fn eq(&self, other: &Self) -> (result: bool)
        ensures
            result == (*self == *other),
    {
        self.key == other.key
    }

    /// Determines whether the two given arrays are equal.
    pub fn arrays_eq<const N: usize>(a: &[u8; N], b: &[u8; N]) -> (result: bool)
        ensures
            result == (a@ == b@),
    {
        let mut i: usize = 0;
        while i < N
            invariant
                i <= N,
                forall|j: int| 0 <= j < i ==> a@[j] == b@[j],
            decreases N - i,
        {
            if a[i] != b[i] {
                return false;
            }
            i = i + 1;
        }
        assert(a@ =~= b@);
        true
    }
}

/// Two types have the same key exactly if they are the same type, whatever else was looked up in
/// between.
pub proof fn law_keys_identify_types(
    start: Seq<TypeId>,
    first: TypeId,
    first_key: ConstTypeId,
    after_first: Seq<TypeId>,
    before_second: Seq<TypeId>,
    second: TypeId,
    second_key: ConstTypeId,
    end: Seq<TypeId>,
)
    requires
        start.no_duplicates(),
        assigned(start, after_first, first, first_key),
        after_first.is_prefix_of(before_second),
        before_second.no_duplicates(),
        assigned(before_second, end, second, second_key),
    ensures
        first_key == second_key <==> first == second,
{
    assert(after_first[first_key.key as int] == first);
    assert(before_second[first_key.key as int] == first);
    if first == second {
        assert(before_second.contains(second));
    }
}

/// The key of a type is where it stands among the known ones. A type that was not known before comes
/// behind all others, and nothing else changes.
pub proof fn law_new_types_get_the_next_key(
    before: Seq<TypeId>,
    after: Seq<TypeId>,
    id: TypeId,
    key: ConstTypeId,
)
    requires
        assigned(before, after, id, key),
    ensures
        key.key < after.len(),
        after[key.key as int] == id,
        before.is_prefix_of(after),
        before.contains(id) ==> after.len() == before.len(),
        !before.contains(id) ==> after.len() == before.len() + 1 && key.key == before.len(),
{
    assert(after.subrange(0, before.len() as int) =~= before);
}

} // verus!

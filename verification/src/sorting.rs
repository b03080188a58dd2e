//! Topological sorting by the `topological-sort` crate: what a sort holds, and the calls that are
//! made on it.
use topological_sort::TopologicalSort;
use vstd::prelude::*;

verus! {

/// A sort in progress.
#[verifier::external_type_specification]
#[verifier::external_body]
#[verifier::reject_recursive_types(T)]
pub struct ExTopologicalSort<T>(TopologicalSort<T>);

/// The items that a sort holds.
pub uninterp spec fn sort_items(sort: TopologicalSort<usize>) -> Set<usize>;

/// The pairs of items of which the first must come before the second.
pub uninterp spec fn sort_links(sort: TopologicalSort<usize>) -> Set<(usize, usize)>;

/// Calls `TopologicalSort::new`: the result holds nothing.
#[verifier::external_body]
pub(crate) fn sort_new() -> (sort: TopologicalSort<usize>)
    ensures
        sort_items(sort) == Set::<usize>::empty(),
        sort_links(sort) == Set::<(usize, usize)>::empty(),
{
    TopologicalSort::new()
}

/// Calls `TopologicalSort::insert`: the item is held from then on.
#[verifier::external_body]
pub(crate) fn sort_insert(sort: &mut TopologicalSort<usize>, item: usize)
    ensures
        sort_items(*final(sort)) == sort_items(*old(sort)).insert(item),
        sort_links(*final(sort)) == sort_links(*old(sort)),
{
    sort.insert(item);
}

/// Calls `TopologicalSort::add_dependency`: both items are held from then on, and the first must
/// come before the second.
#[verifier::external_body]
pub(crate) fn sort_add_dependency(sort: &mut TopologicalSort<usize>, first: usize, second: usize)
    ensures
        sort_items(*final(sort)) == sort_items(*old(sort)).insert(first).insert(second),
        sort_links(*final(sort)) == sort_links(*old(sort)).insert((first, second)),
{
    sort.add_dependency(first, second);
}

/// Collects a `TopologicalSort` by its `Iterator::next`, which takes an item off that nothing left
/// has to come before, until there is none: no item comes twice, an item comes after all those
/// that must come before it, and an item only stays behind together with one that must come
/// before it. Which of several possible items comes next is left open.
#[verifier::external_body]
pub(crate) fn sort_collect(sort: TopologicalSort<usize>) -> (order: Vec<usize>)
    ensures
        order@.no_duplicates(),
        forall|k: int| 0 <= k < order@.len() ==> sort_items(sort).contains(#[trigger] order@[k]),
        forall|k: int, first: usize|
            0 <= k < order@.len() && #[trigger] sort_links(sort).contains(
                (first, #[trigger] order@[k]),
            ) ==> order@.take(k).contains(first),
        forall|item: usize| #[trigger]
            sort_items(sort).contains(item) && !order@.contains(item) ==> exists|first: usize|
                #[trigger] sort_links(sort).contains((first, item)) && !order@.contains(first),
{
    sort.collect()
}

} // verus!

//! Computation of the tables that say which systems can be reached from which.
use crate::bits::max_bits;
use crate::bits::Bits;
use crate::flags::SystemFlagsList;
use crate::graph::lemma_reaches_direct;
use crate::graph::lemma_reaches_last_step;
use crate::graph::lemma_reaches_transitive;
use crate::graph::ordered;
use crate::graph::reaches;
use crate::graph::steps;
use crate::graph::Link;
use crate::static_eval::const_unwrap;
use crate::system::ContextHandleInner;
use crate::system::SystemHolder;
use crate::traits::Dependencies;
use vstd::prelude::*;

verus! {

/// Whether the first rows of a table hold exactly what is reached from their systems.
pub open spec fn rows_reach(
    list: &SystemFlagsList,
    graph: Seq<Seq<Link>>,
    only_mutable: bool,
    count: int,
) -> bool {
    forall|i: int, j: int|
        0 <= i < count && 0 <= j < list.size() ==> #[trigger] list.flag(i, j) == reaches(
            graph,
            only_mutable,
            i,
            j,
        )
}

/// Whether the rows of a table from a place on are empty.
pub open spec fn rows_clear(list: &SystemFlagsList, start: int) -> bool {
    forall|i: int, j: int|
        start <= i < list.size() && 0 <= j < list.size() ==> !#[trigger] list.flag(i, j)
}

/// Whether every flag of one list is set wherever that of another one is.
pub open spec fn covered(needed: Seq<bool>, present: Seq<bool>) -> bool {
    forall|j: int| 0 <= j < needed.len() && #[trigger] needed[j] ==> present[j]
}

/// Whether the row of one of the chosen systems has a flag.
pub open spec fn joined(
    list: &SystemFlagsList,
    ids: Seq<u16>,
    chosen: spec_fn(int) -> bool,
    count: int,
    j: int,
) -> bool {
    exists|k: int| 0 <= k < count && chosen(k) && #[trigger] list.flag(ids[k] as int, j)
}

/// Whether one row of a table has been replaced by what the given systems, and the own one, have;
/// all other rows have stayed.
pub open spec fn row_joined(
    before: &SystemFlagsList,
    after: &SystemFlagsList,
    row: int,
    ids: Seq<u16>,
    chosen: spec_fn(int) -> bool,
    count: int,
) -> bool {
    &&& after.wf()
    &&& after.size() == before.size()
    &&& forall|i: int, j: int|
        0 <= i < before.size() && 0 <= j < before.size() ==> #[trigger] after.flag(i, j) == (
        before.flag(i, j) || (i == row && (j == row || joined(before, ids, chosen, count, j))))
}

/// Determines for which rows of a table every flag is also set in the given list.
pub fn compute_covered(transitive: &SystemFlagsList, present: &Bits) -> (result: Bits)
    requires
        transitive.wf(),
        present@.len() == transitive.size(),
        present@.len() <= max_bits(),
    ensures
        result@.len() == present@.len(),
        forall|i: int|
            0 <= i < present@.len() ==> #[trigger] result@[i] == covered(
                transitive.row(i),
                present@,
            ),
{
    let len: usize = present.len();
    let mut result = Bits::repeat(false, len);
    let mut i: usize = 0;
    while i < len
        invariant
            transitive.wf(),
            present@.len() == transitive.size(),
            len == present@.len(),
            i <= len,
            result@.len() == len,
            forall|k: int|
                0 <= k < i ==> #[trigger] result@[k] == covered(transitive.row(k), present@),
            forall|k: int| i <= k < len ==> !#[trigger] result@[k],
        decreases len - i,
    {
        let mut working_memory = transitive.get_unchecked(i);
        working_memory.invert();
        working_memory.or_at(0, len, present);
        let all: bool = working_memory.all();
        proof {
            let row = transitive.row(i as int);
            assert forall|j: int| 0 <= j < len implies working_memory@[j] == (!row[j]
                || present@[j]) by {}
            if all {
                assert forall|j: int| 0 <= j < row.len() && #[trigger] row[j] implies present@[j] by {
                    assert(working_memory@[j]);
                }
            } else if covered(row, present@) {
                assert forall|j: int| 0 <= j < working_memory@.len() implies #[trigger]
                working_memory@[j] by {
                    assert(row[j] ==> present@[j]);
                }
            }
        }
        if all {
            result.set(i, true);
        }
        i = i + 1;
    }
    result
}

/// Loads all transitive dependencies of the given system into the transitive dependency lists. All
/// dependencies of this system must have had their transitive dependencies loaded prior to calling
/// this function.
pub fn load_transitive_dependencies(
    transitive: &mut SystemFlagsList,
    transitive_mut: &mut SystemFlagsList,
    handle: &ContextHandleInner,
    dependencies: &Dependencies,
)
    requires
        old(transitive).wf(),
        old(transitive_mut).wf(),
        old(transitive).size() == old(transitive_mut).size(),
        handle.id < old(transitive).size(),
        handle.dependency_ids@.len() == dependencies@.len(),
        forall|k: int|
            0 <= k < handle.dependency_ids@.len() ==> #[trigger] handle.dependency_ids@[k]
                < handle.id,
    ensures
        row_joined(
            old(transitive),
            final(transitive),
            handle.id as int,
            handle.dependency_ids@,
            |k: int| true,
            handle.dependency_ids@.len() as int,
        ),
        row_joined(
            old(transitive_mut),
            final(transitive_mut),
            handle.id as int,
            handle.dependency_ids@,
            |k: int| dependencies@[k].mutable,
            handle.dependency_ids@.len() as int,
        ),
{
    let id: usize = handle.id() as usize;
    let ghost ids = handle.dependency_ids@;
    let ghost every = |k: int| true;
    let ghost mutable = |k: int| dependencies@[k].mutable;
    transitive.edit_unchecked(id).set_unchecked(id, true);
    transitive_mut.edit_unchecked(id).set_unchecked(id, true);
    let mut i: usize = 0;
    assert(row_joined(old(transitive), transitive, id as int, ids, every, 0));
    assert(row_joined(old(transitive_mut), transitive_mut, id as int, ids, mutable, 0));
    while i < handle.dependency_len()
        invariant
            id == handle.id,
            id < old(transitive).size(),
            old(transitive).size() == old(transitive_mut).size(),
            ids == handle.dependency_ids@,
            ids.len() == dependencies@.len(),
            forall|k: int| 0 <= k < ids.len() ==> #[trigger] ids[k] < handle.id,
            i <= ids.len(),
            every == (|k: int| true),
            mutable == (|k: int| dependencies@[k].mutable),
            row_joined(old(transitive), transitive, id as int, ids, every, i as int),
            row_joined(old(transitive_mut), transitive_mut, id as int, ids, mutable, i as int),
        decreases ids.len() - i,
    {
        let global_index: usize = handle.dependency_id(i) as usize;
        let ghost before = *transitive;
        let ghost before_mut = *transitive_mut;
        transitive.edit_unchecked(id).or_with_unchecked(global_index);
        proof {
            lemma_row_joined_step(old(transitive), &before, transitive, id as int, ids, every, i as int, true);
        }
        if const_unwrap(dependencies.as_inner().get(i)).mutable() {
            transitive_mut.edit_unchecked(id).or_with_unchecked(global_index);
        }
        proof {
            lemma_row_joined_step(
                old(transitive_mut),
                &before_mut,
                transitive_mut,
                id as int,
                ids,
                mutable,
                i as int,
                mutable(i as int),
            );
        }
        i = i + 1;
    }
}

/// Joining one more row, where it is chosen, into a row that others were joined into.
pub proof fn lemma_row_joined_step(
    start: &SystemFlagsList,
    before: &SystemFlagsList,
    after: &SystemFlagsList,
    row: int,
    ids: Seq<u16>,
    chosen: spec_fn(int) -> bool,
    count: int,
    taken: bool,
)
    requires
        0 <= count < ids.len(),
        ids[count] < row < start.size(),
        taken == chosen(count),
        row_joined(start, before, row, ids, chosen, count),
        after.wf(),
        after.size() == before.size(),
        forall|i: int, j: int|
            0 <= i < before.size() && 0 <= j < before.size() ==> #[trigger] after.flag(i, j) == (
            before.flag(i, j) || (taken && i == row && before.flag(ids[count] as int, j))),
    ensures
        row_joined(start, after, row, ids, chosen, count + 1),
{
    assert forall|i: int, j: int|
        0 <= i < start.size() && 0 <= j < start.size() implies #[trigger] after.flag(i, j) == (
    start.flag(i, j) || (i == row && (j == row || joined(start, ids, chosen, count + 1, j)))) by {
        let source = ids[count] as int;
        assert(before.flag(source, j) == start.flag(source, j));
        if joined(start, ids, chosen, count, j) {
            let k = choose|k: int|
                0 <= k < count && chosen(k) && #[trigger] start.flag(ids[k] as int, j);
            assert(start.flag(ids[k] as int, j));
            assert(joined(start, ids, chosen, count + 1, j));
        }
        if taken && start.flag(source, j) {
            assert(start.flag(ids[count] as int, j));
            assert(joined(start, ids, chosen, count + 1, j));
        }
        if joined(start, ids, chosen, count + 1, j) {
            let k = choose|k: int|
                0 <= k < count + 1 && chosen(k) && #[trigger] start.flag(ids[k] as int, j);
            if k < count {
                assert(joined(start, ids, chosen, count, j));
            }
        }
    }
}

/// Once the rows of a system's chosen dependencies have been joined into its own, that row holds
/// what the system reaches, if the earlier rows do and it held nothing before. The chosen
/// dependencies are those that count, and at most others that are reached all the same.
pub proof fn lemma_row_reaches(
    before: &SystemFlagsList,
    after: &SystemFlagsList,
    graph: Seq<Seq<Link>>,
    only_mutable: bool,
    row: int,
    ids: Seq<u16>,
    chosen: spec_fn(int) -> bool,
)
    requires
        before.wf(),
        0 <= row < before.size(),
        row < graph.len(),
        ids.len() == graph[row].len(),
        forall|k: int|
            0 <= k < ids.len() ==> (#[trigger] ids[k]) < row && graph[row][k].to == ids[k],
        forall|k: int|
            0 <= k < ids.len() && steps(graph, only_mutable, row, k) ==> #[trigger] chosen(k),
        forall|k: int|
            0 <= k < ids.len() && #[trigger] chosen(k) ==> reaches(
                graph,
                only_mutable,
                row,
                ids[k] as int,
            ),
        rows_reach(before, graph, only_mutable, row),
        rows_clear(before, row),
        row_joined(before, after, row, ids, chosen, ids.len() as int),
    ensures
        rows_reach(after, graph, only_mutable, row + 1),
        rows_clear(after, row + 1),
{
    assert forall|i: int, j: int|
        0 <= i < row + 1 && 0 <= j < after.size() implies #[trigger] after.flag(i, j) == reaches(
        graph,
        only_mutable,
        i,
        j,
    ) by {
        assert(before.flag(i, j) || !before.flag(i, j));
        if i == row {
            if j != row && joined(before, ids, chosen, ids.len() as int, j) {
                let k = choose|k: int|
                    0 <= k < ids.len() && chosen(k) && #[trigger] before.flag(ids[k] as int, j);
                assert(reaches(graph, only_mutable, ids[k] as int, j));
                lemma_reaches_transitive(graph, only_mutable, row, ids[k] as int, j);
            }
            if j != row && reaches(graph, only_mutable, row, j) {
                let k = choose|k: int| #[trigger]
                    steps(graph, only_mutable, row, k) && reaches(
                        graph,
                        only_mutable,
                        graph[row][k].to,
                        j,
                    );
                assert(chosen(k));
                assert(before.flag(ids[k] as int, j));
            }
        }
    }
    assert forall|i: int, j: int|
        row + 1 <= i < after.size() && 0 <= j < after.size() implies !#[trigger] after.flag(
        i,
        j,
    ) by {
        assert(!before.flag(i, j));
    }
}

/// Whether the rows of a table hold the dependents that come about through the systems from a
/// place on.
pub open spec fn dependents_from(
    inverse: &SystemFlagsList,
    graph: Seq<Seq<Link>>,
    start: int,
) -> bool {
    forall|i: int, j: int|
        0 <= i < inverse.size() && 0 <= j < inverse.size() ==> #[trigger] inverse.flag(i, j) == (
        (i >= start && i == j) || exists|p: int, k: int|
            start <= p && #[trigger] steps(graph, false, p, k) && graph[p][k].to == i && reaches(
                graph,
                false,
                j,
                p,
            ))
}

/// For each system, calculates the set of dependents.
pub(crate) fn compute_transitive_dependencies_inverse<V>(
    systems: &Vec<SystemHolder<V>>,
    Ghost(graph): Ghost<Seq<Seq<Link>>>,
) -> (inverse: SystemFlagsList)
    requires
        systems@.len() * systems@.len() <= max_bits(),
        graph.len() == systems@.len(),
        ordered(graph),
        forall|i: int|
            0 <= i < graph.len() ==> (#[trigger] graph[i]).len()
                == systems@[i].handle.dependency_ids@.len(),
        forall|i: int, k: int|
            0 <= i < graph.len() && 0 <= k < graph[i].len() ==> (#[trigger] graph[i][k]).to
                == systems@[i].handle.dependency_ids@[k],
    ensures
        inverse.wf(),
        inverse.size() == systems@.len(),
        forall|i: int, j: int|
            0 <= i < systems@.len() && 0 <= j < systems@.len() ==> #[trigger] inverse.flag(i, j)
                == reaches(graph, false, j, i),
{
    let len: usize = systems.len();
    let mut inverse = SystemFlagsList::new(false, len);
    let mut i: usize = len;
    while i > 0
        invariant
            len == systems@.len(),
            i <= len,
            graph.len() == len,
            ordered(graph),
            forall|i: int|
                0 <= i < graph.len() ==> (#[trigger] graph[i]).len()
                    == systems@[i].handle.dependency_ids@.len(),
            forall|i: int, k: int|
                0 <= i < graph.len() && 0 <= k < graph[i].len() ==> (#[trigger] graph[i][k]).to
                    == systems@[i].handle.dependency_ids@[k],
            inverse.wf(),
            inverse.size() == len,
            dependents_from(&inverse, graph, i as int),
        decreases i,
    {
        let ghost start = inverse;
        i = i - 1;
        let ghost row = i as int;
        inverse.edit_unchecked(i).set_unchecked(i, true);
        let handle = &systems[i].handle;
        let ghost ids = handle.dependency_ids@;
        proof {
            assert(graph[row].len() == ids.len());
            assert forall|j: int| 0 <= j < len implies #[trigger] inverse.flag(row, j) == reaches(
                graph,
                false,
                j,
                row,
            ) by {
                assert(start.flag(row, j) || !start.flag(row, j));
                if j != row && reaches(graph, false, j, row) {
                    let last = lemma_reaches_last_step(graph, false, j, row);
                    assert(row + 1 <= last.0);
                }
                if start.flag(row, j) {
                    let (p, k) = choose|p: int, k: int|
                        row + 1 <= p && #[trigger] steps(graph, false, p, k) && graph[p][k].to
                            == row && reaches(graph, false, j, p);
                    lemma_reaches_direct(graph, false, p, k);
                    lemma_reaches_transitive(graph, false, j, p, row);
                }
            }
        }
        let mut d: usize = 0;
        while d < handle.dependency_len()
            invariant
                len == systems@.len(),
                i < len,
                row == i,
                graph.len() == len,
                ordered(graph),
                ids == handle.dependency_ids@,
                graph[row].len() == ids.len(),
                forall|k: int| 0 <= k < ids.len() ==> (#[trigger] graph[row][k]).to == ids[k],
                d <= ids.len(),
                inverse.wf(),
                inverse.size() == len,
                start.size() == len,
                dependents_from(&start, graph, row + 1),
                forall|j: int|
                    0 <= j < len ==> #[trigger] inverse.flag(row, j) == reaches(
                        graph,
                        false,
                        j,
                        row,
                    ),
                forall|p: int, j: int|
                    0 <= p < len && p != row && 0 <= j < len ==> #[trigger] inverse.flag(p, j) == (
                    start.flag(p, j) || (reaches(graph, false, j, row) && exists|k: int|
                        0 <= k < d && (#[trigger] ids[k]) == p)),
            decreases ids.len() - d,
        {
            let target: usize = handle.dependency_id(d) as usize;
            let ghost before = inverse;
            assert(graph[row][d as int].to == ids[d as int]);
            inverse.edit_unchecked(i).or_into_unchecked(target);
            proof {
                assert forall|p: int, j: int|
                    0 <= p < len && p != row && 0 <= j < len implies #[trigger] inverse.flag(p, j)
                    == (start.flag(p, j) || (reaches(graph, false, j, row) && exists|k: int|
                    0 <= k < d + 1 && (#[trigger] ids[k]) == p)) by {
                    assert(before.flag(row, j) == reaches(graph, false, j, row));
                    assert(before.flag(p, j) || !before.flag(p, j));
                    if exists|k: int| 0 <= k < d && (#[trigger] ids[k]) == p {
                        let k = choose|k: int| 0 <= k < d && (#[trigger] ids[k]) == p;
                        assert(0 <= k < d + 1 && ids[k] == p);
                    }
                    if p == target {
                        assert(ids[d as int] == p);
                    }
                }
            }
            d = d + 1;
        }
        proof {
            lemma_dependents_step(&start, &inverse, graph, row, ids);
        }
    }
    proof {
        assert forall|i: int, j: int|
            0 <= i < systems@.len() && 0 <= j < systems@.len() implies #[trigger] inverse.flag(i, j)
            == reaches(graph, false, j, i) by {
            if j != i && reaches(graph, false, j, i) {
                let last = lemma_reaches_last_step(graph, false, j, i);
                assert(0 <= last.0);
            }
            if inverse.flag(i, j) && i != j {
                let (p, k) = choose|p: int, k: int|
                    0 <= p && #[trigger] steps(graph, false, p, k) && graph[p][k].to == i
                        && reaches(graph, false, j, p);
                lemma_reaches_direct(graph, false, p, k);
                lemma_reaches_transitive(graph, false, j, p, i);
            }
        }
    }
    inverse
}

/// Passing the dependents of one system on to its dependencies accounts for that system.
proof fn lemma_dependents_step(
    start: &SystemFlagsList,
    inverse: &SystemFlagsList,
    graph: Seq<Seq<Link>>,
    row: int,
    ids: Seq<u16>,
)
    requires
        ordered(graph),
        0 <= row < graph.len(),
        start.size() == graph.len(),
        inverse.size() == graph.len(),
        graph[row].len() == ids.len(),
        forall|k: int| 0 <= k < ids.len() ==> (#[trigger] graph[row][k]).to == ids[k],
        dependents_from(start, graph, row + 1),
        forall|j: int|
            0 <= j < graph.len() ==> #[trigger] inverse.flag(row, j) == reaches(
                graph,
                false,
                j,
                row,
            ),
        forall|p: int, j: int|
            0 <= p < graph.len() && p != row && 0 <= j < graph.len() ==> #[trigger] inverse.flag(
                p,
                j,
            ) == (start.flag(p, j) || (reaches(graph, false, j, row) && exists|k: int|
                0 <= k < ids.len() && (#[trigger] ids[k]) == p)),
    ensures
        dependents_from(inverse, graph, row),
{
    assert forall|i: int, j: int|
        0 <= i < inverse.size() && 0 <= j < inverse.size() implies #[trigger] inverse.flag(i, j)
        == ((i >= row && i == j) || exists|p: int, k: int|
        row <= p && #[trigger] steps(graph, false, p, k) && graph[p][k].to == i && reaches(
            graph,
            false,
            j,
            p,
        )) by {
        let old_side = exists|p: int, k: int|
            row + 1 <= p && #[trigger] steps(graph, false, p, k) && graph[p][k].to == i && reaches(
                graph,
                false,
                j,
                p,
            );
        let new_side = exists|p: int, k: int|
            row <= p && #[trigger] steps(graph, false, p, k) && graph[p][k].to == i && reaches(
                graph,
                false,
                j,
                p,
            );
        assert(start.flag(i, j) == ((i >= row + 1 && i == j) || old_side));
        if old_side {
            let (p, k) = choose|p: int, k: int|
                row + 1 <= p && #[trigger] steps(graph, false, p, k) && graph[p][k].to == i
                    && reaches(graph, false, j, p);
            assert(row <= p && steps(graph, false, p, k));
            assert(new_side);
        }
        if i == row {
            if j != row && reaches(graph, false, j, row) {
                let last = lemma_reaches_last_step(graph, false, j, row);
                assert(row <= last.0 && steps(graph, false, last.0, last.1));
                assert(new_side);
            }
            if new_side {
                let (p, k) = choose|p: int, k: int|
                    row <= p && #[trigger] steps(graph, false, p, k) && graph[p][k].to == i
                        && reaches(graph, false, j, p);
                lemma_reaches_direct(graph, false, p, k);
                lemma_reaches_transitive(graph, false, j, p, row);
            }
        } else {
            if reaches(graph, false, j, row) && exists|k: int|
                0 <= k < ids.len() && (#[trigger] ids[k]) == i {
                let k = choose|k: int| 0 <= k < ids.len() && (#[trigger] ids[k]) == i;
                assert(graph[row][k].to == ids[k]);
                assert(steps(graph, false, row, k));
                assert(new_side);
            }
            if new_side {
                let (p, k) = choose|p: int, k: int|
                    row <= p && #[trigger] steps(graph, false, p, k) && graph[p][k].to == i
                        && reaches(graph, false, j, p);
                if p == row {
                    assert(graph[row][k].to == ids[k]);
                    assert(ids[k] == i);
                } else {
                    assert(row + 1 <= p && steps(graph, false, p, k));
                    assert(old_side);
                }
            }
        }
    }
}

} // verus!

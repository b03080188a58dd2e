//! The systems of a context: their numbering, their dependencies, and what follows from those.
use crate::bits::max_bits;
use crate::bits::Bits;
use crate::const_type_id::ConstTypeId;
use crate::event_map::all_responding;
use crate::event_map::EventMap;
use crate::flags::SystemFlagsList;
use crate::graph::ordered;
use crate::graph::reaches;
use crate::graph::Link;
use crate::maps::map_new;
use crate::system::SystemHolder;
use crate::system::SystemInitializer;
use crate::system::NO_ID;
use crate::tables::compute_covered;
use crate::tables::compute_transitive_dependencies_inverse;
use crate::tables::covered;
use crate::tables::rows_reach;
use crate::traits::SystemCatalog;
use crate::traits::SystemDescriptor;
use fxhash::FxHashMap;
use vstd::prelude::*;

verus! {

/// The backing for a Geese context.
pub struct ContextInner<V> {
    /// The system types that are known.
    pub catalog: SystemCatalog,
    /// The set of events to which systems respond.
    pub event_handlers: EventMap,
    /// The thread on which the context was created.
    pub owning_thread: u64,
    /// The set of systems which (including all dependencies) may be shared across threads.
    pub sync_systems: Bits,
    /// The set of currently-loaded system initializers, by the key of the system type.
    pub system_initializers: FxHashMap<usize, SystemInitializer>,
    /// The set of loaded systems.
    pub systems: Vec<SystemHolder<V>>,
    /// The transitive dependency lists for each system.
    pub transitive_dependencies: SystemFlagsList,
    /// The lists of bidirectional dependencies for each system: all systems that can reach, or are
    /// reachable from, a single system.
    pub transitive_dependencies_bi: SystemFlagsList,
    /// The lists of mutable transitive dependencies for each system.
    pub transitive_dependencies_mut: SystemFlagsList,
}

/// Whether that many systems can be loaded: each has an ID, and a table has a flag for each pair.
pub open spec fn fits(count: int) -> bool {
    &&& count < NO_ID
    &&& count * count <= max_bits()
}

/// The key of the type of a loaded system.
pub open spec fn key_at<V>(systems: Seq<SystemHolder<V>>, i: int) -> usize {
    systems[i].system_id.key
}

/// The descriptors of the loaded systems, in the order of their IDs.
pub open spec fn descriptors_of<V>(
    catalog: Seq<SystemDescriptor>,
    systems: Seq<SystemHolder<V>>,
) -> Seq<SystemDescriptor> {
    Seq::new(systems.len(), |i: int| catalog[key_at(systems, i) as int])
}

/// The dependencies of a loaded system, as links to their IDs.
pub open spec fn links_of<V>(catalog: Seq<SystemDescriptor>, holder: SystemHolder<V>) -> Seq<Link> {
    Seq::new(
        holder.handle.dependency_ids@.len(),
        |k: int|
            Link {
                to: holder.handle.dependency_ids@[k] as int,
                mutable: catalog[holder.system_id.key as int].dependencies@[k].mutable,
            },
    )
}

/// The dependency lists of the loaded systems, as a graph over their IDs.
pub open spec fn graph_of<V>(
    catalog: Seq<SystemDescriptor>,
    systems: Seq<SystemHolder<V>>,
) -> Seq<Seq<Link>> {
    Seq::new(systems.len(), |i: int| links_of(catalog, systems[i]))
}

/// Whether every initializer belongs to a known system type, whose dependencies have initializers
/// too.
pub open spec fn initializers_wf(
    catalog: Seq<SystemDescriptor>,
    initializers: Map<usize, SystemInitializer>,
) -> bool {
    &&& forall|key: usize| #[trigger]
        initializers.dom().contains(key) ==> key < catalog.len() && initializers[key].descriptor
            == catalog[key as int]
    &&& forall|key: usize, k: int|
        #![trigger catalog[key as int].dependencies@[k]]
        initializers.dom().contains(key) && 0 <= k < catalog[key as int].dependencies@.len()
            ==> initializers.dom().contains(catalog[key as int].dependencies@[k].type_id.key)
}

/// Whether the IDs of the initializers are the places of their systems.
pub open spec fn numbered<V>(
    initializers: Map<usize, SystemInitializer>,
    systems: Seq<SystemHolder<V>>,
) -> bool {
    &&& forall|i: int|
        0 <= i < systems.len() ==> initializers.dom().contains(#[trigger] key_at(systems, i))
            && initializers[key_at(systems, i)].id == i
    &&& forall|key: usize| #[trigger]
        initializers.dom().contains(key) ==> initializers[key].id < systems.len() && key_at(
            systems,
            initializers[key].id as int,
        ) == key
}

/// Whether a holder knows its own ID and those of its dependencies, which come before it.
pub open spec fn handle_wf<V>(
    catalog: Seq<SystemDescriptor>,
    initializers: Map<usize, SystemInitializer>,
    holder: SystemHolder<V>,
    i: int,
) -> bool {
    let dependencies = catalog[holder.system_id.key as int].dependencies@;
    &&& holder.handle.id == i
    &&& holder.handle.dependency_ids@.len() == dependencies.len()
    &&& forall|k: int|
        0 <= k < dependencies.len() ==> #[trigger] holder.handle.dependency_ids@[k] < i
            && holder.handle.dependency_ids@[k] == initializers[dependencies[k].type_id.key].id
}

/// Whether all holders do.
pub open spec fn handles_wf<V>(
    catalog: Seq<SystemDescriptor>,
    initializers: Map<usize, SystemInitializer>,
    systems: Seq<SystemHolder<V>>,
) -> bool {
    forall|i: int|
        0 <= i < systems.len() ==> handle_wf(catalog, initializers, #[trigger] systems[i], i)
}

/// Whether a system may be shared across threads, which asks the same of all that it reaches.
pub open spec fn shareable(
    graph: Seq<Seq<Link>>,
    descriptors: Seq<SystemDescriptor>,
    i: int,
) -> bool {
    forall|j: int|
        0 <= j < descriptors.len() && #[trigger] reaches(graph, false, i, j) ==> descriptors[j].sync
}

/// Whether a list holds exactly those places below a bound that satisfy a condition, in ascending
/// order.
pub open spec fn ascending_exactly(
    ids: Seq<u16>,
    bound: int,
    condition: spec_fn(int) -> bool,
) -> bool {
    &&& forall|k: int|
        0 <= k < ids.len() ==> (#[trigger] ids[k]) < bound && condition(ids[k] as int)
    &&& forall|j: int, k: int| 0 <= j < k < ids.len() ==> ids[j] < ids[k]
    &&& forall|i: int| 0 <= i < bound && #[trigger] condition(i) ==> ids.contains(i as u16)
}

impl<V> ContextInner<V> {
    /// The number of loaded systems.
    pub open spec fn count(&self) -> int {
        self.systems@.len() as int
    }

    /// Whether a system type is loaded.
    pub open spec fn loaded(&self, key: usize) -> bool {
        self.system_initializers@.dom().contains(key)
    }

    /// The dependencies of the loaded systems, as a graph over their IDs.
    pub open spec fn graph(&self) -> Seq<Seq<Link>> {
        graph_of(self.catalog@, self.systems@)
    }

    /// The descriptors of the loaded systems.
    pub open spec fn descriptors(&self) -> Seq<SystemDescriptor> {
        descriptors_of(self.catalog@, self.systems@)
    }

    /// Whether every system has a number that agrees in all places, after those of its
    /// dependencies.
    pub open spec fn structured(&self) -> bool {
        &&& self.catalog.wf()
        &&& fits(self.count())
        &&& initializers_wf(self.catalog@, self.system_initializers@)
        &&& numbered(self.system_initializers@, self.systems@)
        &&& handles_wf(self.catalog@, self.system_initializers@, self.systems@)
    }

    /// Whether the tables hold what follows from the dependencies.
    pub open spec fn tabled(&self) -> bool {
        &&& self.transitive_dependencies.wf()
        &&& self.transitive_dependencies.size() == self.count()
        &&& rows_reach(&self.transitive_dependencies, self.graph(), false, self.count())
        &&& self.transitive_dependencies_mut.wf()
        &&& self.transitive_dependencies_mut.size() == self.count()
        &&& rows_reach(&self.transitive_dependencies_mut, self.graph(), true, self.count())
        &&& self.transitive_dependencies_bi.wf()
        &&& self.transitive_dependencies_bi.size() == self.count()
        &&& forall|i: int, j: int|
            0 <= i < self.count() && 0 <= j < self.count()
                ==> #[trigger] self.transitive_dependencies_bi.flag(i, j) == (reaches(
                self.graph(),
                false,
                i,
                j,
            ) || reaches(self.graph(), false, j, i))
        &&& self.sync_systems@.len() == self.count()
        &&& forall|i: int|
            0 <= i < self.count() ==> #[trigger] self.sync_systems@[i] == shareable(
                self.graph(),
                self.descriptors(),
                i,
            )
    }

    /// Whether the event handlers are those of the loaded systems, in the order of their IDs.
    pub open spec fn dispatching(&self) -> bool {
        forall|event: ConstTypeId| #[trigger]
            self.event_handlers.entries(event) == all_responding(self.descriptors(), event)
    }

    /// Whether everything that the context keeps agrees.
    pub open spec fn wf(&self) -> bool {
        &&& self.structured()
        &&& self.tabled()
        &&& self.dispatching()
    }

    /// Whether no system is borrowed.
    pub open spec fn unborrowed(&self) -> bool {
        forall|i: int| 0 <= i < self.count() ==> (#[trigger] self.systems@[i]).value.state() == 0
    }

    /// Creates a new inner context that has no systems, on the given thread.
    pub fn new(owning_thread: u64) -> (ctx: Self)
        ensures
            ctx.wf(),
            ctx.catalog@ == Seq::<SystemDescriptor>::empty(),
            ctx.owning_thread == owning_thread,
            ctx.system_initializers@.dom() == Set::<usize>::empty(),
            ctx.count() == 0,
    {
        let ctx = ContextInner {
            catalog: SystemCatalog::new(),
            event_handlers: EventMap::new(),
            owning_thread,
            sync_systems: Bits::repeat(false, 0),
            system_initializers: map_new(),
            systems: Vec::new(),
            transitive_dependencies: SystemFlagsList::new(false, 0),
            transitive_dependencies_bi: SystemFlagsList::new(false, 0),
            transitive_dependencies_mut: SystemFlagsList::new(false, 0),
        };
        ctx
    }

    /// Calculates which systems and their transitive dependencies may all be shared across
    /// threads, and stores the result.
    pub(crate) fn compute_sync_transitive_dependencies(&mut self)
        requires
            old(self).transitive_dependencies.wf(),
            old(self).transitive_dependencies.size() == old(self).count(),
            fits(old(self).count()),
            rows_reach(
                &old(self).transitive_dependencies,
                old(self).graph(),
                false,
                old(self).count(),
            ),
            old(self).sync_systems@.len() == old(self).count(),
            forall|i: int|
                0 <= i < old(self).count() ==> #[trigger] old(self).sync_systems@[i] == old(self).descriptors()[i].sync,
        ensures
            *final(self) == (ContextInner { sync_systems: final(self).sync_systems, ..*old(self) }),
            final(self).sync_systems@.len() == old(self).count(),
            forall|i: int|
                0 <= i < old(self).count() ==> #[trigger] final(self).sync_systems@[i] == shareable(
                    old(self).graph(),
                    old(self).descriptors(),
                    i,
                ),
    {
        proof {
            lemma_fits(self.count());
        }
        let syncs = compute_covered(&self.transitive_dependencies, &self.sync_systems);
        proof {
            let graph = self.graph();
            let descriptors = self.descriptors();
            assert forall|i: int| 0 <= i < self.count() implies #[trigger] syncs@[i] == shareable(
                graph,
                descriptors,
                i,
            ) by {
                let row = self.transitive_dependencies.row(i);
                assert forall|j: int| 0 <= j < self.count() implies #[trigger] row[j] == reaches(
                    graph,
                    false,
                    i,
                    j,
                ) by {
                    assert(self.transitive_dependencies.flag(i, j) == reaches(graph, false, i, j));
                }
                if covered(row, self.sync_systems@) {
                    assert forall|j: int|
                        0 <= j < descriptors.len() && #[trigger] reaches(
                            graph,
                            false,
                            i,
                            j,
                        ) implies descriptors[j].sync by {
                        assert(row[j]);
                        assert(self.sync_systems@[j]);
                    }
                }
                if shareable(graph, descriptors, i) {
                    assert forall|j: int| 0 <= j < row.len() && #[trigger] row[j] implies (
                    self.sync_systems@[j]) by {
                        assert(reaches(graph, false, i, j));
                    }
                }
            }
        }
        self.sync_systems = syncs;
    }

    /// Calculates the set of bidirectional dependencies, and stores it.
    pub(crate) fn compute_transitive_dependencies_bi(&mut self)
        requires
            old(self).structured(),
            old(self).transitive_dependencies.wf(),
            old(self).transitive_dependencies.size() == old(self).count(),
            rows_reach(
                &old(self).transitive_dependencies,
                old(self).graph(),
                false,
                old(self).count(),
            ),
        ensures
            *final(self) == (ContextInner {
                transitive_dependencies_bi: final(self).transitive_dependencies_bi,
                ..*old(self)
            }),
            final(self).transitive_dependencies_bi.wf(),
            final(self).transitive_dependencies_bi.size() == old(self).count(),
            forall|i: int, j: int|
                0 <= i < old(self).count() && 0 <= j < old(self).count()
                    ==> #[trigger] final(self).transitive_dependencies_bi.flag(i, j) == (reaches(
                    old(self).graph(),
                    false,
                    i,
                    j,
                ) || reaches(old(self).graph(), false, j, i)),
    {
        let ghost graph = self.graph();
        proof {
            lemma_graph_ordered(self.catalog@, self.system_initializers@, self.systems@);
        }
        self.transitive_dependencies_bi = compute_transitive_dependencies_inverse(
            &self.systems,
            Ghost(graph),
        );
        self.transitive_dependencies_bi.bitor_assign(&self.transitive_dependencies);
        proof {
            assert forall|i: int, j: int|
                0 <= i < self.count() && 0 <= j < self.count() implies #[trigger] self.transitive_dependencies_bi.flag(
            i, j) == (reaches(graph, false, i, j) || reaches(graph, false, j, i)) by {
                assert(self.transitive_dependencies.flag(i, j) == reaches(graph, false, i, j));
            }
        }
    }
}

/// What can be loaded can be counted by bits.
pub proof fn lemma_fits(count: int)
    requires
        fits(count),
        0 <= count,
    ensures
        count <= max_bits(),
{
    assert(count <= count * count) by (nonlinear_arith)
        requires
            0 <= count,
    ;
}

/// The dependencies of a loaded system come before it.
pub proof fn lemma_graph_ordered<V>(
    catalog: Seq<SystemDescriptor>,
    initializers: Map<usize, SystemInitializer>,
    systems: Seq<SystemHolder<V>>,
)
    requires
        handles_wf(catalog, initializers, systems),
    ensures
        ordered(graph_of(catalog, systems)),
{
    let graph = graph_of(catalog, systems);
    assert forall|i: int, k: int|
        0 <= i < graph.len() && 0 <= k < graph[i].len() implies 0 <= (#[trigger] graph[i][k]).to
        < i by {
        assert(handle_wf(catalog, initializers, systems[i], i));
        assert(systems[i].handle.dependency_ids@[k] < i);
    }
}

} // verus!

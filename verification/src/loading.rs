//! Loading of systems: finding the system types that are needed, and putting them in order.
use crate::const_type_id::ConstTypeId;
use crate::context::initializers_wf;
use crate::context::ContextInner;
use crate::graph::lemma_reaches_direct;
use crate::graph::lemma_reaches_transitive;
use crate::graph::reaches;
use crate::graph::steps;
use crate::maps::map_get;
use crate::maps::map_insert;
use crate::maps::map_keys;
use crate::small::KeyList;
use crate::sorting::sort_add_dependency;
use crate::sorting::sort_collect;
use crate::sorting::sort_insert;
use crate::sorting::sort_items;
use crate::sorting::sort_links;
use crate::sorting::sort_new;
use crate::static_eval::const_unwrap;
use crate::system::SystemInitializer;
use crate::system::NO_ID;
use crate::traits::follows;
use crate::traits::needs;
use crate::traits::type_graph;
use crate::traits::SystemCatalog;
use crate::traits::SystemDescriptor;
use vstd::prelude::*;

verus! {

/// The keys of the dependencies of a system type, in the order of its dependency list.
pub open spec fn dependency_keys(descriptor: SystemDescriptor) -> Seq<usize> {
    Seq::new(
        descriptor.dependencies@.len(),
        |k: int| descriptor.dependencies@[k].type_id.key,
    )
}

/// The number of keys below a bound that a set does not hold.
spec fn absent(keys: Set<usize>, bound: int) -> nat
    decreases bound,
{
    if bound <= 0 {
        0
    } else {
        absent(keys, bound - 1) + if keys.contains((bound - 1) as usize) {
            0nat
        } else {
            1nat
        }
    }
}

/// Adding a key that a set does not hold leaves one less that it does not hold.
proof fn lemma_absent_insert(keys: Set<usize>, key: usize, bound: int)
    requires
        0 <= bound <= usize::MAX + 1,
        !keys.contains(key),
    ensures
        absent(keys.insert(key), bound) == absent(keys, bound) - if key < bound {
            1int
        } else {
            0int
        },
    decreases bound,
{
    if bound > 0 {
        lemma_absent_insert(keys, key, bound - 1);
    }
}

/// A set of system types that holds the dependencies of each of its members holds all that they
/// need.
pub proof fn lemma_closed_under_needs(
    descriptors: Seq<SystemDescriptor>,
    keys: Set<usize>,
    from: int,
    to: int,
)
    requires
        descriptors.len() <= usize::MAX,
        0 <= from < descriptors.len(),
        keys.contains(from as usize),
        forall|key: usize, k: int|
            #![trigger descriptors[key as int].dependencies@[k]]
            keys.contains(key) && 0 <= k < descriptors[key as int].dependencies@.len()
                ==> keys.contains(descriptors[key as int].dependencies@[k].type_id.key),
        needs(descriptors, from, to),
    ensures
        keys.contains(to as usize),
        0 <= to < descriptors.len(),
    decreases from,
{
    let graph = type_graph(descriptors);
    if from != to {
        let k = choose|k: int| #[trigger]
            steps(graph, false, from, k) && reaches(graph, false, graph[from][k].to, to);
        let key = from as usize;
        assert(keys.contains(descriptors[key as int].dependencies@[k].type_id.key));
        lemma_closed_under_needs(descriptors, keys, graph[from][k].to, to);
    }
}

impl<V> ContextInner<V> {
    /// Adds a new system and all of its dependencies to the set of initializers.
    pub fn add_new_system(&mut self, system: ConstTypeId)
        requires
            old(self).catalog.wf(),
            initializers_wf(old(self).catalog@, old(self).system_initializers@),
            system.key < old(self).catalog@.len(),
            !old(self).loaded(system.key),
        ensures
            *final(self) == (ContextInner {
                system_initializers: final(self).system_initializers,
                ..*old(self)
            }),
            initializers_wf(final(self).catalog@, final(self).system_initializers@),
            forall|key: usize| #[trigger]
                final(self).loaded(key) <==> old(self).loaded(key) || needs(
                    old(self).catalog@,
                    system.key as int,
                    key as int,
                ),
            forall|key: usize| #[trigger]
                old(self).loaded(key) ==> final(self).system_initializers@[key]
                    == old(self).system_initializers@[key],
            forall|key: usize| #[trigger]
                final(self).loaded(key) && !old(self).loaded(key)
                    ==> final(self).system_initializers@[key] == (SystemInitializer {
                    descriptor: old(self).catalog@[key as int],
                    id: NO_ID,
                    top_level: key == system.key,
                }),
    {
        let ghost start = self.system_initializers@;
        let ghost descriptors = self.catalog@;
        let ghost graph = type_graph(descriptors);
        let mut to_process = KeyList::new();
        proof {
            self.catalog.lemma_fits();
        }
        self.add_system_and_load_dependencies(system.key, true, &mut to_process);
        proof {
            lemma_pending_dependencies(&self.catalog, system.key);
            assert forall|key: usize, k: int|
                #![trigger descriptors[key as int].dependencies@[k]]
                self.loaded(key) && 0 <= k < descriptors[key as int].dependencies@.len() implies {
                let dependency = descriptors[key as int].dependencies@[k].type_id.key;
                self.loaded(dependency) || to_process@.contains(dependency)
            } by {
                if key == system.key {
                    assert(to_process@[k] == descriptors[key as int].dependencies@[k].type_id.key);
                } else {
                    assert(start.dom().contains(key));
                }
            }
        }
        loop
            invariant
                self.catalog.wf(),
                self.catalog@ == descriptors,
                descriptors.len() <= usize::MAX,
                graph == type_graph(descriptors),
                start == old(self).system_initializers@,
                !start.dom().contains(system.key),
                system.key < descriptors.len(),
                *self == (ContextInner {
                    system_initializers: self.system_initializers,
                    ..*old(self)
                }),
                self.loaded(system.key),
                initializers_wf(descriptors, start),
                forall|key: usize| #[trigger]
                    start.dom().contains(key) ==> self.loaded(key)
                        && self.system_initializers@[key] == start[key],
                forall|key: usize| #[trigger]
                    self.loaded(key) && !start.dom().contains(key) ==> needs(
                        descriptors,
                        system.key as int,
                        key as int,
                    ) && key < descriptors.len() && self.system_initializers@[key] == (
                    SystemInitializer {
                        descriptor: descriptors[key as int],
                        id: NO_ID,
                        top_level: key == system.key,
                    }),
                forall|p: int|
                    0 <= p < to_process@.len() ==> (#[trigger] to_process@[p]) < descriptors.len()
                        && needs(descriptors, system.key as int, to_process@[p] as int),
                forall|key: usize, k: int|
                    #![trigger descriptors[key as int].dependencies@[k]]
                    self.loaded(key) && 0 <= k < descriptors[key as int].dependencies@.len() ==> {
                        let dependency = descriptors[key as int].dependencies@[k].type_id.key;
                        self.loaded(dependency) || to_process@.contains(dependency)
                    },
            ensures
                to_process@.len() == 0,
            decreases
                    absent(self.system_initializers@.dom(), descriptors.len() as int),
                    to_process@.len(),
        {
            let ghost head = *self;
            let ghost before = self.system_initializers@;
            let ghost pending = to_process@;
            match to_process.pop() {
                Some(key) => {
                    let ghost rest = to_process@;
                    assert(key == pending[pending.len() - 1]);
                    self.add_system_and_load_dependencies(key, false, &mut to_process);
                    proof {
                        lemma_pending_dependencies(&self.catalog, key);
                        assert forall|other: usize| #[trigger]
                            self.loaded(other) && !start.dom().contains(other) implies needs(
                            descriptors,
                            system.key as int,
                            other as int,
                        ) && other < descriptors.len() && self.system_initializers@[other] == (
                        SystemInitializer {
                            descriptor: descriptors[other as int],
                            id: NO_ID,
                            top_level: other == system.key,
                        }) by {
                            if before.dom().contains(other) {
                                assert(head.loaded(other));
                                assert(self.system_initializers@[other] == before[other]);
                            } else {
                                assert(other == key);
                                assert(before.dom().contains(system.key));
                            }
                        }
                        if !before.dom().contains(key) {
                            lemma_absent_insert(before.dom(), key, descriptors.len() as int);
                            assert(self.system_initializers@.dom() =~= before.dom().insert(key));
                            assert forall|p: int| 0 <= p < to_process@.len() implies (
                            #[trigger] to_process@[p]) < descriptors.len() && needs(
                                descriptors,
                                system.key as int,
                                to_process@[p] as int,
                            ) by {
                                if p < rest.len() {
                                    assert(to_process@[p] == pending[p]);
                                } else {
                                    let k = p - rest.len();
                                    assert(to_process@[p]
                                        == descriptors[key as int].dependencies@[k].type_id.key);
                                    assert(steps(graph, false, key as int, k));
                                    lemma_reaches_direct(graph, false, key as int, k);
                                    lemma_reaches_transitive(
                                        graph,
                                        false,
                                        system.key as int,
                                        key as int,
                                        to_process@[p] as int,
                                    );
                                }
                            }
                        }
                        assert forall|other: usize, k: int|
                            #![trigger descriptors[other as int].dependencies@[k]]
                            self.loaded(other) && 0 <= k
                                < descriptors[other as int].dependencies@.len() implies {
                            let dependency = descriptors[other as int].dependencies@[k].type_id.key;
                            self.loaded(dependency) || to_process@.contains(dependency)
                        } by {
                            let dependency = descriptors[other as int].dependencies@[k].type_id.key;
                            if other == key && !before.dom().contains(key) {
                                assert(to_process@[rest.len() + k] == dependency);
                            } else {
                                assert(before.dom().contains(other));
                                if !self.loaded(dependency) {
                                    let p = choose|p: int|
                                        0 <= p < pending.len() && pending[p] == dependency;
                                    assert(p < rest.len());
                                    assert(to_process@[p] == dependency);
                                }
                            }
                        }
                    }
                },
                None => {
                    break ;
                },
            }
        }
        proof {
            assert forall|key: usize| #[trigger]
                self.system_initializers@.dom().contains(key) implies key < self.catalog@.len()
                && self.system_initializers@[key].descriptor == self.catalog@[key as int] by {
                assert(self.loaded(key));
                if start.dom().contains(key) {
                    assert(start[key].descriptor == descriptors[key as int]);
                }
            }
            assert forall|key: usize, k: int|
                #![trigger self.catalog@[key as int].dependencies@[k]]
                self.system_initializers@.dom().contains(key) && 0 <= k
                    < self.catalog@[key as int].dependencies@.len() implies (
            self.system_initializers@.dom().contains(
                self.catalog@[key as int].dependencies@[k].type_id.key,
            )) by {
                assert(self.loaded(key));
                assert(descriptors[key as int].dependencies@[k] == self.catalog@[key as int].dependencies@[k]);
            }
            assert forall|key: usize| #[trigger] self.loaded(key) <==> old(self).loaded(key)
                || needs(descriptors, system.key as int, key as int) by {
                if needs(descriptors, system.key as int, key as int) {
                    lemma_closed_under_needs(
                        descriptors,
                        self.system_initializers@.dom(),
                        system.key as int,
                        key as int,
                    );
                }
            }
        }
    }

    /// Adds the system with the given key to the set of initializers, and pushes all of the
    /// dependencies to process into the queue. A system that is not top-level is only added if it
    /// has not been added before.
    fn add_system_and_load_dependencies(
        &mut self,
        key: usize,
        top_level: bool,
        to_process: &mut KeyList,
    )
        requires
            old(self).catalog.wf(),
            key < old(self).catalog@.len(),
        ensures
            *final(self) == (ContextInner {
                system_initializers: final(self).system_initializers,
                ..*old(self)
            }),
            if top_level || !old(self).loaded(key) {
                &&& final(self).system_initializers@ == old(self).system_initializers@.insert(
                    key,
                    SystemInitializer {
                        descriptor: old(self).catalog@[key as int],
                        id: NO_ID,
                        top_level,
                    },
                )
                &&& final(to_process)@ == old(to_process)@ + dependency_keys(
                    old(self).catalog@[key as int],
                )
            } else {
                &&& final(self).system_initializers@ == old(self).system_initializers@
                &&& final(to_process)@ == old(to_process)@
            },
    {
        if top_level || map_get(&self.system_initializers, key).is_none() {
            let descriptor = self.catalog.descriptor(ConstTypeId { key });
            let ghost list = descriptor.dependencies@;
            let ghost wanted = dependency_keys(descriptor);
            proof {
                assert(follows(self.catalog@.take(key as int), self.catalog@[key as int]));
            }
            let mut i: usize = 0;
            assert(wanted.take(0) =~= Seq::empty());
            assert(to_process@ =~= old(to_process)@ + wanted.take(0));
            while i < descriptor.dependency_len()
                invariant
                    list == descriptor.dependencies@,
                    list.len() <= usize::MAX,
                    wanted == dependency_keys(descriptor),
                    i <= list.len(),
                    to_process@ == old(to_process)@ + wanted.take(i as int),
                decreases list.len() - i,
            {
                let dependency = const_unwrap(descriptor.dependencies().as_inner().get(i));
                to_process.push(dependency.dependency_id().key);
                i = i + 1;
                assert(to_process@ =~= old(to_process)@ + wanted.take(i as int));
            }
            assert(wanted.take(i as int) =~= wanted);
            map_insert(
                &mut self.system_initializers,
                key,
                SystemInitializer::new(descriptor, top_level),
            );
        }
    }
}

/// The dependencies of a known system type are needed by it, and are known.
proof fn lemma_pending_dependencies(catalog: &SystemCatalog, key: usize)
    requires
        catalog.wf(),
        key < catalog@.len(),
    ensures
        forall|k: int|
            0 <= k < catalog@[key as int].dependencies@.len() ==> (
            #[trigger] catalog@[key as int].dependencies@[k]).type_id.key < key && steps(
                type_graph(catalog@),
                false,
                key as int,
                k,
            ) && needs(
                catalog@,
                key as int,
                catalog@[key as int].dependencies@[k].type_id.key as int,
            ),
{
    let graph = type_graph(catalog@);
    assert(follows(catalog@.take(key as int), catalog@[key as int]));
    assert forall|k: int| 0 <= k < catalog@[key as int].dependencies@.len() implies (
    #[trigger] catalog@[key as int].dependencies@[k]).type_id.key < key && steps(
        graph,
        false,
        key as int,
        k,
    ) && needs(
        catalog@,
        key as int,
        catalog@[key as int].dependencies@[k].type_id.key as int,
    ) by {
        assert(catalog@[key as int].dependencies@[k].type_id.key < catalog@.take(key as int).len());
        assert(steps(graph, false, key as int, k));
        lemma_reaches_direct(graph, false, key as int, k);
    }
}

/// Whether a sequence of system types holds exactly those that have initializers, once each, and
/// every one after those that it depends on.
pub open spec fn dependency_order(
    catalog: Seq<SystemDescriptor>,
    initializers: Map<usize, SystemInitializer>,
    order: Seq<usize>,
) -> bool {
    &&& order.no_duplicates()
    &&& forall|key: usize| #[trigger] order.contains(key) <==> initializers.dom().contains(key)
    &&& forall|p: int, k: int|
        0 <= p < order.len() && 0 <= k < catalog[order[p] as int].dependencies@.len()
            ==> order.take(p).contains(
            (#[trigger] catalog[order[p] as int].dependencies@[k]).type_id.key,
        )
}

impl<V> ContextInner<V> {
    /// Topologically sorts all systems in the map, producing a vector sorted such that all
    /// dependencies come before their dependents.
    pub fn topological_sort_systems(&self) -> (order: Vec<usize>)
        requires
            self.catalog.wf(),
            initializers_wf(self.catalog@, self.system_initializers@),
        ensures
            dependency_order(self.catalog@, self.system_initializers@, order@),
    {
        let ghost catalog = self.catalog@;
        let ghost dom = self.system_initializers@.dom();
        let mut sort = sort_new();
        let keys = map_keys(&self.system_initializers);
        proof {
            assert forall|i: int| 0 <= i < keys@.len() implies dom.contains(#[trigger] keys@[i]) by {
                assert(keys@.to_set().contains(keys@[i]));
            }
        }
        let mut i: usize = 0;
        while i < keys.len()
            invariant
                self.catalog.wf(),
                initializers_wf(self.catalog@, self.system_initializers@),
                catalog == self.catalog@,
                dom == self.system_initializers@.dom(),
                forall|p: int| 0 <= p < keys@.len() ==> dom.contains(#[trigger] keys@[p]),
                i <= keys@.len(),
                forall|key: usize| #[trigger] sort_items(sort).contains(key) ==> dom.contains(key),
                forall|p: int| 0 <= p < i ==> sort_items(sort).contains(#[trigger] keys@[p]),
                forall|a: usize, b: usize| #[trigger]
                    sort_links(sort).contains((a, b)) <==> keys@.take(i as int).contains(b)
                        && dependency_keys(catalog[b as int]).contains(a),
            decreases keys@.len() - i,
        {
            let key: usize = keys[i];
            assert(dom.contains(keys@[i as int]));
            let descriptor = self.catalog.descriptor(ConstTypeId { key });
            let ghost list = descriptor.dependencies@;
            let ghost wanted = dependency_keys(descriptor);
            let ghost before = sort_links(sort);
            proof {
                assert(follows(catalog.take(key as int), catalog[key as int]));
                assert forall|k: int| 0 <= k < list.len() implies dom.contains(
                    (#[trigger] list[k]).type_id.key,
                ) by {
                    assert(list[k] == catalog[key as int].dependencies@[k]);
                }
            }
            sort_insert(&mut sort, key);
            let mut d: usize = 0;
            while d < descriptor.dependency_len()
                invariant
                    list == descriptor.dependencies@,
                    list.len() <= usize::MAX,
                    wanted == dependency_keys(descriptor),
                    forall|k: int| 0 <= k < list.len() ==> dom.contains(
                        (#[trigger] list[k]).type_id.key,
                    ),
                    dom.contains(key),
                    i < keys@.len(),
                    key == keys@[i as int],
                    d <= list.len(),
                    forall|key: usize| #[trigger]
                        sort_items(sort).contains(key) ==> dom.contains(key),
                    forall|p: int| 0 <= p <= i ==> sort_items(sort).contains(#[trigger] keys@[p]),
                    forall|a: usize, b: usize| #[trigger]
                        sort_links(sort).contains((a, b)) <==> before.contains((a, b)) || (b == key
                            && wanted.take(d as int).contains(a)),
                decreases list.len() - d,
            {
                let dependency = const_unwrap(descriptor.dependencies().as_inner().get(d));
                let ghost links = sort_links(sort);
                let first: usize = dependency.dependency_id().key;
                sort_add_dependency(&mut sort, first, key);
                proof {
                    assert(wanted[d as int] == first);
                    assert(wanted.take(d + 1) =~= wanted.take(d as int).push(first));
                    assert forall|a: usize, b: usize| #[trigger]
                        sort_links(sort).contains((a, b)) <==> before.contains((a, b)) || (b == key
                            && wanted.take(d + 1).contains(a)) by {
                        lemma_push_contains(wanted.take(d as int), first, a);
                        assert(links.contains((a, b)) || !links.contains((a, b)));
                    }
                }
                d = d + 1;
            }
            proof {
                assert(wanted.take(d as int) =~= wanted);
                assert(keys@.take(i + 1) =~= keys@.take(i as int).push(key));
                assert forall|a: usize, b: usize| #[trigger]
                    sort_links(sort).contains((a, b)) <==> keys@.take(i + 1).contains(b)
                        && dependency_keys(catalog[b as int]).contains(a) by {
                    lemma_push_contains(keys@.take(i as int), key, b);
                    assert(before.contains((a, b)) || !before.contains((a, b)));
                }
            }
            i = i + 1;
        }
        let ghost items = sort_items(sort);
        let ghost links = sort_links(sort);
        let order = sort_collect(sort);
        proof {
            assert(keys@.take(i as int) =~= keys@);
            assert forall|key: usize| #[trigger] order@.contains(key) <==> dom.contains(key) by {
                if order@.contains(key) {
                    let p = choose|p: int| 0 <= p < order@.len() && order@[p] == key;
                    assert(items.contains(order@[p]));
                }
                if dom.contains(key) {
                    assert(keys@.to_set().contains(key));
                    let p = choose|p: int| 0 <= p < keys@.len() && keys@[p] == key;
                    assert(items.contains(keys@[p]));
                    lemma_all_sorted(&self.catalog, keys@, items, links, order@, key);
                }
            }
            assert forall|p: int, k: int|
                0 <= p < order@.len() && 0 <= k
                    < catalog[order@[p] as int].dependencies@.len() implies order@.take(
                p,
            ).contains((#[trigger] catalog[order@[p] as int].dependencies@[k]).type_id.key) by {
                let key = order@[p];
                let first = catalog[key as int].dependencies@[k].type_id.key;
                assert(items.contains(key));
                assert(keys@.to_set().contains(key));
                assert(dependency_keys(catalog[key as int])[k] == first);
                assert(links.contains((first, key)));
            }
        }
        order
    }
}

/// What a sequence holds after an item was pushed.
pub proof fn lemma_push_contains<T>(items: Seq<T>, item: T, other: T)
    ensures
        items.push(item).contains(other) <==> items.contains(other) || other == item,
{
    let longer = items.push(item);
    if items.contains(other) {
        let i = choose|i: int| 0 <= i < items.len() && items[i] == other;
        assert(longer[i] == other);
    }
    if other == item {
        assert(longer[items.len() as int] == other);
    }
}

/// A sort comes to every system type, as a type that stayed behind would leave one with a smaller
/// key behind, too.
proof fn lemma_all_sorted(
    catalog: &SystemCatalog,
    keys: Seq<usize>,
    items: Set<usize>,
    links: Set<(usize, usize)>,
    order: Seq<usize>,
    key: usize,
)
    requires
        catalog.wf(),
        items.contains(key),
        forall|other: usize| #[trigger] items.contains(other) ==> other < catalog@.len(),
        forall|i: int| 0 <= i < keys.len() ==> items.contains(#[trigger] keys[i]),
        forall|other: usize, k: int|
            #![trigger catalog@[other as int].dependencies@[k]]
            items.contains(other) && 0 <= k < catalog@[other as int].dependencies@.len()
                ==> items.contains(catalog@[other as int].dependencies@[k].type_id.key),
        forall|a: usize, b: usize| #[trigger]
            links.contains((a, b)) <==> keys.contains(b) && dependency_keys(
                catalog@[b as int],
            ).contains(a),
        forall|item: usize| #[trigger]
            items.contains(item) && !order.contains(item) ==> exists|first: usize| #[trigger]
                links.contains((first, item)) && !order.contains(first),
    ensures
        order.contains(key),
    decreases key,
{
    if !order.contains(key) {
        let first = choose|first: usize| #[trigger]
            links.contains((first, key)) && !order.contains(first);
        let wanted = dependency_keys(catalog@[key as int]);
        let k = choose|k: int| 0 <= k < wanted.len() && wanted[k] == first;
        assert(follows(catalog@.take(key as int), catalog@[key as int]));
        assert(catalog@[key as int].dependencies@[k].type_id.key == first);
        lemma_all_sorted(catalog, keys, items, links, order, first);
    }
}

} // verus!

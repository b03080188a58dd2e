//! Descriptions of systems: their dependencies, their event handlers and the properties of their
//! types.
use crate::const_list::ConstList;
use crate::const_type_id::ConstTypeId;
use crate::graph::law_reaching_follows_paths;
use crate::graph::leads;
use crate::graph::linked;
use crate::graph::ordered;
use crate::graph::reaches;
use crate::graph::steps;
use crate::graph::Link;
use crate::static_eval::const_unwrap;
use vstd::prelude::*;

verus! {

/// Describes one system's dependency on another.
pub trait Dependency: Sized {
    /// The system that is depended upon.
    spec fn target(&self) -> ConstTypeId;

    /// Whether the dependency may be mutably borrowed.
    spec fn is_mutable(&self) -> bool;

    /// Gets the type ID of the system that is depended upon.
    fn system(&self) -> (id: ConstTypeId)
        ensures
            id == self.target(),
    ;

    /// Determines whether the dependency may be mutably borrowed.
    fn mutable(&self) -> (result: bool)
        ensures
            result == self.is_mutable(),
    ;
}

impl Dependency for ConstTypeId {
    open spec fn target(&self) -> ConstTypeId {
        *self
    }

    open spec fn is_mutable(&self) -> bool {
        false
    }

    fn system(&self) -> (id: ConstTypeId) {
        *self
    }

    fn mutable(&self) -> (result: bool) {
        false
    }
}

/// Marks that a dependency may be mutably borrowed.
#[derive(Copy, Clone, Debug)]
pub struct Mut(pub ConstTypeId);

impl Dependency for Mut {
    open spec fn target(&self) -> ConstTypeId {
        self.0
    }

    open spec fn is_mutable(&self) -> bool {
        true
    }

    fn system(&self) -> (id: ConstTypeId) {
        self.0
    }

    fn mutable(&self) -> (result: bool) {
        true
    }
}

/// Describes a system dependency.
#[derive(Copy, Clone, Debug)]
pub struct DependencyHolder {
    /// Whether this dependency may be mutably borrowed.
    pub mutable: bool,
    /// The type ID of the system.
    pub type_id: ConstTypeId,
}

impl DependencyHolder {
    /// Creates a holder for the provided dependency.
    pub fn new<S: Dependency>(dependency: &S) -> (holder: Self)
        ensures
            holder.mutable == dependency.is_mutable(),
            holder.type_id == dependency.target(),
    {
        DependencyHolder { mutable: dependency.mutable(), type_id: dependency.system() }
    }

    /// Gets the type ID of this dependency.
    pub fn dependency_id(&self) -> (id: ConstTypeId)
        ensures
            id == self.type_id,
    {
        self.type_id
    }

    /// Determines whether this dependency may be mutably borrowed.
    pub fn mutable(&self) -> (result: bool)
        ensures
            result == self.mutable,
    {
        self.mutable
    }
}

/// Denotes a list of system dependencies.
#[derive(Copy, Clone, Debug)]
pub struct Dependencies {
    /// The inner list of dependencies.
    inner: ConstList<'static, DependencyHolder>,
}

impl View for Dependencies {
    type V = Seq<DependencyHolder>;

    closed spec fn view(&self) -> Seq<DependencyHolder> {
        self.inner@
    }
}

/// Whether the place is the first one in a list at which a system stands.
pub open spec fn first_at(list: Seq<DependencyHolder>, system: ConstTypeId, place: int) -> bool {
    &&& 0 <= place < list.len()
    &&& list[place].type_id == system
    &&& forall|j: int| 0 <= j < place ==> (#[trigger] list[j]).type_id != system
}

/// Whether some system stands twice in a list.
pub open spec fn repeats(list: Seq<DependencyHolder>) -> bool {
    exists|i: int, j: int|
        0 <= i < j < list.len() && (#[trigger] list[i]).type_id == (#[trigger] list[j]).type_id
}

impl Dependencies {
    /// Creates a new, empty list of dependencies.
    fn new() -> (list: Self)
        ensures
            list@ == Seq::<DependencyHolder>::empty(),
    {
        Dependencies { inner: ConstList::new() }
    }

    /// Adds the given system to the beginning of the dependency list, returning the modified list.
    pub fn with<S: Dependency>(&'static self, dependency: S) -> (list: Self)
        ensures
            list@ == seq![
                DependencyHolder {
                    mutable: dependency.is_mutable(),
                    type_id: dependency.target(),
                },
            ] + self@,
    {
        Dependencies { inner: self.inner.push(DependencyHolder::new(&dependency)) }
    }

    /// Gets a reference to the inner list of dependency holders.
    pub fn as_inner(&self) -> (list: &ConstList<'static, DependencyHolder>)
        ensures
            list@ == self@,
    {
        &self.inner
    }

    /// Determines the local index in this dependency list of the provided system.
    pub fn index_of(&self, system: ConstTypeId) -> (index: Option<usize>)
        requires
            self@.len() <= usize::MAX,
        ensures
            match index {
                Some(index) => first_at(self@, system, index as int) && index < self@.len()
                    && self@[index as int].type_id == system && forall|j: int|
                    0 <= j < index ==> (#[trigger] self@[j]).type_id != system,
                None => forall|j: int|
                    0 <= j < self@.len() ==> (#[trigger] self@[j]).type_id != system,
            },
    {
        let mut i: usize = 0;
        while i < self.inner.len()
            invariant
                i <= self@.len(),
                self@.len() <= usize::MAX,
                self@ == self.inner@,
                forall|j: int| 0 <= j < i ==> (#[trigger] self@[j]).type_id != system,
            decreases self@.len() - i,
        {
            if const_unwrap(self.inner.get(i)).dependency_id().eq(&system) {
                return Some(i);
            }
            i = i + 1;
        }
        None
    }
}

/// Creates a new, empty list of dependencies.
pub fn dependencies() -> (list: Dependencies)
    ensures
        list@ == Seq::<DependencyHolder>::empty(),
{
    Dependencies::new()
}

/// Identifies the function that handles an event.
#[derive(Copy, Clone, Debug, PartialEq, Eq, Structural)]
pub struct EventInvoker {
    /// The number under which the handler function is known, if there is one.
    pub handler: Option<u64>,
}

impl EventInvoker {
    /// Creates a new event invoker for the handler function with the given number.
    pub fn new(handler: u64) -> (invoker: Self)
        ensures
            invoker.handler == Some(handler),
    {
        EventInvoker { handler: Some(handler) }
    }
}

impl Default for EventInvoker {
    fn default() -> (invoker: Self)
        ensures
            invoker.handler is None,
    {
        EventInvoker { handler: None }
    }
}

/// Describes an event handler for a system.
#[derive(Copy, Clone, Debug)]
pub struct EventHandler {
    /// The type ID of the event.
    event_id: ConstTypeId,
    /// The event handler function.
    handler: EventInvoker,
}

impl EventHandler {
    /// The type of the event to which this handler responds.
    pub closed spec fn event(&self) -> ConstTypeId {
        self.event_id
    }

    /// The function that handles the event.
    pub closed spec fn invoker(&self) -> EventInvoker {
        self.handler
    }

    /// Creates a new event handler for events of the given type.
    pub fn new(event_id: ConstTypeId, handler: EventInvoker) -> (result: Self)
        ensures
            result.event() == event_id,
            result.invoker() == handler,
    {
        EventHandler { event_id, handler }
    }

    /// Gets the type ID of the event to which this handler responds.
    pub fn event_id(&self) -> (id: ConstTypeId)
        ensures
            id == self.event(),
    {
        self.event_id
    }

    /// Obtains a reference to the event handler function.
    pub fn handler(&self) -> (invoker: &EventInvoker)
        ensures
            *invoker == self.invoker(),
    {
        &self.handler
    }
}

/// Denotes a list of system methods that respond to events.
#[derive(Copy, Clone, Debug)]
pub struct EventHandlers {
    /// The inner list of event handlers.
    inner: ConstList<'static, EventHandler>,
}

impl View for EventHandlers {
    type V = Seq<EventHandler>;

    closed spec fn view(&self) -> Seq<EventHandler> {
        self.inner@
    }
}

impl EventHandlers {
    /// Creates a new, empty list of event handlers.
    fn new() -> (list: Self)
        ensures
            list@ == Seq::<EventHandler>::empty(),
    {
        EventHandlers { inner: ConstList::new() }
    }

    /// Adds the given event handler to the beginning of the list, returning the modified list.
    pub fn with(&'static self, handler: EventHandler) -> (list: Self)
        ensures
            list@ == seq![handler] + self@,
    {
        EventHandlers { inner: self.inner.push(handler) }
    }

    /// Gets a reference to the inner list of event handlers.
    pub fn as_inner(&self) -> (list: &ConstList<'static, EventHandler>)
        ensures
            list@ == self@,
    {
        &self.inner
    }
}

/// Creates a new, empty list of event handlers.
pub fn event_handlers() -> (list: EventHandlers)
    ensures
        list@ == Seq::<EventHandler>::empty(),
{
    EventHandlers::new()
}

/// Describes a system's properties.
#[derive(Copy, Clone, Debug)]
pub struct SystemDescriptor {
    /// The set of dependencies that the system has.
    pub dependencies: Dependencies,
    /// The event handlers associated with the system.
    pub event_handlers: EventHandlers,
    /// Whether the type may be safely sent across threads.
    pub send: bool,
    /// Whether references to the type may be safely shared across threads.
    pub sync: bool,
    /// The type ID associated with the system.
    pub system_id: ConstTypeId,
}

impl SystemDescriptor {
    /// The set of dependencies that this system has.
    pub fn dependencies(&self) -> (result: &Dependencies)
        ensures
            *result == self.dependencies,
    {
        &self.dependencies
    }

    /// The number of dependencies that this system has.
    pub fn dependency_len(&self) -> (len: usize)
        requires
            self.dependencies@.len() <= usize::MAX,
        ensures
            len == self.dependencies@.len(),
    {
        self.dependencies.as_inner().len()
    }

    /// The event handlers associated with this system.
    pub fn event_handlers(&self) -> (result: &EventHandlers)
        ensures
            *result == self.event_handlers,
    {
        &self.event_handlers
    }

    /// Whether this type may be safely sent across threads.
    pub fn is_send(&self) -> (result: bool)
        ensures
            result == self.send,
    {
        self.send
    }

    /// Whether references to this type may be safely shared across threads.
    pub fn is_sync(&self) -> (result: bool)
        ensures
            result == self.sync,
    {
        self.sync
    }

    /// Gets the type ID associated with the given system.
    pub fn system_id(&self) -> (id: ConstTypeId)
        ensures
            id == self.system_id,
    {
        self.system_id
    }
}

/// The descriptors of all system types that are known. The key of a system type is its place
/// here, and a system only depends on system types that were known before it.
pub struct SystemCatalog {
    /// The descriptors.
    descriptors: Vec<SystemDescriptor>,
}

impl View for SystemCatalog {
    type V = Seq<SystemDescriptor>;

    closed spec fn view(&self) -> Seq<SystemDescriptor> {
        self.descriptors@
    }
}

/// The dependency lists of system types, as a graph over their keys.
pub open spec fn type_graph(descriptors: Seq<SystemDescriptor>) -> Seq<Seq<Link>> {
    Seq::new(descriptors.len(), |key: int| type_links(descriptors[key]))
}

/// The dependencies of one system type, as links to their keys.
pub open spec fn type_links(descriptor: SystemDescriptor) -> Seq<Link> {
    Seq::new(
        descriptor.dependencies@.len(),
        |k: int|
            Link {
                to: descriptor.dependencies@[k].type_id.key as int,
                mutable: descriptor.dependencies@[k].mutable,
            },
    )
}

/// Whether a system type needs another one: it is that type, or depends on it directly or through
/// others.
pub open spec fn needs(descriptors: Seq<SystemDescriptor>, system: int, other: int) -> bool {
    reaches(type_graph(descriptors), false, system, other)
}

/// Whether a list of dependencies, or that of any system that it leads to, holds a system twice.
pub open spec fn duplicates_within(
    descriptors: Seq<SystemDescriptor>,
    list: Seq<DependencyHolder>,
    bound: int,
) -> bool
    decreases bound,
{
    ||| repeats(list)
    ||| exists|i: int|
        0 <= i < list.len() && (#[trigger] list[i]).type_id.key < bound && list[i].type_id.key
            < descriptors.len() && duplicates_within(
            descriptors,
            descriptors[list[i].type_id.key as int].dependencies@,
            list[i].type_id.key as int,
        )
}

/// Whether a descriptor could follow on the given ones.
pub open spec fn follows(descriptors: Seq<SystemDescriptor>, next: SystemDescriptor) -> bool {
    &&& next.system_id.key == descriptors.len()
    &&& next.dependencies@.len() <= usize::MAX
    &&& next.event_handlers@.len() <= usize::MAX
    &&& forall|k: int|
        0 <= k < next.dependencies@.len() ==> (#[trigger] next.dependencies@[k]).type_id.key
            < descriptors.len()
}

impl SystemCatalog {
    /// Whether every system type stands at its key, after those that it depends on.
    pub open spec fn wf(&self) -> bool {
        forall|key: int|
            0 <= key < self@.len() ==> follows(self@.take(key), #[trigger] self@[key])
    }

    /// Whether a system type, or any that it needs, has a list of dependencies that holds a system
    /// twice.
    pub open spec fn has_duplicates(&self, list: Seq<DependencyHolder>) -> bool {
        duplicates_within(self@, list, self@.len() as int)
    }

    /// The number of system types that are known is a machine integer.
    pub proof fn lemma_fits(&self)
        ensures
            self@.len() <= usize::MAX,
    {
        assert(self.descriptors@.len() == self.descriptors.len());
    }

    /// Creates a catalog in which no system type is known.
    pub fn new() -> (catalog: Self)
        ensures
            catalog.wf(),
            catalog@ == Seq::<SystemDescriptor>::empty(),
    {
        SystemCatalog { descriptors: Vec::new() }
    }

    /// Gets the number of system types that are known.
    pub fn len(&self) -> (len: usize)
        ensures
            len == self@.len(),
    {
        self.descriptors.len()
    }

    /// Makes a system type known. Its key must be the next one, and the types that it depends on
    /// must be known.
    pub fn register(&mut self, descriptor: SystemDescriptor)
        requires
            old(self).wf(),
            follows(old(self)@, descriptor),
        ensures
            final(self).wf(),
            final(self)@ == old(self)@.push(descriptor),
    {
        self.descriptors.push(descriptor);
        proof {
            assert forall|key: int| 0 <= key < self@.len() implies follows(
                self@.take(key),
                #[trigger] self@[key],
            ) by {
                if key < old(self)@.len() {
                    assert(follows(old(self)@.take(key), old(self)@[key]));
                    assert(self@.take(key) =~= old(self)@.take(key));
                } else {
                    assert(self@.take(key) =~= old(self)@);
                }
            }
        }
    }

    /// Gets the descriptor of a system type.
    pub fn descriptor(&self, system: ConstTypeId) -> (descriptor: SystemDescriptor)
        requires
            system.key < self@.len(),
        ensures
            descriptor == self@[system.key as int],
    {
        self.descriptors[system.key]
    }

    /// Determines whether the given list of dependencies, or any subdependency lists,
    /// have unnecessary duplicates.
    pub fn has_duplicate_dependencies(&self, dependencies: &Dependencies) -> (result: bool)
        requires
            self.wf(),
            dependencies@.len() <= usize::MAX,
            forall|k: int|
                0 <= k < dependencies@.len() ==> (#[trigger] dependencies@[k]).type_id.key
                    < self@.len(),
        ensures
            result == self.has_duplicates(dependencies@),
            (exists|i: int, j: int|
                0 <= i < j < dependencies@.len() && (#[trigger] dependencies@[i]).type_id == (
                #[trigger] dependencies@[j]).type_id) ==> result,
    {
        proof {
            law_different_dependencies_are_no_duplicates(self, dependencies@);
        }
        self.duplicate_dependencies_below(dependencies, self.len())
    }

    /// Determines the same for a list that only holds systems with keys below a bound.
    fn duplicate_dependencies_below(&self, dependencies: &Dependencies, bound: usize) -> (result:
        bool)
        requires
            self.wf(),
            bound <= self@.len(),
            dependencies@.len() <= usize::MAX,
            forall|k: int|
                0 <= k < dependencies@.len() ==> (#[trigger] dependencies@[k]).type_id.key < bound,
        ensures
            result == duplicates_within(self@, dependencies@, bound as int),
        decreases bound,
    {
        let inner_deps = dependencies.as_inner();
        let ghost list = dependencies@;
        let mut i: usize = 0;
        while i < inner_deps.len()
            invariant
                self.wf(),
                bound <= self@.len(),
                inner_deps@ == list,
                list == dependencies@,
                list.len() <= usize::MAX,
                forall|k: int| 0 <= k < list.len() ==> (#[trigger] list[k]).type_id.key < bound,
                i <= list.len(),
                forall|p: int|
                    0 <= p < i ==> !duplicates_within(
                        self@,
                        self@[(#[trigger] list[p]).type_id.key as int].dependencies@,
                        list[p].type_id.key as int,
                    ),
                forall|p: int, q: int|
                    0 <= p < i && p < q < list.len() ==> (#[trigger] list[p]).type_id != (
                    #[trigger] list[q]).type_id,
            decreases list.len() - i,
        {
            let outer = const_unwrap(inner_deps.get(i)).dependency_id();
            assert(list[i as int].type_id.key < bound);
            let subdependencies = self.descriptor(outer).dependencies;
            proof {
                assert(follows(self@.take(outer.key as int), self@[outer.key as int]));
            }
            if self.duplicate_dependencies_below(&subdependencies, outer.key) {
                return true;
            }
            let mut j: usize = i + 1;
            while j < inner_deps.len()
                invariant
                    inner_deps@ == list,
                    list == dependencies@,
                    list.len() <= usize::MAX,
                    i < j <= list.len(),
                    outer == list[i as int].type_id,
                    forall|q: int| i < q < j ==> outer != (#[trigger] list[q]).type_id,
                decreases list.len() - j,
            {
                if outer.eq(&const_unwrap(inner_deps.get(j)).dependency_id()) {
                    assert(repeats(list));
                    return true;
                }
                j = j + 1;
            }
            i = i + 1;
        }
        false
    }
}

/// The dependencies of a known system type are known, and have smaller keys.
pub proof fn lemma_catalog_ordered(catalog: &SystemCatalog)
    requires
        catalog.wf(),
    ensures
        ordered(type_graph(catalog@)),
{
    assert forall|i: int, k: int|
        0 <= i < type_graph(catalog@).len() && 0 <= k < type_graph(catalog@)[i].len() implies 0 <= (
    #[trigger] type_graph(catalog@)[i][k]).to < i by {
        assert(follows(catalog@.take(i), catalog@[i]));
        assert(catalog@[i].dependencies@[k].type_id.key < catalog@.take(i).len());
    }
}

/// A list of dependencies has duplicates somewhere below it exactly if it holds a system twice
/// itself, or leads to a system whose own list does.
pub proof fn law_duplicates_are_reachable(
    catalog: &SystemCatalog,
    list: Seq<DependencyHolder>,
    bound: int,
)
    requires
        catalog.wf(),
        0 <= bound <= catalog@.len(),
        forall|k: int| 0 <= k < list.len() ==> (#[trigger] list[k]).type_id.key < bound,
    ensures
        duplicates_within(catalog@, list, bound) <==> (repeats(list) || exists|i: int, key: int|
            0 <= i < list.len() && #[trigger] needs(
                catalog@,
                (#[trigger] list[i]).type_id.key as int,
                key,
            ) && 0 <= key && repeats(catalog@[key].dependencies@)),
    decreases bound,
{
    let graph = type_graph(catalog@);
    assert forall|i: int| 0 <= i < list.len() implies duplicates_within(
        catalog@,
        catalog@[(#[trigger] list[i]).type_id.key as int].dependencies@,
        list[i].type_id.key as int,
    ) == (exists|key: int|
        #[trigger] needs(catalog@, list[i].type_id.key as int, key) && 0 <= key && repeats(
            catalog@[key].dependencies@,
        )) by {
        let own = list[i].type_id.key as int;
        let sub = catalog@[own].dependencies@;
        assert(follows(catalog@.take(own), catalog@[own]));
        law_duplicates_are_reachable(catalog, sub, own);
        if repeats(sub) {
            assert(needs(catalog@, own, own));
        }
        if exists|j: int, key: int|
            0 <= j < sub.len() && #[trigger] needs(
                catalog@,
                (#[trigger] sub[j]).type_id.key as int,
                key,
            ) && 0 <= key && repeats(catalog@[key].dependencies@) {
            let (j, key) = choose|j: int, key: int|
                0 <= j < sub.len() && #[trigger] needs(
                    catalog@,
                    (#[trigger] sub[j]).type_id.key as int,
                    key,
                ) && 0 <= key && repeats(catalog@[key].dependencies@);
            assert(graph[own][j].to == sub[j].type_id.key);
            assert(steps(graph, false, own, j));
            assert(needs(catalog@, own, key));
        }
        if exists|key: int| #[trigger]
            needs(catalog@, own, key) && 0 <= key && repeats(catalog@[key].dependencies@) {
            let key = choose|key: int| #[trigger]
                needs(catalog@, own, key) && 0 <= key && repeats(catalog@[key].dependencies@);
            if key != own {
                let j = choose|j: int| #[trigger]
                    steps(graph, false, own, j) && reaches(graph, false, graph[own][j].to, key);
                assert(graph[own][j].to == sub[j].type_id.key);
                assert(needs(catalog@, sub[j].type_id.key as int, key));
            }
        }
    }
    if exists|i: int, key: int|
        0 <= i < list.len() && #[trigger] needs(
            catalog@,
            (#[trigger] list[i]).type_id.key as int,
            key,
        ) && 0 <= key && repeats(catalog@[key].dependencies@) {
        let (i, key) = choose|i: int, key: int|
            0 <= i < list.len() && #[trigger] needs(
                catalog@,
                (#[trigger] list[i]).type_id.key as int,
                key,
            ) && 0 <= key && repeats(catalog@[key].dependencies@);
        assert(list[i].type_id.key < bound);
    }
    if duplicates_within(catalog@, list, bound) && !repeats(list) {
        let i = choose|i: int|
            0 <= i < list.len() && (#[trigger] list[i]).type_id.key < bound && list[i].type_id.key
                < catalog@.len() && duplicates_within(
                catalog@,
                catalog@[list[i].type_id.key as int].dependencies@,
                list[i].type_id.key as int,
            );
        let key = choose|key: int| #[trigger]
            needs(catalog@, list[i].type_id.key as int, key) && 0 <= key && repeats(
                catalog@[key].dependencies@,
            );
        assert(needs(catalog@, list[i].type_id.key as int, key));
    }
}

/// Whether a path leads from one system type to another, from each type to one of those that stand
/// in its list of dependencies.
pub open spec fn depends_along(
    descriptors: Seq<SystemDescriptor>,
    path: Seq<int>,
    from: int,
    to: int,
) -> bool {
    &&& path.len() > 0
    &&& path[0] == from
    &&& path.last() == to
    &&& forall|i: int|
        0 <= i < path.len() - 1 ==> #[trigger] depends_at(descriptors, path, i)
}

/// Whether a system type on a path has the next one in its list of dependencies.
pub open spec fn depends_at(descriptors: Seq<SystemDescriptor>, path: Seq<int>, i: int) -> bool {
    &&& 0 <= path[i] < descriptors.len()
    &&& exists|k: int|
        0 <= k < descriptors[path[i]].dependencies@.len() && (
        #[trigger] descriptors[path[i]].dependencies@[k]).type_id.key == path[i + 1]
}

/// A system type needs another one exactly if a path leads there, from each type to one of those
/// that stand in its list of dependencies.
pub proof fn law_needs_follow_dependencies(catalog: &SystemCatalog, from: int, to: int)
    requires
        catalog.wf(),
    ensures
        needs(catalog@, from, to) <==> exists|path: Seq<int>| #[trigger]
            depends_along(catalog@, path, from, to),
{
    let graph = type_graph(catalog@);
    lemma_catalog_ordered(catalog);
    law_reaching_follows_paths(graph, false, from, to);
    if needs(catalog@, from, to) {
        let path = choose|path: Seq<int>| #[trigger] leads(graph, false, path, from, to);
        assert forall|i: int| 0 <= i < path.len() - 1 implies #[trigger] depends_at(
            catalog@,
            path,
            i,
        ) by {
            assert(linked(graph, false, path, i));
            let k = choose|k: int|
                0 <= k < graph[path[i]].len() && (#[trigger] graph[path[i]][k]).to == path[i + 1];
            assert(catalog@[path[i]].dependencies@[k].type_id.key == path[i + 1]);
        }
        assert(depends_along(catalog@, path, from, to));
    }
    if exists|path: Seq<int>| #[trigger] depends_along(catalog@, path, from, to) {
        let path = choose|path: Seq<int>| #[trigger] depends_along(catalog@, path, from, to);
        assert forall|i: int| 0 <= i < path.len() - 1 implies #[trigger] linked(
            graph,
            false,
            path,
            i,
        ) by {
            assert(depends_at(catalog@, path, i));
            let k = choose|k: int|
                0 <= k < catalog@[path[i]].dependencies@.len() && (
                #[trigger] catalog@[path[i]].dependencies@[k]).type_id.key == path[i + 1];
            assert(graph[path[i]][k].to == path[i + 1]);
        }
        assert(leads(graph, false, path, from, to));
    }
}

/// Only a system that stands twice in one list of dependencies is a duplicate: a list has none below
/// it exactly if the systems in it are all different, and so are those in the list of every system
/// that it leads to. Whether dependencies are mutable does not matter.
pub proof fn law_different_dependencies_are_no_duplicates(
    catalog: &SystemCatalog,
    list: Seq<DependencyHolder>,
)
    requires
        catalog.wf(),
        forall|k: int| 0 <= k < list.len() ==> (#[trigger] list[k]).type_id.key < catalog@.len(),
    ensures
        !catalog.has_duplicates(list) <==> {
            &&& forall|i: int, j: int|
                0 <= i < j < list.len() ==> (#[trigger] list[i]).type_id != (
                #[trigger] list[j]).type_id
            &&& forall|k: int, key: int, i: int, j: int|
                #![trigger list[k], catalog@[key].dependencies@[i], catalog@[key].dependencies@[j]]
                0 <= k < list.len() && 0 <= key && needs(catalog@, list[k].type_id.key as int, key)
                    && 0 <= i < j < catalog@[key].dependencies@.len()
                    ==> catalog@[key].dependencies@[i].type_id
                    != catalog@[key].dependencies@[j].type_id
        },
{
    law_duplicates_are_reachable(catalog, list, catalog@.len() as int);
    if !catalog.has_duplicates(list) {
        assert forall|i: int, j: int| 0 <= i < j < list.len() implies (
        #[trigger] list[i]).type_id != (#[trigger] list[j]).type_id by {
            if list[i].type_id == list[j].type_id {
                assert(repeats(list));
            }
        }
        assert forall|k: int, key: int, i: int, j: int|
            #![trigger list[k], catalog@[key].dependencies@[i], catalog@[key].dependencies@[j]]
            0 <= k < list.len() && 0 <= key && needs(catalog@, list[k].type_id.key as int, key)
                && 0 <= i < j < catalog@[key].dependencies@.len() implies
            catalog@[key].dependencies@[i].type_id != catalog@[key].dependencies@[j].type_id by {
            let sub = catalog@[key].dependencies@;
            if sub[i].type_id == sub[j].type_id {
                assert(repeats(sub));
            }
        }
    } else {
        if repeats(list) {
            let (i, j) = choose|i: int, j: int|
                0 <= i < j < list.len() && (#[trigger] list[i]).type_id == (
                #[trigger] list[j]).type_id;
            assert(list[i].type_id == list[j].type_id);
        } else {
            let (k, key) = choose|k: int, key: int|
                0 <= k < list.len() && #[trigger] needs(
                    catalog@,
                    (#[trigger] list[k]).type_id.key as int,
                    key,
                ) && 0 <= key && repeats(catalog@[key].dependencies@);
            let sub = catalog@[key].dependencies@;
            let (i, j) = choose|i: int, j: int|
                0 <= i < j < sub.len() && (#[trigger] sub[i]).type_id == (
                #[trigger] sub[j]).type_id;
            assert(list[k] == list[k]);
            assert(catalog@[key].dependencies@[i].type_id == catalog@[key].dependencies@[j].type_id);
        }
    }
}

/// A dependency may be mutably borrowed exactly if it is marked so; the mark does not change what is
/// depended upon.
pub proof fn law_marked_dependencies_are_mutable(system: ConstTypeId)
    ensures
        system.target() == system,
        !system.is_mutable(),
        Mut(system).target() == system,
        Mut(system).is_mutable(),
{
}

/// A system type can become known if it has the next key and the types that it depends on are known,
/// whatever else holds of it.
pub proof fn law_known_dependencies_suffice(
    descriptors: Seq<SystemDescriptor>,
    next: SystemDescriptor,
)
    requires
        next.dependencies@.len() <= usize::MAX,
        next.event_handlers@.len() <= usize::MAX,
    ensures
        follows(descriptors, next) <==> {
            &&& next.system_id.key == descriptors.len()
            &&& forall|k: int|
                0 <= k < next.dependencies@.len() ==> (#[trigger] next.dependencies@[k]).type_id.key
                    < descriptors.len()
        },
{
}

} // verus!

//! What holds of the systems of a context as a whole.
use crate::compaction::new_place;
use crate::const_type_id::ConstTypeId;
use crate::context::ascending_exactly;
use crate::context::handle_wf;
use crate::context::key_at;
use crate::context::shareable;
use crate::context::ContextInner;
use crate::event_map::all_responding;
use crate::event_map::law_handlers_are_those_of_the_systems;
use crate::event_map::EventHandlerEntry;
use crate::geese_context::added;
use crate::geese_context::removal_begun;
use crate::geese_context::removed;
use crate::geese_context::CloggedAction;
use crate::geese_context::Removal;
use crate::graph::lemma_reaches_backward;
use crate::graph::lemma_reaches_renumbered;
use crate::graph::reaches;
use crate::graph::renumbered;
use crate::graph::steps;
use crate::graph::Link;
use crate::removal::descending_exactly;
use crate::traits::lemma_catalog_ordered;
use crate::traits::needs;
use crate::traits::type_graph;
use vstd::prelude::*;

verus! {

/// What one loaded system reaches, its type needs.
proof fn lemma_reaches_needs<V>(ctx: &ContextInner<V>, i: int, j: int)
    requires
        ctx.structured(),
        0 <= i < ctx.count(),
        0 <= j < ctx.count(),
        reaches(ctx.graph(), false, i, j),
    ensures
        needs(
            ctx.catalog@,
            key_at(ctx.systems@, i) as int,
            key_at(ctx.systems@, j) as int,
        ),
    decreases i,
{
    let graph = ctx.graph();
    let types = type_graph(ctx.catalog@);
    if i != j {
        let k = choose|k: int| #[trigger]
            steps(graph, false, i, k) && reaches(graph, false, graph[i][k].to, j);
        let d = graph[i][k].to;
        let key = key_at(ctx.systems@, i) as int;
        assert(handle_wf(ctx.catalog@, ctx.system_initializers@, ctx.systems@[i], i));
        assert(ctx.systems@[i].handle.dependency_ids@[k] == d);
        let dependency = ctx.catalog@[key].dependencies@[k].type_id.key;
        assert(ctx.system_initializers@.dom().contains(key_at(ctx.systems@, i)));
        assert(ctx.system_initializers@.dom().contains(dependency));
        assert(key_at(ctx.systems@, d) == dependency);
        lemma_reaches_needs(ctx, d, j);
        lemma_catalog_ordered(&ctx.catalog);
        assert(types[key][k].to == dependency);
        assert(steps(types, false, key, k));
    }
}

/// What the type of a loaded system needs is loaded, and the system reaches it.
proof fn lemma_needs_reaches<V>(ctx: &ContextInner<V>, a: usize, b: usize)
    requires
        ctx.structured(),
        ctx.loaded(a),
        needs(ctx.catalog@, a as int, b as int),
    ensures
        ctx.loaded(b),
        reaches(
            ctx.graph(),
            false,
            ctx.system_initializers@[a].id as int,
            ctx.system_initializers@[b].id as int,
        ),
    decreases a,
{
    let graph = ctx.graph();
    let types = type_graph(ctx.catalog@);
    assert(ctx.system_initializers@.dom().contains(a));
    if a != b {
        let k = choose|k: int| #[trigger]
            steps(types, false, a as int, k) && reaches(
                types,
                false,
                types[a as int][k].to,
                b as int,
            );
        let dependency = ctx.catalog@[a as int].dependencies@[k].type_id.key;
        assert(types[a as int][k].to == dependency);
        assert(ctx.system_initializers@.dom().contains(dependency));
        assert(ctx.loaded(dependency));
        lemma_needs_reaches(ctx, dependency, b);
        let i = ctx.system_initializers@[a].id as int;
        assert(key_at(ctx.systems@, i) == a);
        assert(handle_wf(ctx.catalog@, ctx.system_initializers@, ctx.systems@[i], i));
        assert(ctx.systems@[i].handle.dependency_ids@[k]
            == ctx.system_initializers@[dependency].id);
        assert(graph[i][k].to == ctx.system_initializers@[dependency].id);
        assert(steps(graph, false, i, k));
    }
}

/// The dependencies among loaded systems are those among their types: one reaches the other exactly
/// if its type needs the other's.
pub proof fn law_systems_mirror_types<V>(ctx: &ContextInner<V>, a: usize, b: usize)
    requires
        ctx.wf(),
        ctx.loaded(a),
        ctx.loaded(b),
    ensures
        reaches(
            ctx.graph(),
            false,
            ctx.system_initializers@[a].id as int,
            ctx.system_initializers@[b].id as int,
        ) == needs(ctx.catalog@, a as int, b as int),
{
    let i = ctx.system_initializers@[a].id as int;
    let j = ctx.system_initializers@[b].id as int;
    assert(ctx.system_initializers@.dom().contains(a));
    assert(ctx.system_initializers@.dom().contains(b));
    if reaches(ctx.graph(), false, i, j) {
        lemma_reaches_needs(ctx, i, j);
    }
    if needs(ctx.catalog@, a as int, b as int) {
        lemma_needs_reaches(ctx, a, b);
    }
}

/// The links of a loaded system are its dependencies: in the order of its list, each leads to the
/// loaded system of the type that stands there, which comes before, and may be mutably borrowed if
/// the list says so.
pub proof fn law_links_are_dependencies<V>(ctx: &ContextInner<V>, key: usize, k: int)
    requires
        ctx.wf(),
        ctx.system_initializers@.dom().contains(key),
    ensures
        ({
            let id = ctx.system_initializers@[key].id as int;
            let list = ctx.catalog@[key as int].dependencies@;
            &&& id < ctx.systems@.len()
            &&& ctx.systems@[id].system_id.key == key
            &&& ctx.graph().len() == ctx.systems@.len()
            &&& ctx.graph()[id].len() == list.len()
            &&& ctx.descriptors().len() == ctx.systems@.len()
            &&& ctx.descriptors()[id] == ctx.catalog@[key as int]
            &&& ctx.system_initializers@[key].descriptor == ctx.catalog@[key as int]
            &&& ctx.systems@[id].handle.id == id
            &&& ctx.systems@[id].handle.dependency_ids@.len() == list.len()
            &&& 0 <= k < list.len() ==> {
                let dependency = list[k].type_id.key;
                &&& ctx.system_initializers@.dom().contains(dependency)
                &&& ctx.system_initializers@[dependency].id < id
                &&& ctx.graph()[id][k].to == ctx.system_initializers@[dependency].id
                &&& ctx.graph()[id][k].mutable == list[k].mutable
                &&& ctx.systems@[id].handle.dependency_ids@[k]
                    == ctx.system_initializers@[dependency].id
            }
        }),
{
    let id = ctx.system_initializers@[key].id as int;
    let list = ctx.catalog@[key as int].dependencies@;
    assert(key_at(ctx.systems@, id) == key);
    assert(handle_wf(ctx.catalog@, ctx.system_initializers@, ctx.systems@[id], id));
    if 0 <= k < list.len() {
        assert(ctx.catalog@[key as int].dependencies@[k] == list[k]);
        assert(ctx.systems@[id].handle.dependency_ids@[k]
            == ctx.system_initializers@[list[k].type_id.key].id);
    }
}

/// A system may be shared across threads exactly if all that its type needs may be, however far down
/// it is.
pub proof fn law_sharing_rests_on_all_dependencies<V>(ctx: &ContextInner<V>, key: usize)
    requires
        ctx.wf(),
        ctx.system_initializers@.dom().contains(key),
    ensures
        ctx.sync_systems@[ctx.system_initializers@[key].id as int] <==> forall|other: int| #[trigger]
            needs(ctx.catalog@, key as int, other) ==> ctx.catalog@[other].sync,
{
    let id = ctx.system_initializers@[key].id as int;
    law_links_are_dependencies(ctx, key, 0);
    assert(ctx.sync_systems@[id] == shareable(ctx.graph(), ctx.descriptors(), id));
    if ctx.sync_systems@[id] {
        assert forall|other: int| #[trigger] needs(
            ctx.catalog@,
            key as int,
            other,
        ) implies ctx.catalog@[other].sync by {
            lemma_reaches_backward(type_graph(ctx.catalog@), false, key as int, other);
            let dependency = other as usize;
            lemma_needs_reaches(ctx, key, dependency);
            law_links_are_dependencies(ctx, dependency, 0);
            assert(reaches(
                ctx.graph(),
                false,
                id,
                ctx.system_initializers@[dependency].id as int,
            ));
        }
    } else {
        let j = choose|j: int|
            0 <= j < ctx.count() && #[trigger] reaches(ctx.graph(), false, id, j)
                && !ctx.descriptors()[j].sync;
        lemma_reaches_needs(ctx, id, j);
        assert(needs(ctx.catalog@, key as int, key_at(ctx.systems@, j) as int));
    }
}

/// The tables tell which systems depend on which: of two loaded systems, whether the type of the one
/// needs the other's, whether it does so only through dependencies that may be mutably borrowed, and
/// whether one of the types needs the other.
pub proof fn law_tables_hold_dependencies<V>(ctx: &ContextInner<V>, a: usize, b: usize)
    requires
        ctx.wf(),
        ctx.system_initializers@.dom().contains(a),
        ctx.system_initializers@.dom().contains(b),
    ensures
        ({
            let i = ctx.system_initializers@[a].id as int;
            let j = ctx.system_initializers@[b].id as int;
            &&& ctx.transitive_dependencies.flag(i, j) == needs(ctx.catalog@, a as int, b as int)
            &&& ctx.transitive_dependencies_mut.flag(i, j) == reaches(ctx.graph(), true, i, j)
            &&& ctx.transitive_dependencies_bi.flag(i, j) == (needs(
                ctx.catalog@,
                a as int,
                b as int,
            ) || needs(ctx.catalog@, b as int, a as int))
        }),
{
    law_links_are_dependencies(ctx, a, 0);
    law_links_are_dependencies(ctx, b, 0);
    law_systems_mirror_types(ctx, a, b);
    law_systems_mirror_types(ctx, b, a);
}

/// Everything that a loaded system needs is loaded, and comes before it.
pub proof fn law_dependencies_are_loaded_first<V>(ctx: &ContextInner<V>, a: usize, b: usize)
    requires
        ctx.wf(),
        ctx.loaded(a),
        needs(ctx.catalog@, a as int, b as int),
        a != b,
    ensures
        ctx.loaded(b),
        ctx.system_initializers@[b].id < ctx.system_initializers@[a].id,
{
    lemma_needs_reaches(ctx, a, b);
    let i = ctx.system_initializers@[a].id as int;
    let j = ctx.system_initializers@[b].id as int;
    lemma_reaches_backward(ctx.graph(), false, i, j);
    assert(ctx.system_initializers@.dom().contains(a));
    assert(ctx.system_initializers@.dom().contains(b));
    assert(key_at(ctx.systems@, i) == a);
    assert(key_at(ctx.systems@, j) == b);
}

/// Systems that are created in ascending order of their IDs are created after everything that they
/// depend on.
pub proof fn law_dependencies_are_created_first(
    graph: Seq<Seq<Link>>,
    ids: Seq<u16>,
    bound: int,
    condition: spec_fn(int) -> bool,
    p: int,
    q: int,
)
    requires
        ascending_exactly(ids, bound, condition),
        0 <= p < ids.len(),
        0 <= q < ids.len(),
        ids[p] != ids[q],
        reaches(graph, false, ids[q] as int, ids[p] as int),
    ensures
        p < q,
{
    lemma_reaches_backward(graph, false, ids[q] as int, ids[p] as int);
    if q < p {
        assert(ids[q] < ids[p]);
    }
}

/// Systems that are dropped in descending order of their IDs are dropped before everything that
/// they depend on.
pub proof fn law_dependents_are_dropped_first(
    graph: Seq<Seq<Link>>,
    ids: Seq<u16>,
    bound: int,
    condition: spec_fn(int) -> bool,
    p: int,
    q: int,
)
    requires
        descending_exactly(ids, bound, condition),
        0 <= p < ids.len(),
        0 <= q < ids.len(),
        ids[p] != ids[q],
        reaches(graph, false, ids[p] as int, ids[q] as int),
    ensures
        p < q,
{
    lemma_reaches_backward(graph, false, ids[p] as int, ids[q] as int);
    if q < p {
        assert(ids[q] > ids[p]);
    }
}

impl<V> ContextInner<V> {
    /// Whether every loaded system is needed by a top-level one.
    pub open spec fn tidy(&self) -> bool {
        forall|key: usize| #[trigger] self.loaded(key) ==> needed_by_some(self, key)
    }
}

/// Whether a system type is needed by a top-level system.
pub open spec fn needed_by_some<V>(ctx: &ContextInner<V>, key: usize) -> bool {
    exists|top: usize| #[trigger]
        ctx.loaded(top) && ctx.system_initializers@[top].top_level && needs(
            ctx.catalog@,
            top as int,
            key as int,
        )
}

/// Adding a system loads nothing that no top-level system needs.
pub proof fn law_adding_keeps_tidy<V>(
    before: &ContextInner<V>,
    after: &ContextInner<V>,
    system: ConstTypeId,
    ids: Seq<u16>,
)
    requires
        before.wf(),
        before.tidy(),
        added(before, after, system, ids),
    ensures
        after.tidy(),
{
    assert forall|key: usize| #[trigger] after.loaded(key) implies needed_by_some(after, key) by {
        assert(before.keys_with(system).contains(key));
        if before.loaded(key) {
            assert(needed_by_some(before, key));
            let top = choose|top: usize| #[trigger]
                before.loaded(top) && before.system_initializers@[top].top_level && needs(
                    before.catalog@,
                    top as int,
                    key as int,
                );
            assert(before.keys_with(system).contains(top));
            assert(after.loaded(top));
        } else {
            assert(needs(before.catalog@, system.key as int, system.key as int));
            assert(before.keys_with(system).contains(system.key));
            assert(after.loaded(system.key));
        }
    }
}

/// What a removal keeps, for one system type.
proof fn lemma_removal_keeps<V>(
    before: &ContextInner<V>,
    begun: &ContextInner<V>,
    after: &ContextInner<V>,
    system: ConstTypeId,
    removal: Removal,
    key: usize,
)
    requires
        before.wf(),
        before.loaded(system.key),
        removal_begun(before, begun, system, CloggedAction::Drop(removal)),
        removed(begun, after, removal.connected@),
    ensures
        after.loaded(key) <==> exists|top: usize|
            #![trigger before.loaded(top)]
            top != system.key && before.loaded(top) && before.system_initializers@[top].top_level
                && needs(before.catalog@, top as int, key as int),
{
    let wanted = exists|top: usize|
        #![trigger before.loaded(top)]
        top != system.key && before.loaded(top) && before.system_initializers@[top].top_level
            && needs(before.catalog@, top as int, key as int);
    assert(begun.graph() == before.graph());
    assert(begun.loaded(key) == before.loaded(key));
    if after.loaded(key) {
        let id = begun.system_initializers@[key].id as int;
        assert(before.system_initializers@.dom().contains(key));
        assert(removal.connected@[id]);
        assert(begun.anchored(id));
        let top = choose|top: usize| #[trigger]
            begun.loaded(top) && begun.system_initializers@[top].top_level && reaches(
                begun.graph(),
                false,
                begun.system_initializers@[top].id as int,
                id,
            );
        assert(before.loaded(top));
        law_systems_mirror_types(before, top, key);
        assert(wanted);
    }
    if wanted {
        let top = choose|top: usize|
            #![trigger before.loaded(top)]
            top != system.key && before.loaded(top) && before.system_initializers@[top].top_level
                && needs(before.catalog@, top as int, key as int);
        lemma_needs_reaches(before, top, key);
        let id = before.system_initializers@[key].id as int;
        assert(before.system_initializers@.dom().contains(key));
        assert(begun.loaded(top));
        assert(begun.anchored(id));
        assert(removal.connected@[id]);
        assert(after.loaded(key));
    }
}

/// Removing a system keeps exactly what the top-level systems that are left need.
pub proof fn law_removal_keeps_what_is_needed<V>(
    before: &ContextInner<V>,
    begun: &ContextInner<V>,
    after: &ContextInner<V>,
    system: ConstTypeId,
    removal: Removal,
    key: usize,
)
    requires
        before.wf(),
        before.loaded(system.key),
        removal_begun(before, begun, system, CloggedAction::Drop(removal)),
        removed(begun, after, removal.connected@),
    ensures
        after.loaded(key) <==> exists|top: usize|
            #![trigger before.loaded(top)]
            top != system.key && before.loaded(top) && before.system_initializers@[top].top_level
                && needs(before.catalog@, top as int, key as int),
        after.tidy(),
{
    lemma_removal_keeps(before, begun, after, system, removal, key);
    assert forall|other: usize| #[trigger] after.loaded(other) implies needed_by_some(
        after,
        other,
    ) by {
        lemma_removal_keeps(before, begun, after, system, removal, other);
        let top = choose|top: usize|
            #![trigger before.loaded(top)]
            top != system.key && before.loaded(top) && before.system_initializers@[top].top_level
                && needs(before.catalog@, top as int, other as int);
        assert(before.loaded(top) && needs(before.catalog@, top as int, top as int));
        lemma_removal_keeps(before, begun, after, system, removal, top);
        assert(after.loaded(top));
        assert(begun.loaded(top));
    }
}

/// Where a removal has nothing to drop, the systems stay as they are, and each of them is needed by
/// a top-level system that is left.
pub proof fn law_needed_systems_stay<V>(
    before: &ContextInner<V>,
    after: &ContextInner<V>,
    system: ConstTypeId,
)
    requires
        before.wf(),
        before.loaded(system.key),
        removal_begun(before, after, system, CloggedAction::Nothing),
    ensures
        after.system_initializers@.dom() == before.system_initializers@.dom(),
        after.systems@ == before.systems@,
        after.tidy(),
{
    assert(after.system_initializers@.dom() =~= before.system_initializers@.dom());
    assert forall|key: usize| #[trigger] after.loaded(key) implies needed_by_some(after, key) by {
        assert(before.loaded(key));
        assert(before.system_initializers@.dom().contains(key));
        let id = after.system_initializers@[key].id as int;
        assert(after.anchored(id));
        let top = choose|top: usize| #[trigger]
            after.loaded(top) && after.system_initializers@[top].top_level && reaches(
                after.graph(),
                false,
                after.system_initializers@[top].id as int,
                id,
            );
        assert(before.loaded(top));
        assert(after.graph() == before.graph());
        law_systems_mirror_types(before, top, key);
    }
}

/// Removing a system right after it was added, where it was not loaded before, unloads everything
/// that was loaded for it, and nothing else.
pub proof fn law_removal_undoes_adding<V>(
    before: &ContextInner<V>,
    loaded: &ContextInner<V>,
    begun: &ContextInner<V>,
    after: &ContextInner<V>,
    system: ConstTypeId,
    ids: Seq<u16>,
    removal: Removal,
)
    requires
        before.wf(),
        before.tidy(),
        !before.loaded(system.key),
        added(before, loaded, system, ids),
        loaded.wf(),
        removal_begun(loaded, begun, system, CloggedAction::Drop(removal)),
        removed(begun, after, removal.connected@),
    ensures
        after.system_initializers@.dom() == before.system_initializers@.dom(),
{
    assert(needs(before.catalog@, system.key as int, system.key as int));
    assert(before.keys_with(system).contains(system.key));
    assert(loaded.loaded(system.key));
    assert forall|key: usize|
        after.system_initializers@.dom().contains(key) <==> before.system_initializers@.dom().contains(
    key) by {
        lemma_removal_keeps(loaded, begun, after, system, removal, key);
        assert(after.loaded(key) == after.system_initializers@.dom().contains(key));
        if after.loaded(key) {
            let top = choose|top: usize|
                #![trigger loaded.loaded(top)]
                top != system.key && loaded.loaded(top)
                    && loaded.system_initializers@[top].top_level && needs(
                    loaded.catalog@,
                    top as int,
                    key as int,
                );
            assert(before.loaded(top));
            lemma_needs_reaches(before, top, key);
        }
        if before.loaded(key) {
            assert(needed_by_some(before, key));
            let top = choose|top: usize| #[trigger]
                before.loaded(top) && before.system_initializers@[top].top_level && needs(
                    before.catalog@,
                    top as int,
                    key as int,
                );
            assert(before.keys_with(system).contains(top));
            assert(loaded.loaded(top));
        }
    }
    assert(after.system_initializers@.dom() =~= before.system_initializers@.dom());
}

/// Compaction keeps the order of the systems that remain, and what they reach among each other.
pub proof fn law_compaction_keeps_dependencies(
    old_graph: Seq<Seq<Link>>,
    new_graph: Seq<Seq<Link>>,
    connected: Seq<bool>,
    only_mutable: bool,
    i: int,
    j: int,
)
    requires
        connected.len() == old_graph.len(),
        renumbered(old_graph, new_graph, new_place(connected), |i: int| connected[i]),
        0 <= i < connected.len(),
        0 <= j < connected.len(),
        connected[i],
        connected[j],
    ensures
        reaches(
            new_graph,
            only_mutable,
            new_place(connected)(i),
            new_place(connected)(j),
        ) == reaches(old_graph, only_mutable, i, j),
        i < j ==> new_place(connected)(i) < new_place(connected)(j),
{
    lemma_reaches_renumbered(
        old_graph,
        new_graph,
        new_place(connected),
        |i: int| connected[i],
        only_mutable,
        i,
        j,
    );
}

/// The event map of a context holds the handlers of the loaded systems: each handler in the list of a
/// loaded system is there, under its event and for that system, and nothing else is there.
pub proof fn law_loaded_systems_respond<V>(
    ctx: &ContextInner<V>,
    event: ConstTypeId,
    key: usize,
    place: int,
    k: int,
) -> (found: (usize, int))
    requires
        ctx.wf(),
    ensures
        ({
            let entries = ctx.event_handlers.entries(event);
            let initializers = ctx.system_initializers@;
            let handlers = ctx.catalog@[key as int].event_handlers@;
            &&& initializers.dom().contains(key) && 0 <= place < handlers.len()
                && handlers[place].event() == event ==> entries.contains(
                EventHandlerEntry {
                    handler: handlers[place].invoker(),
                    system_id: initializers[key].id,
                },
            )
            &&& 0 <= k < entries.len() ==> {
                let own = ctx.catalog@[found.0 as int].event_handlers@;
                &&& initializers.dom().contains(found.0)
                &&& 0 <= found.1 < own.len()
                &&& own[found.1].event() == event
                &&& entries[k].handler == own[found.1].invoker()
                &&& entries[k].system_id == initializers[found.0].id
            }
        }),
{
    let entries = ctx.event_handlers.entries(event);
    let systems = ctx.descriptors();
    assert(entries == all_responding(systems, event));
    let places = law_handlers_are_those_of_the_systems(systems, event);
    let handlers = ctx.catalog@[key as int].event_handlers@;
    if ctx.loaded(key) && 0 <= place < handlers.len() && handlers[place].event() == event {
        law_links_are_dependencies(ctx, key, 0);
        let id = ctx.system_initializers@[key].id as int;
        assert(systems[id].event_handlers@[place].event() == event);
        let j = choose|j: int| 0 <= j < places.len() && places[j] == (id, place);
        assert(places[j] == (id, place));
        assert(entries[j] == (EventHandlerEntry {
            handler: handlers[place].invoker(),
            system_id: ctx.system_initializers@[key].id,
        }));
    }
    if 0 <= k < entries.len() {
        let (system, at) = places[k];
        let own = key_at(ctx.systems@, system);
        assert(ctx.system_initializers@.dom().contains(own));
        (own, at)
    } else {
        (0, 0)
    }
}

} // verus!

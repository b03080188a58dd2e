//! What holds of the requests to a context: which of them are accepted, and what they lead to.
use crate::bits::lemma_ones_before_monotonic;
use crate::bits::ones_before;
use crate::const_type_id::ConstTypeId;
use crate::context::key_at;
use crate::context::ContextInner;
use crate::events::EventValue;
use crate::geese_context::added;
use crate::geese_context::removal_begun;
use crate::geese_context::removed;
use crate::geese_context::resets;
use crate::geese_context::CloggedAction;
use crate::geese_context::GeeseContext;
use crate::geese_context::Removal;
use crate::graph::lemma_reaches_backward;
use crate::graph::reaches;
use crate::graph::steps;
use crate::pipeline::next;
use crate::reset::Reset;
use crate::system_laws::law_links_are_dependencies;
use crate::system_laws::law_removal_keeps_what_is_needed;
use crate::system_laws::law_systems_mirror_types;
use crate::traits::follows;
use crate::traits::law_different_dependencies_are_no_duplicates;
use crate::traits::lemma_catalog_ordered;
use crate::traits::needs;
use crate::traits::type_graph;
use vstd::prelude::*;

verus! {

/// A system type needs itself, and what its dependencies need.
proof fn lemma_needs_below<V>(ctx: &ContextInner<V>, system: int, key: int)
    requires
        ctx.catalog.wf(),
        0 <= system < ctx.catalog@.len(),
    ensures
        ({
            let list = ctx.catalog@[system].dependencies@;
            needs(ctx.catalog@, system, key) <==> (key == system || exists|k: int|
                0 <= k < list.len() && needs(
                    ctx.catalog@,
                    (#[trigger] list[k]).type_id.key as int,
                    key,
                ))
        }),
{
    let types = type_graph(ctx.catalog@);
    let list = ctx.catalog@[system].dependencies@;
    lemma_catalog_ordered(&ctx.catalog);
    if needs(ctx.catalog@, system, key) && key != system {
        let k = choose|k: int| #[trigger]
            steps(types, false, system, k) && reaches(types, false, types[system][k].to, key);
        assert(types[system][k].to == list[k].type_id.key);
        assert(needs(ctx.catalog@, list[k].type_id.key as int, key));
    }
    if exists|k: int|
        0 <= k < list.len() && needs(ctx.catalog@, (#[trigger] list[k]).type_id.key as int, key) {
        let k = choose|k: int|
            0 <= k < list.len() && needs(
                ctx.catalog@,
                (#[trigger] list[k]).type_id.key as int,
                key,
            );
        assert(types[system][k].to == list[k].type_id.key);
        assert(steps(types, false, system, k));
    }
}

/// A system can be added exactly if its type is known, it is not loaded, no type that it needs has
/// the same system twice in its list of dependencies, and all systems that are loaded then can be
/// numbered, with a bit for each pair of them. A system can be removed exactly if it is loaded and
/// was added by itself, whatever depends on it, and can be reset exactly if it is loaded. Nothing
/// else is refused.
pub proof fn law_requests_are_accepted<V>(ctx: &GeeseContext<V>, event: EventValue)
    requires
        ctx.wf(),
    ensures
        ({
            let catalog = ctx.inner.catalog@;
            let initializers = ctx.inner.system_initializers@;
            match event {
                EventValue::AddSystem(system) => {
                    let keys = Set::new(
                        |key: usize|
                            initializers.dom().contains(key) || needs(
                                catalog,
                                system.key as int,
                                key as int,
                            ),
                    );
                    ctx.accepts(event) <==> {
                        &&& system.key < catalog.len()
                        &&& !initializers.dom().contains(system.key)
                        &&& forall|key: int, i: int, j: int|
                            #![trigger catalog[key].dependencies@[i], catalog[key].dependencies@[j]]
                            needs(catalog, system.key as int, key) && 0 <= i < j
                                < catalog[key].dependencies@.len()
                                ==> catalog[key].dependencies@[i].type_id
                                != catalog[key].dependencies@[j].type_id
                        &&& keys.len() < u16::MAX
                        &&& keys.len() * keys.len() <= usize::MAX / 8
                    }
                },
                EventValue::RemoveSystem(system) => ctx.accepts(event) <==> (
                initializers.dom().contains(system.key) && initializers[system.key].top_level),
                EventValue::ResetSystem(system) => ctx.accepts(event)
                    <==> initializers.dom().contains(system.key),
                _ => ctx.accepts(event),
            }
        }),
{
    let catalog = ctx.inner.catalog@;
    match event {
        EventValue::AddSystem(system) => {
            let keys = Set::new(
                |key: usize|
                    ctx.inner.system_initializers@.dom().contains(key) || needs(
                        catalog,
                        system.key as int,
                        key as int,
                    ),
            );
            assert(keys =~= ctx.inner.keys_with(system));
            if system.key < catalog.len() {
                let own = system.key as int;
                let list = catalog[own].dependencies@;
                assert(follows(catalog.take(own), catalog[own]));
                assert forall|k: int| 0 <= k < list.len() implies (
                #[trigger] list[k]).type_id.key < catalog.len() by {
                    assert(list[k].type_id.key < catalog.take(own).len());
                }
                law_different_dependencies_are_no_duplicates(&ctx.inner.catalog, list);
                if ctx.accepts(event) {
                    assert forall|key: int, i: int, j: int|
                        #![trigger catalog[key].dependencies@[i], catalog[key].dependencies@[j]]
                        needs(catalog, own, key) && 0 <= i < j
                            < catalog[key].dependencies@.len() implies
                        catalog[key].dependencies@[i].type_id
                        != catalog[key].dependencies@[j].type_id by {
                        lemma_reaches_backward(type_graph(catalog), false, own, key);
                        lemma_needs_below(&ctx.inner, own, key);
                        if key != own {
                            let k = choose|k: int|
                                0 <= k < list.len() && needs(
                                    catalog,
                                    (#[trigger] list[k]).type_id.key as int,
                                    key,
                                );
                            assert(list[k] == list[k]);
                        } else {
                            assert(list[i].type_id != list[j].type_id);
                        }
                    }
                }
                assert(needs(catalog, own, own));
                assert forall|k: int, key: int|
                    0 <= k < list.len() && #[trigger] needs(
                        catalog,
                        (#[trigger] list[k]).type_id.key as int,
                        key,
                    ) implies needs(catalog, own, key) by {
                    lemma_needs_below(&ctx.inner, own, key);
                }
            }
        },
        _ => {},
    }
}

/// What a context holds after a system was added: what it held before, and what the type of the
/// system needs. The system counts as added by itself from then on, and nothing else does that did
/// not before. Values stay, and what is new has none.
pub proof fn law_adding_loads_what_is_needed<V>(
    before: &ContextInner<V>,
    after: &ContextInner<V>,
    system: ConstTypeId,
    ids: Seq<u16>,
    key: usize,
)
    requires
        before.wf(),
        after.wf(),
        added(before, after, system, ids),
    ensures
        ({
            let old = before.system_initializers@;
            let new = after.system_initializers@;
            &&& after.catalog@ == before.catalog@
            &&& after.owning_thread == before.owning_thread
            &&& new.dom().contains(key) <==> (old.dom().contains(key) || needs(
                before.catalog@,
                system.key as int,
                key as int,
            ))
            &&& new.dom().contains(key) ==> {
                let value = after.systems@[new[key].id as int].value;
                &&& new[key].top_level <==> (key == system.key || (old.dom().contains(key)
                    && old[key].top_level))
                &&& if old.dom().contains(key) {
                    value == before.systems@[old[key].id as int].value
                } else {
                    value.content() is None && value.state() == 0
                }
                &&& ids.contains(new[key].id) <==> !old.dom().contains(key)
            }
        }),
{
    let new = after.system_initializers@;
    assert(before.keys_with(system).contains(key) == new.dom().contains(key));
    if new.dom().contains(key) {
        assert(after.loaded(key));
        law_links_are_dependencies(after, key, 0);
        let id = new[key].id;
        assert(key_at(after.systems@, id as int) == key);
        let fresh = |i: int| !before.loaded(key_at(after.systems@, i));
        if ids.contains(id) {
            let k = choose|k: int| 0 <= k < ids.len() && ids[k] == id;
            assert(fresh(ids[k] as int));
        }
        if !before.loaded(key) {
            assert(fresh(id as int));
            assert(id as int as u16 == id);
        }
    }
}

/// The systems that adding loads are to be created one after the other, each after everything that
/// its type needs.
pub proof fn law_added_systems_are_created_in_order<V>(
    before: &ContextInner<V>,
    after: &ContextInner<V>,
    system: ConstTypeId,
    ids: Seq<u16>,
    p: int,
    q: int,
)
    requires
        before.wf(),
        after.wf(),
        added(before, after, system, ids),
        0 <= p < ids.len(),
        0 <= q < ids.len(),
        p != q,
    ensures
        ids[p] < after.systems@.len(),
        ids[p] != ids[q],
        needs(
            after.catalog@,
            after.systems@[ids[q] as int].system_id.key as int,
            after.systems@[ids[p] as int].system_id.key as int,
        ) ==> p < q,
{
    let a = key_at(after.systems@, ids[q] as int);
    let b = key_at(after.systems@, ids[p] as int);
    assert(ids[p] < after.count() && ids[q] < after.count());
    if p < q {
        assert(ids[p] < ids[q]);
    } else {
        assert(ids[q] < ids[p]);
    }
    assert(after.system_initializers@.dom().contains(a));
    assert(after.system_initializers@.dom().contains(b));
    if needs(after.catalog@, a as int, b as int) {
        law_systems_mirror_types(after, a, b);
        lemma_reaches_backward(after.graph(), false, ids[q] as int, ids[p] as int);
    }
}

/// What was added can be removed, in any order, and is not added twice: after one system was added
/// and then another one, the removal of either is accepted, even where one of them depends on the
/// other; and so is that of whatever could be removed before.
pub proof fn law_added_systems_can_be_removed<V>(
    first: &GeeseContext<V>,
    second: &GeeseContext<V>,
    third: &GeeseContext<V>,
    a: ConstTypeId,
    b: ConstTypeId,
    first_ids: Seq<u16>,
    second_ids: Seq<u16>,
    other: ConstTypeId,
)
    requires
        first.wf(),
        second.wf(),
        third.wf(),
        added(&first.inner, &second.inner, a, first_ids),
        added(&second.inner, &third.inner, b, second_ids),
    ensures
        second.accepts(EventValue::RemoveSystem(a)),
        third.accepts(EventValue::RemoveSystem(a)),
        third.accepts(EventValue::RemoveSystem(b)),
        !second.accepts(EventValue::AddSystem(a)),
        !third.accepts(EventValue::AddSystem(a)),
        !third.accepts(EventValue::AddSystem(b)),
        first.accepts(EventValue::RemoveSystem(other)) ==> third.accepts(
            EventValue::RemoveSystem(other),
        ),
        first.accepts(EventValue::ResetSystem(other)) ==> third.accepts(
            EventValue::ResetSystem(other),
        ),
{
    assert(needs(first.inner.catalog@, a.key as int, a.key as int));
    assert(needs(second.inner.catalog@, b.key as int, b.key as int));
    law_adding_loads_what_is_needed(&first.inner, &second.inner, a, first_ids, a.key);
    law_adding_loads_what_is_needed(&second.inner, &third.inner, b, second_ids, a.key);
    law_adding_loads_what_is_needed(&second.inner, &third.inner, b, second_ids, b.key);
    law_adding_loads_what_is_needed(&first.inner, &second.inner, a, first_ids, other.key);
    law_adding_loads_what_is_needed(&second.inner, &third.inner, b, second_ids, other.key);
}

/// A system that was removed cannot be removed again. Others can be that could be before.
pub proof fn law_systems_are_removed_once<V>(
    before: &GeeseContext<V>,
    begun: &GeeseContext<V>,
    after: &GeeseContext<V>,
    system: ConstTypeId,
    action: CloggedAction,
    other: ConstTypeId,
)
    requires
        before.wf(),
        before.accepts(EventValue::RemoveSystem(system)),
        removal_begun(&before.inner, &begun.inner, system, action),
        match action {
            CloggedAction::Drop(removal) => removed(
                &begun.inner,
                &after.inner,
                removal.connected@,
            ),
            _ => after.inner == begun.inner,
        },
    ensures
        !after.accepts(EventValue::RemoveSystem(system)),
        other.key != system.key ==> after.accepts(EventValue::RemoveSystem(other))
            == before.accepts(EventValue::RemoveSystem(other)),
{
    assert(before.inner.loaded(system.key));
    match action {
        CloggedAction::Drop(removal) => {
            let key = other.key;
            law_removal_keeps_what_is_needed(
                &before.inner,
                &begun.inner,
                &after.inner,
                system,
                removal,
                key,
            );
            assert(after.inner.loaded(key) ==> begun.inner.loaded(key));
            assert(after.inner.loaded(system.key) ==> begun.inner.loaded(system.key));
            if key != system.key && before.accepts(EventValue::RemoveSystem(other)) {
                assert(before.inner.loaded(key));
                assert(needs(before.inner.catalog@, key as int, key as int));
                assert(after.inner.loaded(key));
            }
        },
        _ => {},
    }
}

/// A removal tells which systems to drop: each of those that no system needs which is left and was
/// added by itself, once, and before everything that its own type needs. If there are none, nothing
/// is to be done.
pub proof fn law_removal_drops_what_is_not_needed<V>(
    before: &ContextInner<V>,
    begun: &ContextInner<V>,
    system: ConstTypeId,
    action: CloggedAction,
    key: usize,
)
    requires
        before.wf(),
        before.system_initializers@.dom().contains(system.key),
        removal_begun(before, begun, system, action),
        before.system_initializers@.dom().contains(key),
    ensures
        ({
            let initializers = before.system_initializers@;
            let needed = exists|top: usize|
                #![trigger initializers.dom().contains(top)]
                top != system.key && initializers.dom().contains(top)
                    && initializers[top].top_level && needs(
                    before.catalog@,
                    top as int,
                    key as int,
                );
            &&& action is Drop || action is Nothing
            &&& !needed ==> action is Drop
            &&& action matches CloggedAction::Drop(removal) ==> {
                let ids = removal.dropped@;
                &&& ids.len() > 0
                &&& ids.contains(initializers[key].id) <==> !needed
                &&& forall|p: int|
                    0 <= p < ids.len() ==> (#[trigger] ids[p]) < before.systems@.len()
                &&& forall|p: int, q: int|
                    0 <= p < ids.len() && 0 <= q < ids.len() && p != q ==> ids[p] != ids[q]
                &&& forall|p: int, q: int|
                    0 <= p < ids.len() && 0 <= q < ids.len() && p != q && needs(
                        before.catalog@,
                        before.systems@[(#[trigger] ids[p]) as int].system_id.key as int,
                        before.systems@[(#[trigger] ids[q]) as int].system_id.key as int,
                    ) ==> p < q
            }
        }),
{
    let initializers = before.system_initializers@;
    let id = initializers[key].id;
    let needed = exists|top: usize|
        #![trigger initializers.dom().contains(top)]
        top != system.key && initializers.dom().contains(top) && initializers[top].top_level
            && needs(before.catalog@, top as int, key as int);
    law_links_are_dependencies(before, key, 0);
    assert(begun.graph() == before.graph());
    assert(begun.anchored(id as int) == needed) by {
        if begun.anchored(id as int) {
            let top = choose|top: usize| #[trigger]
                begun.loaded(top) && begun.system_initializers@[top].top_level && reaches(
                    begun.graph(),
                    false,
                    begun.system_initializers@[top].id as int,
                    id as int,
                );
            assert(initializers.dom().contains(top));
            law_systems_mirror_types(before, top, key);
        }
        if needed {
            let top = choose|top: usize|
                #![trigger initializers.dom().contains(top)]
                top != system.key && initializers.dom().contains(top)
                    && initializers[top].top_level && needs(
                    before.catalog@,
                    top as int,
                    key as int,
                );
            law_systems_mirror_types(before, top, key);
            assert(begun.loaded(top));
        }
    }
    match action {
        CloggedAction::Drop(removal) => {
            let ids = removal.dropped@;
            let dropped = |i: int| !removal.connected@[i];
            let gap = choose|i: int| 0 <= i < begun.count() && !#[trigger] removal.connected@[i];
            assert(dropped(gap));
            assert(ids.contains(gap as u16));
            assert(removal.connected@[id as int] == needed);
            if ids.contains(id) {
                let k = choose|k: int| 0 <= k < ids.len() && ids[k] == id;
                assert(dropped(ids[k] as int));
            }
            if !needed {
                assert(dropped(id as int));
                assert(id as int as u16 == id);
            }
            assert forall|p: int, q: int|
                0 <= p < ids.len() && 0 <= q < ids.len() && p != q implies ids[p] != ids[q] by {
                if p < q {
                    assert(ids[p] > ids[q]);
                } else {
                    assert(ids[q] > ids[p]);
                }
            }
            assert forall|p: int, q: int|
                0 <= p < ids.len() && 0 <= q < ids.len() && p != q && needs(
                    before.catalog@,
                    before.systems@[(#[trigger] ids[p]) as int].system_id.key as int,
                    before.systems@[(#[trigger] ids[q]) as int].system_id.key as int,
                ) implies p < q by {
                let a = key_at(before.systems@, ids[p] as int);
                let b = key_at(before.systems@, ids[q] as int);
                assert(initializers.dom().contains(a));
                assert(initializers.dom().contains(b));
                law_systems_mirror_types(before, a, b);
                lemma_reaches_backward(before.graph(), false, ids[p] as int, ids[q] as int);
                if q < p {
                    assert(ids[q] > ids[p]);
                }
            }
        },
        _ => {
            assert(begun.anchored(id as int));
        },
    }
}

/// What is loaded after a removal has kept its value, is added by itself if it was before, and comes
/// in the same order as before.
pub proof fn law_removal_keeps_values<V>(
    before: &ContextInner<V>,
    begun: &ContextInner<V>,
    after: &ContextInner<V>,
    system: ConstTypeId,
    removal: Removal,
    key: usize,
    other: usize,
)
    requires
        before.wf(),
        after.wf(),
        before.system_initializers@.dom().contains(system.key),
        removal_begun(before, begun, system, CloggedAction::Drop(removal)),
        removed(begun, after, removal.connected@),
        after.system_initializers@.dom().contains(key),
        after.system_initializers@.dom().contains(other),
    ensures
        ({
            let old = before.system_initializers@;
            let new = after.system_initializers@;
            &&& after.catalog@ == before.catalog@
            &&& after.owning_thread == before.owning_thread
            &&& old.dom().contains(key)
            &&& new[key].top_level == (old[key].top_level && key != system.key)
            &&& after.systems@[new[key].id as int].value
                == before.systems@[old[key].id as int].value
            &&& old[key].id < old[other].id ==> new[key].id < new[other].id
        }),
{
    lemma_removal_moves(before, begun, after, system, removal, key);
    lemma_removal_moves(before, begun, after, system, removal, other);
    let first = before.system_initializers@[key].id as int;
    let second = before.system_initializers@[other].id as int;
    if first < second {
        lemma_ones_before_monotonic(removal.connected@, first + 1, second);
    }
}

/// Where a removal puts a system that is left.
proof fn lemma_removal_moves<V>(
    before: &ContextInner<V>,
    begun: &ContextInner<V>,
    after: &ContextInner<V>,
    system: ConstTypeId,
    removal: Removal,
    key: usize,
)
    requires
        before.wf(),
        after.wf(),
        before.system_initializers@.dom().contains(system.key),
        removal_begun(before, begun, system, CloggedAction::Drop(removal)),
        removed(begun, after, removal.connected@),
        after.system_initializers@.dom().contains(key),
    ensures
        ({
            let old = before.system_initializers@;
            let new = after.system_initializers@;
            let id = old[key].id as int;
            &&& old.dom().contains(key)
            &&& id < before.count()
            &&& removal.connected@.len() == before.count()
            &&& removal.connected@[id]
            &&& new[key].id == ones_before(removal.connected@, id)
            &&& new[key].top_level == (old[key].top_level && key != system.key)
            &&& after.systems@[new[key].id as int].value == before.systems@[id].value
        }),
{
    assert(after.loaded(key));
    assert(begun.loaded(key));
    assert(before.loaded(key));
    law_links_are_dependencies(before, key, 0);
    let id = before.system_initializers@[key].id as int;
    assert(begun.system_initializers@[key].id == id);
    assert(removal.connected@[id]);
    let place = ones_before(removal.connected@, id) as int;
    assert(after.systems@[place].system_id == begun.systems@[id].system_id);
    assert(key_at(after.systems@, place) == key);
    assert(after.system_initializers@[key_at(after.systems@, place)].id == place);
}

/// To reset a system, everything that needs it is dropped, and then created anew: the system itself
/// and all whose types need its type, and nothing else. Each is dropped once, before everything that
/// it needs, and created once, after everything that it needs.
pub proof fn law_reset_reloads_dependents<V>(
    ctx: &ContextInner<V>,
    system: ConstTypeId,
    reset: Reset,
    key: usize,
)
    requires
        ctx.wf(),
        ctx.system_initializers@.dom().contains(system.key),
        resets(ctx, system, reset),
        ctx.system_initializers@.dom().contains(key),
    ensures
        ({
            let unload = reset.unload@;
            let load = reset.load@;
            let id = ctx.system_initializers@[key].id;
            &&& unload.contains(id) <==> needs(ctx.catalog@, key as int, system.key as int)
            &&& load.contains(id) <==> needs(ctx.catalog@, key as int, system.key as int)
            &&& forall|p: int|
                0 <= p < unload.len() ==> (#[trigger] unload[p]) < ctx.systems@.len()
            &&& forall|p: int| 0 <= p < load.len() ==> (#[trigger] load[p]) < ctx.systems@.len()
            &&& forall|p: int, q: int|
                0 <= p < unload.len() && 0 <= q < unload.len() && p != q ==> unload[p]
                    != unload[q]
            &&& forall|p: int, q: int|
                0 <= p < load.len() && 0 <= q < load.len() && p != q ==> load[p] != load[q]
            &&& forall|p: int, q: int|
                0 <= p < unload.len() && 0 <= q < unload.len() && p != q && needs(
                    ctx.catalog@,
                    ctx.systems@[(#[trigger] unload[p]) as int].system_id.key as int,
                    ctx.systems@[(#[trigger] unload[q]) as int].system_id.key as int,
                ) ==> p < q
            &&& forall|p: int, q: int|
                0 <= p < load.len() && 0 <= q < load.len() && p != q && needs(
                    ctx.catalog@,
                    ctx.systems@[(#[trigger] load[p]) as int].system_id.key as int,
                    ctx.systems@[(#[trigger] load[q]) as int].system_id.key as int,
                ) ==> q < p
        }),
{
    let unload = reset.unload@;
    let load = reset.load@;
    let id = ctx.system_initializers@[key].id;
    let own = ctx.system_initializers@[system.key].id as int;
    let dependent = |i: int| reaches(ctx.graph(), false, i, own);
    law_links_are_dependencies(ctx, key, 0);
    law_systems_mirror_types(ctx, key, system.key);
    assert(dependent(id as int) == needs(ctx.catalog@, key as int, system.key as int));
    assert(id as int as u16 == id);
    if unload.contains(id) {
        let k = choose|k: int| 0 <= k < unload.len() && unload[k] == id;
        assert(dependent(unload[k] as int));
    }
    if load.contains(id) {
        let k = choose|k: int| 0 <= k < load.len() && load[k] == id;
        assert(dependent(load[k] as int));
    }
    assert forall|p: int, q: int|
        0 <= p < unload.len() && 0 <= q < unload.len() && p != q implies unload[p] != unload[q] by {
        if p < q {
            assert(unload[p] > unload[q]);
        } else {
            assert(unload[q] > unload[p]);
        }
    }
    assert forall|p: int, q: int|
        0 <= p < load.len() && 0 <= q < load.len() && p != q implies load[p] != load[q] by {
        if p < q {
            assert(load[p] < load[q]);
        } else {
            assert(load[q] < load[p]);
        }
    }
    assert forall|i: int, j: int|
        #![trigger ctx.systems@[i], ctx.systems@[j]]
        0 <= i < ctx.count() && 0 <= j < ctx.count() && needs(
            ctx.catalog@,
            ctx.systems@[i].system_id.key as int,
            ctx.systems@[j].system_id.key as int,
        ) implies j <= i by {
        let a = key_at(ctx.systems@, i);
        let b = key_at(ctx.systems@, j);
        assert(ctx.system_initializers@.dom().contains(a));
        assert(ctx.system_initializers@.dom().contains(b));
        law_systems_mirror_types(ctx, a, b);
        lemma_reaches_backward(ctx.graph(), false, i, j);
    }
    assert forall|p: int, q: int|
        0 <= p < unload.len() && 0 <= q < unload.len() && p != q && needs(
            ctx.catalog@,
            ctx.systems@[(#[trigger] unload[p]) as int].system_id.key as int,
            ctx.systems@[(#[trigger] unload[q]) as int].system_id.key as int,
        ) implies p < q by {
        if q < p {
            assert(unload[q] > unload[p]);
        }
    }
    assert forall|p: int, q: int|
        0 <= p < load.len() && 0 <= q < load.len() && p != q && needs(
            ctx.catalog@,
            ctx.systems@[(#[trigger] load[p]) as int].system_id.key as int,
            ctx.systems@[(#[trigger] load[q]) as int].system_id.key as int,
        ) implies q < p by {
        if p < q {
            assert(load[p] < load[q]);
        }
    }
}

/// As a removal begins, the system counts as added by itself no more. Nothing else changes until the
/// systems to drop have been dropped.
pub proof fn law_removal_begins_with_the_system<V>(
    before: &ContextInner<V>,
    begun: &ContextInner<V>,
    system: ConstTypeId,
    action: CloggedAction,
    key: usize,
)
    requires
        before.system_initializers@.dom().contains(system.key),
        removal_begun(before, begun, system, action),
    ensures
        begun.catalog == before.catalog,
        begun.owning_thread == before.owning_thread,
        begun.systems == before.systems,
        begun.event_handlers == before.event_handlers,
        begun.system_initializers@.dom() == before.system_initializers@.dom(),
        before.system_initializers@.dom().contains(key) ==> {
            let old = before.system_initializers@[key];
            let new = begun.system_initializers@[key];
            &&& new.id == old.id
            &&& new.descriptor == old.descriptor
            &&& new.top_level == (old.top_level && key != system.key)
        },
{
    assert(begun.system_initializers@.dom() =~= before.system_initializers@.dom());
}

/// A thread may ask for a job as long as there is an index for each node that comes about, and a
/// request may be carried out as long as nothing is in progress, no other request is due and, where a
/// system is added, no system is borrowed.
pub proof fn law_requests_wait_for_nothing_else<V>(ctx: &GeeseContext<V>, main_thread: bool)
    ensures
        ctx.roomy(main_thread) <==> ctx.manager.start() + next(
            ctx.inner.plan(),
            main_thread,
            ctx.manager.pipeline(),
        ).0.nodes.len() < isize::MAX,
        ctx.idle() <==> ctx.manager.nodes().len() == 0 && ctx.manager.clogged_event is None,
        ctx.inner.unborrowed() <==> forall|i: int|
            0 <= i < ctx.inner.systems@.len() ==> (#[trigger] ctx.inner.systems@[i]).value.state()
                == 0,
{
}

} // verus!

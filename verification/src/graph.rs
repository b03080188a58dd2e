//! Dependency graphs: which systems can be reached from a system by following dependencies.
use vstd::prelude::*;

verus! {

/// A dependency of one system on another.
pub struct Link {
    /// The position of the system that is depended upon.
    pub to: int,
    /// Whether that system may be mutably borrowed.
    pub mutable: bool,
}

/// A list of dependencies for each system. A system only depends on systems before it.
pub open spec fn ordered(graph: Seq<Seq<Link>>) -> bool {
    forall|i: int, k: int|
        0 <= i < graph.len() && 0 <= k < graph[i].len() ==> 0 <= (#[trigger] graph[i][k]).to < i
}

/// Whether a system has a dependency at the given place of its list, which counts: where only
/// mutable dependencies are asked for, others do not.
pub open spec fn steps(graph: Seq<Seq<Link>>, only_mutable: bool, from: int, k: int) -> bool {
    &&& 0 <= from < graph.len()
    &&& 0 <= k < graph[from].len()
    &&& only_mutable ==> graph[from][k].mutable
    &&& 0 <= graph[from][k].to < from
}

/// Whether one system is another one, or depends on it directly or through other systems.
pub open spec fn reaches(graph: Seq<Seq<Link>>, only_mutable: bool, from: int, to: int) -> bool
    decreases from,
{
    ||| from == to
    ||| exists|k: int| #[trigger]
        steps(graph, only_mutable, from, k) && reaches(graph, only_mutable, graph[from][k].to, to)
}

/// What is reached does not come after the start.
pub proof fn lemma_reaches_backward(graph: Seq<Seq<Link>>, only_mutable: bool, from: int, to: int)
    requires
        reaches(graph, only_mutable, from, to),
    ensures
        to <= from,
        0 <= from ==> 0 <= to,
    decreases from,
{
    if from != to {
        let k = choose|k: int| #[trigger]
            steps(graph, only_mutable, from, k) && reaches(
                graph,
                only_mutable,
                graph[from][k].to,
                to,
            );
        lemma_reaches_backward(graph, only_mutable, graph[from][k].to, to);
    }
}

/// Reaching is transitive.
pub proof fn lemma_reaches_transitive(
    graph: Seq<Seq<Link>>,
    only_mutable: bool,
    from: int,
    middle: int,
    to: int,
)
    requires
        reaches(graph, only_mutable, from, middle),
        reaches(graph, only_mutable, middle, to),
    ensures
        reaches(graph, only_mutable, from, to),
    decreases from,
{
    if from != middle {
        let k = choose|k: int| #[trigger]
            steps(graph, only_mutable, from, k) && reaches(
                graph,
                only_mutable,
                graph[from][k].to,
                middle,
            );
        lemma_reaches_transitive(graph, only_mutable, graph[from][k].to, middle, to);
        assert(steps(graph, only_mutable, from, k));
    }
}

/// A direct dependency is reached.
pub proof fn lemma_reaches_direct(graph: Seq<Seq<Link>>, only_mutable: bool, from: int, k: int)
    requires
        steps(graph, only_mutable, from, k),
    ensures
        reaches(graph, only_mutable, from, graph[from][k].to),
{
    assert(reaches(graph, only_mutable, graph[from][k].to, graph[from][k].to));
}

/// What is reached from a system other than itself is a direct dependency of something that is
/// reached from it.
pub proof fn lemma_reaches_last_step(
    graph: Seq<Seq<Link>>,
    only_mutable: bool,
    from: int,
    to: int,
) -> (last: (int, int))
    requires
        reaches(graph, only_mutable, from, to),
        from != to,
    ensures
        reaches(graph, only_mutable, from, last.0),
        steps(graph, only_mutable, last.0, last.1),
        graph[last.0][last.1].to == to,
    decreases from,
{
    let k = choose|k: int| #[trigger]
        steps(graph, only_mutable, from, k) && reaches(graph, only_mutable, graph[from][k].to, to);
    let next = graph[from][k].to;
    if next == to {
        (from, k)
    } else {
        let last = lemma_reaches_last_step(graph, only_mutable, next, to);
        assert(steps(graph, only_mutable, from, k) && reaches(graph, only_mutable, next, last.0));
        last
    }
}

/// What is reached from a system rests on the dependency lists up to that system only.
pub proof fn lemma_reaches_prefix(
    a: Seq<Seq<Link>>,
    b: Seq<Seq<Link>>,
    only_mutable: bool,
    from: int,
    to: int,
)
    requires
        from < a.len(),
        from < b.len(),
        forall|i: int| 0 <= i <= from ==> #[trigger] a[i] == b[i],
    ensures
        reaches(a, only_mutable, from, to) == reaches(b, only_mutable, from, to),
    decreases from,
{
    if from >= 0 {
        assert(a[from] == b[from]);
        assert forall|k: int| #[trigger]
            steps(a, only_mutable, from, k) || #[trigger] steps(b, only_mutable, from, k) implies (
        reaches(a, only_mutable, a[from][k].to, to) == reaches(
            b,
            only_mutable,
            a[from][k].to,
            to,
        )) by {
            lemma_reaches_prefix(a, b, only_mutable, a[from][k].to, to);
        }
        assert forall|k: int| #[trigger] steps(a, only_mutable, from, k) implies steps(
            b,
            only_mutable,
            from,
            k,
        ) by {}
        assert forall|k: int| #[trigger] steps(b, only_mutable, from, k) implies steps(
            a,
            only_mutable,
            from,
            k,
        ) by {}
    } else {
        assert(reaches(a, only_mutable, from, to) == (from == to)) by {
            assert forall|k: int| !(#[trigger] steps(a, only_mutable, from, k)) by {}
        }
        assert(reaches(b, only_mutable, from, to) == (from == to)) by {
            assert forall|k: int| !(#[trigger] steps(b, only_mutable, from, k)) by {}
        }
    }
}

/// Where the systems of a graph are renumbered, and every dependency of a kept system is kept,
/// reaching stays as it was among the kept systems.
pub proof fn lemma_reaches_renumbered(
    old_graph: Seq<Seq<Link>>,
    new_graph: Seq<Seq<Link>>,
    place: spec_fn(int) -> int,
    kept: spec_fn(int) -> bool,
    only_mutable: bool,
    from: int,
    to: int,
)
    requires
        0 <= from < old_graph.len(),
        0 <= to < old_graph.len(),
        kept(from),
        kept(to),
        renumbered(old_graph, new_graph, place, kept),
    ensures
        reaches(new_graph, only_mutable, place(from), place(to)) == reaches(
            old_graph,
            only_mutable,
            from,
            to,
        ),
    decreases from,
{
    if from != to {
        assert(place(from) != place(to));
        if reaches(old_graph, only_mutable, from, to) {
            let k = choose|k: int| #[trigger]
                steps(old_graph, only_mutable, from, k) && reaches(
                    old_graph,
                    only_mutable,
                    old_graph[from][k].to,
                    to,
                );
            lemma_reaches_renumbered(
                old_graph,
                new_graph,
                place,
                kept,
                only_mutable,
                old_graph[from][k].to,
                to,
            );
            assert(new_graph[place(from)][k].to == place(old_graph[from][k].to));
            assert(steps(new_graph, only_mutable, place(from), k));
        }
        if reaches(new_graph, only_mutable, place(from), place(to)) {
            let k = choose|k: int| #[trigger]
                steps(new_graph, only_mutable, place(from), k) && reaches(
                    new_graph,
                    only_mutable,
                    new_graph[place(from)][k].to,
                    place(to),
                );
            assert(new_graph[place(from)][k].to == place(old_graph[from][k].to));
            lemma_reaches_renumbered(
                old_graph,
                new_graph,
                place,
                kept,
                only_mutable,
                old_graph[from][k].to,
                to,
            );
            assert(steps(old_graph, only_mutable, from, k));
        }
    }
}

/// Whether a graph holds the kept systems of another one, each at its new place, with the same
/// dependencies.
pub open spec fn renumbered(
    old_graph: Seq<Seq<Link>>,
    new_graph: Seq<Seq<Link>>,
    place: spec_fn(int) -> int,
    kept: spec_fn(int) -> bool,
) -> bool {
    &&& ordered(old_graph)
    &&& forall|i: int|
        0 <= i < old_graph.len() && kept(i) ==> 0 <= #[trigger] place(i) < new_graph.len()
    &&& forall|i: int, j: int|
        0 <= i < j < old_graph.len() && kept(i) && kept(j) ==> #[trigger] place(i)
            < #[trigger] place(j)
    &&& forall|i: int|
        0 <= i < old_graph.len() && kept(i) ==> (#[trigger] new_graph[place(i)]).len()
            == old_graph[i].len()
    &&& forall|i: int, k: int|
        0 <= i < old_graph.len() && kept(i) && 0 <= k < old_graph[i].len() ==> {
            &&& kept((#[trigger] old_graph[i][k]).to)
            &&& new_graph[place(i)][k].to == place(old_graph[i][k].to)
            &&& new_graph[place(i)][k].mutable == old_graph[i][k].mutable
        }
}

/// Whether a system on a path has a dependency on the next one, which may be mutably borrowed if
/// that is asked for.
pub open spec fn linked(
    graph: Seq<Seq<Link>>,
    only_mutable: bool,
    path: Seq<int>,
    i: int,
) -> bool {
    &&& 0 <= path[i] < graph.len()
    &&& exists|k: int|
        0 <= k < graph[path[i]].len() && (#[trigger] graph[path[i]][k]).to == path[i + 1] && (
        only_mutable ==> graph[path[i]][k].mutable)
}

/// Whether a path leads from one system to another, from each system to one of its dependencies.
pub open spec fn leads(
    graph: Seq<Seq<Link>>,
    only_mutable: bool,
    path: Seq<int>,
    from: int,
    to: int,
) -> bool {
    &&& path.len() > 0
    &&& path[0] == from
    &&& path.last() == to
    &&& forall|i: int|
        0 <= i < path.len() - 1 ==> #[trigger] linked(graph, only_mutable, path, i)
}

/// A path to a system that is reached.
proof fn lemma_reaches_leads(
    graph: Seq<Seq<Link>>,
    only_mutable: bool,
    from: int,
    to: int,
) -> (path: Seq<int>)
    requires
        reaches(graph, only_mutable, from, to),
    ensures
        leads(graph, only_mutable, path, from, to),
    decreases from,
{
    if from == to {
        seq![from]
    } else {
        let k = choose|k: int| #[trigger]
            steps(graph, only_mutable, from, k) && reaches(
                graph,
                only_mutable,
                graph[from][k].to,
                to,
            );
        let rest = lemma_reaches_leads(graph, only_mutable, graph[from][k].to, to);
        let path = seq![from] + rest;
        assert forall|i: int| 0 <= i < path.len() - 1 implies #[trigger] linked(
            graph,
            only_mutable,
            path,
            i,
        ) by {
            if i == 0 {
                assert(graph[path[0]][k].to == path[1]);
            } else {
                assert(linked(graph, only_mutable, rest, i - 1));
                let d = choose|d: int|
                    0 <= d < graph[rest[i - 1]].len() && (#[trigger] graph[rest[i - 1]][d]).to
                        == rest[i - 1 + 1] && (only_mutable ==> graph[rest[i - 1]][d].mutable);
                assert(graph[path[i]][d].to == path[i + 1]);
            }
        }
        path
    }
}

/// What a path leads to is reached.
proof fn lemma_leads_reaches(
    graph: Seq<Seq<Link>>,
    only_mutable: bool,
    path: Seq<int>,
    from: int,
    to: int,
)
    requires
        ordered(graph),
        leads(graph, only_mutable, path, from, to),
    ensures
        reaches(graph, only_mutable, from, to),
    decreases path.len(),
{
    if path.len() > 1 {
        let rest = path.drop_first();
        assert(linked(graph, only_mutable, path, 0));
        let k = choose|k: int|
            0 <= k < graph[path[0]].len() && (#[trigger] graph[path[0]][k]).to == path[1] && (
            only_mutable ==> graph[path[0]][k].mutable);
        assert forall|i: int| 0 <= i < rest.len() - 1 implies #[trigger] linked(
            graph,
            only_mutable,
            rest,
            i,
        ) by {
            assert(linked(graph, only_mutable, path, i + 1));
            let d = choose|d: int|
                0 <= d < graph[path[i + 1]].len() && (#[trigger] graph[path[i + 1]][d]).to
                    == path[i + 1 + 1] && (only_mutable ==> graph[path[i + 1]][d].mutable);
            assert(graph[rest[i]][d].to == rest[i + 1]);
        }
        lemma_leads_reaches(graph, only_mutable, rest, path[1], to);
        assert(steps(graph, only_mutable, from, k));
    }
}

/// One system reaches another exactly if a path leads there, from each system to one of its
/// dependencies.
pub proof fn law_reaching_follows_paths(
    graph: Seq<Seq<Link>>,
    only_mutable: bool,
    from: int,
    to: int,
)
    requires
        forall|i: int, k: int|
            0 <= i < graph.len() && 0 <= k < graph[i].len() ==> 0 <= (#[trigger] graph[i][k]).to
                < i,
    ensures
        reaches(graph, only_mutable, from, to) <==> exists|path: Seq<int>| #[trigger]
            leads(graph, only_mutable, path, from, to),
{
    if reaches(graph, only_mutable, from, to) {
        let path = lemma_reaches_leads(graph, only_mutable, from, to);
        assert(leads(graph, only_mutable, path, from, to));
    }
    if exists|path: Seq<int>| #[trigger] leads(graph, only_mutable, path, from, to) {
        let path = choose|path: Seq<int>| #[trigger] leads(graph, only_mutable, path, from, to);
        lemma_leads_reaches(graph, only_mutable, path, from, to);
    }
}

} // verus!

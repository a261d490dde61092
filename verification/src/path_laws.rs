//! Which attack paths a search gives, in what order, and when it says that something was cut off,
//! stated over the edges of the graph.
use crate::glob::stands_for;
use crate::graph::GraphView;
use crate::search::{
    all_paths, answers, default_limits, ends_here, found, goes_on, hops_from, ints, leaving, lemma_leaving,
    overlong, path_from, reaches, routes, GoalView, Limits, PathResult, SearchView,
};
use crate::search_laws::{
    all_paths_are_the_paths, lemma_found_sound, lemma_path_room, lemma_path_shape, lemma_route_room, stop, stops,
    untruncated_results_are_all,
};
use crate::store::joined_by_edge;
use vstd::prelude::*;

verus! {

/// The edges follow on each other from the node at `start`.
pub open spec fn chain(g: GraphView, start: int, q: Seq<int>) -> bool {
    forall|i: int| #![trigger q[i]]
        0 <= i < q.len() ==> 0 <= q[i] < g.edges.len() && g.ends[q[i]].0 == stop(g, start, q, i)
}

/// Every edge is of a kind in the list; a list without kinds takes all.
pub open spec fn of_kinds(g: GraphView, via: Seq<Seq<char>>, q: Seq<int>) -> bool {
    via.len() == 0 || forall|i: int| #![trigger q[i]] 0 <= i < q.len() ==> via.contains(g.edges[q[i]].kind)
}

/// No node is left twice.
pub open spec fn leaves_no_node_twice(g: GraphView, start: int, q: Seq<int>) -> bool {
    forall|i: int, j: int|
        #![trigger stop(g, start, q, i), stop(g, start, q, j)]
        0 <= i < j < q.len() ==> stop(g, start, q, i) != stop(g, start, q, j)
}

/// The edges lead from one node to another, without coming by a node twice. A way from a node back to
/// itself does not lead through all of several nodes.
pub open spec fn leads_to_node(g: GraphView, via: Seq<Seq<char>>, start: int, target: int, q: Seq<int>) -> bool {
    &&& q.len() > 0
    &&& chain(g, start, q)
    &&& of_kinds(g, via, q)
    &&& leaves_no_node_twice(g, start, q)
    &&& g.ends[q.last()].1 == target
    &&& forall|i: int| #![trigger q[i]] 0 <= i < q.len() - 1 ==> g.ends[q[i]].1 != target
    &&& start == target ==> q.len() < g.nodes.len() || g.nodes.len() == 1
}

/// The edges lead, without leaving a node twice, to an edge that grants an action which the pattern
/// stands for or which stands for the pattern. Where a resource is wanted and the grant names one, the
/// grant's resource stands for the wanted one.
pub open spec fn leads_to_action(
    g: GraphView,
    via: Seq<Seq<char>>,
    start: int,
    pattern: Seq<char>,
    resource: Option<Seq<char>>,
    q: Seq<int>,
) -> bool {
    &&& q.len() > 0
    &&& chain(g, start, q)
    &&& of_kinds(g, via, q)
    &&& leaves_no_node_twice(g, start, q)
    &&& g.edges[q.last()].action is Some
    &&& stands_for(pattern, g.edges[q.last()].action->0) || stands_for(g.edges[q.last()].action->0, pattern)
    &&& resource is Some && g.edges[q.last()].resource is Some ==> stands_for(
        g.edges[q.last()].resource->0,
        resource->0,
    )
}

/// The edges are an attack path to what is looked for.
pub open spec fn attack_path(g: GraphView, s: SearchView, start: int, q: Seq<int>) -> bool {
    match s.goal {
        GoalView::Node(target) => leads_to_node(g, s.via, start, target, q),
        GoalView::Action { pattern, resource } => leads_to_action(g, s.via, start, pattern, resource, q),
    }
}

/// The edges are hops that a search would try: they leave no node twice and do not come by the node
/// looked for, and the last is the end of an attack path or comes to a new node, which is not the one
/// looked for.
pub open spec fn tried(g: GraphView, s: SearchView, start: int, q: Seq<int>) -> bool {
    &&& q.len() > 0
    &&& chain(g, start, q)
    &&& of_kinds(g, s.via, q)
    &&& leaves_no_node_twice(g, start, q)
    &&& forall|i: int| #![trigger q[i]] 0 <= i < q.len() - 1 ==> s.goal != GoalView::Node(g.ends[q[i]].1)
    &&& attack_path(g, s, start, q) || (s.goal != GoalView::Node(g.ends[q.last()].1) && forall|i: int|
        0 <= i < q.len() ==> #[trigger] stop(g, start, q, i) != g.ends[q.last()].1)
}

/// The nodes that a route has been at before its hop at `i`.
spec fn been(g: GraphView, start: int, q: Seq<int>, i: int) -> Seq<int> {
    stops(g, start, q).take(i + 1)
}

/// A chain that leaves no node twice is a row of hops.
proof fn lemma_chain_goes(g: GraphView, s: SearchView, start: int, q: Seq<int>, i: int)
    requires
        chain(g, start, q),
        of_kinds(g, s.via, q),
        leaves_no_node_twice(g, start, q),
        0 <= i < q.len(),
        forall|j: int| #![trigger q[j]] 0 <= j < q.len() - 1 ==> s.goal != GoalView::Node(g.ends[q[j]].1),
    ensures
        leaving(g, s, been(g, start, q, i).last()).contains(q[i]),
        i < q.len() - 1 ==> goes_on(g, s, been(g, start, q, i), q[i]),
        i < q.len() - 1 ==> been(g, start, q, i).push(g.ends[q[i]].1) == been(g, start, q, i + 1),
        been(g, start, q, i).len() == i + 1,
{
    let seen = been(g, start, q, i);
    assert(seen.last() == stop(g, start, q, i));
    assert(0 <= q[i] < g.edges.len());
    lemma_leaving(g, s, seen.last(), 0);
    if i < q.len() - 1 {
        let x = g.ends[q[i]].1;
        assert(x == stop(g, start, q, i + 1));
        if seen.contains(x) {
            let m = choose|m: int| 0 <= m < seen.len() && seen[m] == x;
            assert(seen[m] == stop(g, start, q, m));
        }
        assert(seen.push(x) =~= been(g, start, q, i + 1));
    }
}

/// What the goal asks of the last edge is what the search asks of it.
proof fn lemma_goal(g: GraphView, s: SearchView, e: int)
    ensures
        reaches(g, s, e) == match s.goal {
            GoalView::Node(target) => g.ends[e].1 == target,
            GoalView::Action { pattern, resource } => {
                &&& g.edges[e].action is Some
                &&& stands_for(pattern, g.edges[e].action->0) || stands_for(g.edges[e].action->0, pattern)
                &&& resource is Some && g.edges[e].resource is Some ==> stands_for(g.edges[e].resource->0, resource->0)
            },
        },
{
}

proof fn lemma_path_of_chain(g: GraphView, s: SearchView, start: int, q: Seq<int>, i: int)
    requires
        g.wf(),
        attack_path(g, s, start, q),
        0 <= i < q.len(),
    ensures
        path_from(g, s, been(g, start, q, i), q.skip(i)),
    decreases q.len() - i,
{
    lemma_chain_goes(g, s, start, q, i);
    lemma_goal(g, s, q.last());
    let seen = been(g, start, q, i);
    let rest = q.skip(i);
    assert(rest[0] == q[i]);
    if i < q.len() - 1 {
        lemma_path_of_chain(g, s, start, q, i + 1);
        assert(rest.drop_first() =~= q.skip(i + 1));
    } else {
        if s.goal is Node && start != s.goal->Node_0 {
            let target = s.goal->Node_0;
            let p = stops(g, start, q);
            assert forall|k: int| 0 <= k < p.len() - 1 implies #[trigger] joined_by_edge(g.ends, p[k], p[k + 1]) by {
                assert(0 <= q[k] < g.edges.len());
                assert(g.ends[q[k]] == (p[k], p[k + 1]));
            }
            assert forall|a: int, b: int| 0 <= a < b < p.len() - 1 implies #[trigger] p[a] != #[trigger] p[b] by {
                assert(stop(g, start, q, a) != stop(g, start, q, b));
            }
            assert forall|k: int| 0 < k < p.len() - 1 implies #[trigger] p[k] != target by {
                assert(g.ends[q[k - 1]].1 != target);
            }
            assert(p.last() == target);
            lemma_route_room(g, start, target, p);
        }
    }
}

proof fn lemma_chain_of_path(g: GraphView, s: SearchView, start: int, q: Seq<int>)
    requires
        path_from(g, s, seq![start], q),
    ensures
        attack_path(g, s, start, q),
{
    let seen = seq![start];
    lemma_path_shape(g, s, seen, q);
    lemma_goal(g, s, q.last());
    assert forall|i: int, j: int|
        #![trigger stop(g, start, q, i), stop(g, start, q, j)]
        0 <= i < j < q.len() implies stop(g, start, q, i) != stop(g, start, q, j) by {
        assert(!seen.contains(g.ends[q[j - 1]].1));
        if i == 0 {
            assert(seen[0] == start);
        } else {
            assert(g.ends[q[i - 1]].1 != g.ends[q[j - 1]].1);
        }
    }
    if s.goal is Node {
        lemma_path_room(g, s, seen, q);
    }
}

/// What a search takes for a path is an attack path, and every attack path is one.
proof fn lemma_same(g: GraphView, s: SearchView, start: int, q: Seq<int>)
    requires
        g.wf(),
    ensures
        path_from(g, s, seq![start], q) <==> attack_path(g, s, start, q),
{
    if attack_path(g, s, start, q) {
        lemma_path_of_chain(g, s, start, q, 0);
        assert(been(g, start, q, 0) =~= seq![start]);
        assert(q.skip(0) =~= q);
    }
    if path_from(g, s, seq![start], q) {
        lemma_chain_of_path(g, s, start, q);
    }
}

/// Every path that a search gives is an attack path: its nodes are joined by its edges from the start
/// on, its edges are of the wanted kinds, it leaves no node twice, and it ends on the node looked for
/// or on a grant of the action on the resource. It has no more hops than the limit. No path is given
/// twice, and there are no more of them than the limit.
pub proof fn searches_give_attack_paths(r: PathResult, g: GraphView, s: SearchView, start: int, limits: Limits)
    requires
        g.wf(),
        answers(r, g, s, start, limits),
    ensures
        r.paths@.len() <= limits.max_results,
        forall|i: int| #![trigger r.paths@[i]]
            0 <= i < r.paths@.len() ==> {
                let nodes = r.paths@[i].nodes@;
                let edges = r.paths@[i].edges@;
                &&& attack_path(g, s, start, ints(edges))
                &&& edges.len() <= limits.max_depth
                &&& nodes.len() == edges.len() + 1
                &&& nodes[0] == start
                &&& forall|k: int| #![trigger edges[k]]
                    0 <= k < edges.len() ==> edges[k] < g.edges.len() && g.ends[edges[k] as int] == (
                        nodes[k] as int,
                        nodes[k + 1] as int,
                    )
            },
        forall|i: int, j: int|
            #![trigger r.paths@[i], r.paths@[j]]
            0 <= i < j < r.paths@.len() ==> r.paths@[i].edges@ != r.paths@[j].edges@,
{
    let depth = limits.max_depth as nat;
    let all = all_paths(g, s, start, depth);
    all_paths_are_the_paths(g, s, start, depth);
    assert(routes(r.paths@).len() == r.paths@.len());
    assert forall|i: int| #![trigger r.paths@[i]] 0 <= i < r.paths@.len() implies {
        let nodes = r.paths@[i].nodes@;
        let edges = r.paths@[i].edges@;
        &&& attack_path(g, s, start, ints(edges))
        &&& edges.len() <= limits.max_depth
        &&& nodes.len() == edges.len() + 1
        &&& nodes[0] == start
        &&& forall|k: int| #![trigger edges[k]]
            0 <= k < edges.len() ==> edges[k] < g.edges.len() && g.ends[edges[k] as int] == (
                nodes[k] as int,
                nodes[k + 1] as int,
            )
    } by {
        let p = r.paths@[i];
        let q = ints(p.edges@);
        assert(routes(r.paths@)[i] == q);
        assert(q == all[i]);
        assert(all.contains(all[i]));
        lemma_same(g, s, start, q);
        assert(p.fits(g));
        assert(q.len() == p.edges@.len());
        assert(q[0] == p.edges@[0] as int);
        assert(g.ends[q[0]].0 == stop(g, start, q, 0));
    }
    assert forall|i: int, j: int| #![trigger r.paths@[i], r.paths@[j]] 0 <= i < j < r.paths@.len() implies r.paths@[i].edges@
        != r.paths@[j].edges@ by {
        assert(routes(r.paths@)[i] == ints(r.paths@[i].edges@));
        assert(routes(r.paths@)[j] == ints(r.paths@[j].edges@));
        assert(all[i] != all[j]);
    }
}

/// An attack path within the depth is given, unless as many paths are given as the limit allows; and
/// where nothing was cut off, every attack path is given, of whatever length.
pub proof fn searches_give_every_attack_path(
    r: PathResult,
    g: GraphView,
    s: SearchView,
    start: int,
    limits: Limits,
    q: Seq<int>,
)
    requires
        g.wf(),
        answers(r, g, s, start, limits),
        attack_path(g, s, start, q),
    ensures
        q.len() <= limits.max_depth && r.paths@.len() < limits.max_results ==> exists|i: int|
            0 <= i < r.paths@.len() && ints((#[trigger] r.paths@[i]).edges@) == q,
        !r.truncated ==> exists|i: int| 0 <= i < r.paths@.len() && ints((#[trigger] r.paths@[i]).edges@) == q,
{
    let depth = limits.max_depth as nat;
    let all = all_paths(g, s, start, depth);
    all_paths_are_the_paths(g, s, start, depth);
    lemma_same(g, s, start, q);
    assert(routes(r.paths@).len() == r.paths@.len());
    if q.len() <= depth {
        assert(all.contains(q));
        let i = choose|i: int| 0 <= i < all.len() && all[i] == q;
        if i < r.paths@.len() {
            assert(routes(r.paths@)[i] == ints(r.paths@[i].edges@));
        }
    } else if !r.truncated {
        untruncated_results_are_all(r, g, s, start, limits);
        assert(routes(r.paths@).contains(q));
        let i = choose|i: int| 0 <= i < routes(r.paths@).len() && routes(r.paths@)[i] == q;
        assert(routes(r.paths@)[i] == ints(r.paths@[i].edges@));
    }
}

proof fn lemma_tried_of_hops(g: GraphView, s: SearchView, start: int, q: Seq<int>, i: int)
    requires
        g.wf(),
        tried(g, s, start, q),
        0 <= i < q.len(),
    ensures
        hops_from(g, s, been(g, start, q, i), q.skip(i)),
    decreases q.len() - i,
{
    lemma_chain_goes(g, s, start, q, i);
    let seen = been(g, start, q, i);
    let rest = q.skip(i);
    assert(rest[0] == q[i]);
    if i < q.len() - 1 {
        lemma_tried_of_hops(g, s, start, q, i + 1);
        assert(rest.drop_first() =~= q.skip(i + 1));
    } else {
        if attack_path(g, s, start, q) {
            lemma_path_of_chain(g, s, start, q, i);
            assert(rest.len() == 1);
        } else if seen.contains(g.ends[q[i]].1) {
            let m = choose|m: int| 0 <= m < seen.len() && seen[m] == g.ends[q[i]].1;
            assert(seen[m] == stop(g, start, q, m));
        }
    }
}

/// What holds of hops behind the nodes `seen`.
proof fn lemma_hops_shape(g: GraphView, s: SearchView, seen: Seq<int>, q: Seq<int>)
    requires
        seen.len() > 0,
        hops_from(g, s, seen, q),
    ensures
        forall|i: int| #![trigger q[i]]
            0 <= i < q.len() ==> {
                &&& 0 <= q[i] < g.edges.len()
                &&& s.via.len() == 0 || s.via.contains(g.edges[q[i]].kind)
                &&& g.ends[q[i]].0 == stop(g, seen.last(), q, i)
            },
        forall|i: int| #![trigger q[i]]
            0 <= i < q.len() - 1 ==> !seen.contains(g.ends[q[i]].1) && s.goal != GoalView::Node(g.ends[q[i]].1),
        forall|i: int, j: int| 0 <= i < j < q.len() - 1 ==> g.ends[q[i]].1 != g.ends[q[j]].1,
        path_from(g, s, seen, q) || ({
            let x = g.ends[q.last()].1;
            &&& s.goal != GoalView::Node(x)
            &&& !seen.contains(x)
            &&& forall|i: int| #![trigger q[i]] 0 <= i < q.len() - 1 ==> g.ends[q[i]].1 != x
        }),
    decreases q.len(),
{
    lemma_leaving(g, s, seen.last(), 0);
    assert(leaving(g, s, seen.last()).contains(q[0]));
    if q.len() > 1 {
        let after = seen.push(g.ends[q[0]].1);
        let rest = q.drop_first();
        lemma_hops_shape(g, s, after, rest);
        assert(rest.last() == q.last());
        assert(after[after.len() - 1] == g.ends[q[0]].1);
        assert forall|x: int| seen.contains(x) implies #[trigger] after.contains(x) by {
            let m = choose|m: int| 0 <= m < seen.len() && seen[m] == x;
            assert(after[m] == x);
        }
        assert forall|i: int| #![trigger q[i]] 0 <= i < q.len() implies {
            &&& 0 <= q[i] < g.edges.len()
            &&& s.via.len() == 0 || s.via.contains(g.edges[q[i]].kind)
            &&& g.ends[q[i]].0 == stop(g, seen.last(), q, i)
        } by {
            if i > 0 {
                assert(rest[i - 1] == q[i]);
                if i > 1 {
                    assert(rest[i - 2] == q[i - 1]);
                }
            }
        }
        assert forall|i: int| #![trigger q[i]] 0 <= i < q.len() - 1 implies !seen.contains(g.ends[q[i]].1) && s.goal
            != GoalView::Node(g.ends[q[i]].1) by {
            if i > 0 {
                assert(rest[i - 1] == q[i]);
                assert(!after.contains(g.ends[rest[i - 1]].1));
            }
        }
        assert forall|i: int, j: int| 0 <= i < j < q.len() - 1 implies g.ends[q[i]].1 != g.ends[q[j]].1 by {
            assert(rest[j - 1] == q[j]);
            if i == 0 {
                assert(!after.contains(g.ends[rest[j - 1]].1));
            } else {
                assert(rest[i - 1] == q[i]);
            }
        }
        if !path_from(g, s, seen, q) {
            let x = g.ends[q.last()].1;
            assert(!path_from(g, s, after, rest));
            assert(!after.contains(x));
            assert forall|i: int| #![trigger q[i]] 0 <= i < q.len() - 1 implies g.ends[q[i]].1 != x by {
                if i > 0 {
                    assert(rest[i - 1] == q[i]);
                }
            }
        }
    }
}

proof fn lemma_hops_are_tried(g: GraphView, s: SearchView, start: int, q: Seq<int>)
    requires
        g.wf(),
    ensures
        hops_from(g, s, seq![start], q) <==> tried(g, s, start, q),
{
    let seen = seq![start];
    if tried(g, s, start, q) {
        lemma_tried_of_hops(g, s, start, q, 0);
        assert(been(g, start, q, 0) =~= seen);
        assert(q.skip(0) =~= q);
    }
    if hops_from(g, s, seen, q) {
        lemma_hops_shape(g, s, seen, q);
        assert(seen[0] == start);
        assert forall|i: int, j: int|
            #![trigger stop(g, start, q, i), stop(g, start, q, j)]
            0 <= i < j < q.len() implies stop(g, start, q, i) != stop(g, start, q, j) by {
            assert(!seen.contains(g.ends[q[j - 1]].1));
            if i > 0 {
                assert(g.ends[q[i - 1]].1 != g.ends[q[j - 1]].1);
            }
        }
        if path_from(g, s, seen, q) {
            lemma_same(g, s, start, q);
        } else {
            let x = g.ends[q.last()].1;
            assert forall|i: int| 0 <= i < q.len() implies #[trigger] stop(g, start, q, i) != x by {
                if i > 0 {
                    assert(g.ends[q[i - 1]].1 != x);
                } else {
                    assert(seen.contains(start));
                }
            }
        }
    }
}

/// A search says that something was cut off exactly if an attack path within the depth is not given,
/// or if there are hops to try beyond the depth.
pub proof fn truncation_is_told(r: PathResult, g: GraphView, s: SearchView, start: int, limits: Limits)
    requires
        g.wf(),
        answers(r, g, s, start, limits),
    ensures
        r.truncated <==> {
            ||| exists|q: Seq<int>| #[trigger]
                attack_path(g, s, start, q) && q.len() <= limits.max_depth && forall|i: int|
                    0 <= i < r.paths@.len() ==> ints((#[trigger] r.paths@[i]).edges@) != q
            ||| exists|q: Seq<int>| #[trigger] tried(g, s, start, q) && q.len() == limits.max_depth + 1
        },
{
    let depth = limits.max_depth as nat;
    let cap = limits.max_results as int;
    let all = all_paths(g, s, start, depth);
    all_paths_are_the_paths(g, s, start, depth);
    assert(routes(r.paths@).len() == r.paths@.len());
    if overlong(g, s, seq![start], depth) {
        let q = choose|q: Seq<int>| #[trigger] hops_from(g, s, seq![start], q) && q.len() == depth + 1;
        lemma_hops_are_tried(g, s, start, q);
    }
    if exists|q: Seq<int>| #[trigger] tried(g, s, start, q) && q.len() == depth + 1 {
        let q = choose|q: Seq<int>| #[trigger] tried(g, s, start, q) && q.len() == depth + 1;
        lemma_hops_are_tried(g, s, start, q);
        assert(overlong(g, s, seq![start], depth));
    }
    if all.len() > cap {
        let q = all[cap];
        assert(all.contains(q));
        lemma_same(g, s, start, q);
        assert forall|i: int| 0 <= i < r.paths@.len() implies ints((#[trigger] r.paths@[i]).edges@) != q by {
            assert(routes(r.paths@)[i] == ints(r.paths@[i].edges@));
            assert(all[i] != all[cap]);
        }
        assert(attack_path(g, s, start, q));
    }
    if exists|q: Seq<int>| #[trigger]
        attack_path(g, s, start, q) && q.len() <= limits.max_depth && forall|i: int|
            0 <= i < r.paths@.len() ==> ints((#[trigger] r.paths@[i]).edges@) != q {
        let q = choose|q: Seq<int>| #[trigger]
            attack_path(g, s, start, q) && q.len() <= limits.max_depth && forall|i: int|
                0 <= i < r.paths@.len() ==> ints((#[trigger] r.paths@[i]).edges@) != q;
        lemma_same(g, s, start, q);
        assert(all.contains(q));
        let i = choose|i: int| 0 <= i < all.len() && all[i] == q;
        if i < r.paths@.len() {
            assert(routes(r.paths@)[i] == ints(r.paths@[i].edges@));
        }
    }
}

/// A route is given before another: where they part, it takes the newer edge; where one is the
/// beginning of the other, it is the shorter.
pub open spec fn given_before(p: Seq<int>, q: Seq<int>) -> bool {
    exists|k: int| #[trigger] parts_at(p, q, k)
}

/// The routes agree on the first `k` hops, and then the first has ended or takes a newer edge.
pub open spec fn parts_at(p: Seq<int>, q: Seq<int>, k: int) -> bool {
    &&& 0 <= k <= p.len()
    &&& k < q.len()
    &&& forall|i: int| 0 <= i < k ==> p[i] == q[i]
    &&& k == p.len() || p[k] > q[k]
}

proof fn lemma_found_ordered(g: GraphView, s: SearchView, trail: Seq<int>, seen: Seq<int>, left: nat, k: nat)
    requires
        seen.len() > 0,
    ensures
        forall|i: int, j: int|
            0 <= i < j < found(g, s, trail, seen, left, k).len() ==> given_before(
                #[trigger] found(g, s, trail, seen, left, k)[i],
                #[trigger] found(g, s, trail, seen, left, k)[j],
            ),
    decreases left, leaving(g, s, seen.last()).len() - k,
{
    let out = leaving(g, s, seen.last());
    if left > 0 && k < out.len() {
        let e = out[k as int];
        let here = if ends_here(g, s, seen, e) {
            seq![trail.push(e)]
        } else {
            Seq::empty()
        };
        let after = seen.push(g.ends[e].1);
        let deeper = if goes_on(g, s, seen, e) {
            found(g, s, trail.push(e), after, (left - 1) as nat, 0)
        } else {
            Seq::empty()
        };
        let rest = found(g, s, trail, seen, left, k + 1);
        let all = here + deeper + rest;
        let n = trail.len() as int;
        if goes_on(g, s, seen, e) {
            lemma_found_ordered(g, s, trail.push(e), after, (left - 1) as nat, 0);
        }
        lemma_found_ordered(g, s, trail, seen, left, k + 1);
        lemma_leaving(g, s, seen.last(), 0);
        assert forall|i: int| 0 <= i < deeper.len() implies #[trigger] deeper[i].len() > n + 1 && deeper[i].take(n + 1)
            == trail.push(e) by {
            assert(deeper.contains(deeper[i]));
            lemma_found_sound(g, s, trail.push(e), after, (left - 1) as nat, 0, deeper[i]);
        }
        assert forall|i: int| 0 <= i < rest.len() implies #[trigger] rest[i].len() > n && rest[i].take(n) == trail
            && rest[i][n] < e by {
            assert(rest.contains(rest[i]));
            lemma_found_sound(g, s, trail, seen, left, k + 1, rest[i]);
            let j = choose|j: int| k + 1 <= j < out.len() && #[trigger] out[j] == rest[i][n];
            assert(out[k as int] > out[j]);
        }
        let h = here.len() as int;
        let d = deeper.len() as int;
        assert forall|i: int, j: int| 0 <= i < j < all.len() implies given_before(#[trigger] all[i], #[trigger] all[j]) by {
            if i < h {
                assert(all[i] == trail.push(e));
                if j < h + d {
                    assert(all[j] == deeper[j - h]);
                    assert forall|m: int| 0 <= m < n + 1 implies all[i][m] == all[j][m] by {
                        assert(all[j].take(n + 1)[m] == all[j][m]);
                    }
                    assert(parts_at(all[i], all[j], n + 1));
                } else {
                    lemma_parts(all[i], all[j], trail, e, rest, j - h - d);
                }
            } else if i < h + d {
                assert(all[i] == deeper[i - h]);
                if j < h + d {
                    assert(all[j] == deeper[j - h]);
                    assert(given_before(deeper[i - h], deeper[j - h]));
                } else {
                    assert forall|m: int| 0 <= m < n + 1 implies all[i][m] == trail.push(e)[m] by {
                        assert(all[i].take(n + 1)[m] == all[i][m]);
                    }
                    lemma_parts(all[i], all[j], trail, e, rest, j - h - d);
                }
            } else {
                assert(all[i] == rest[i - h - d] && all[j] == rest[j - h - d]);
                assert(given_before(rest[i - h - d], rest[j - h - d]));
            }
        }
        assert(all == found(g, s, trail, seen, left, k));
    }
}

proof fn lemma_parts(p: Seq<int>, q: Seq<int>, trail: Seq<int>, e: int, rest: Seq<Seq<int>>, j: int)
    requires
        0 <= j < rest.len(),
        q == rest[j],
        p.len() > trail.len(),
        forall|m: int| 0 <= m < trail.len() + 1 ==> p[m] == trail.push(e)[m],
        q.len() > trail.len(),
        q.take(trail.len() as int) == trail,
        q[trail.len() as int] < e,
    ensures
        given_before(p, q),
{
    let n = trail.len() as int;
    assert forall|m: int| 0 <= m < n implies p[m] == q[m] by {
        assert(q.take(n)[m] == q[m]);
        assert(trail.push(e)[m] == trail[m]);
    }
    assert(trail.push(e)[n] == e);
    assert(parts_at(p, q, n));
}

/// The paths of a search come with those over newer edges first, and what is left out for want of
/// room comes behind all that is given.
pub proof fn newer_edges_come_first(r: PathResult, g: GraphView, s: SearchView, start: int, limits: Limits)
    requires
        g.wf(),
        answers(r, g, s, start, limits),
    ensures
        forall|i: int, j: int|
            #![trigger r.paths@[i], r.paths@[j]]
            0 <= i < j < r.paths@.len() ==> given_before(ints(r.paths@[i].edges@), ints(r.paths@[j].edges@)),
        forall|i: int, q: Seq<int>|
            #![trigger r.paths@[i], attack_path(g, s, start, q)]
            0 <= i < r.paths@.len() && attack_path(g, s, start, q) && q.len() <= limits.max_depth && (forall|j: int|
                0 <= j < r.paths@.len() ==> ints((#[trigger] r.paths@[j]).edges@) != q) ==> given_before(
                ints(r.paths@[i].edges@),
                q,
            ),
{
    let depth = limits.max_depth as nat;
    let all = all_paths(g, s, start, depth);
    all_paths_are_the_paths(g, s, start, depth);
    lemma_found_ordered(g, s, Seq::empty(), seq![start], depth, 0);
    assert(routes(r.paths@).len() == r.paths@.len());
    assert forall|i: int| #![trigger r.paths@[i]] 0 <= i < r.paths@.len() implies ints(r.paths@[i].edges@) == all[i] by {
        assert(routes(r.paths@)[i] == ints(r.paths@[i].edges@));
    }
    assert forall|i: int, q: Seq<int>|
        #![trigger r.paths@[i], attack_path(g, s, start, q)]
        0 <= i < r.paths@.len() && attack_path(g, s, start, q) && q.len() <= limits.max_depth && (forall|j: int|
            0 <= j < r.paths@.len() ==> ints((#[trigger] r.paths@[j]).edges@) != q) implies given_before(
        ints(r.paths@[i].edges@),
        q,
    ) by {
        lemma_same(g, s, start, q);
        assert(all.contains(q));
        let j = choose|j: int| 0 <= j < all.len() && all[j] == q;
        if j < r.paths@.len() {
            assert(ints(r.paths@[j].edges@) == q);
        }
        assert(given_before(all[i], all[j]));
    }
}

/// A search without limits of its own goes eight hops far and gives a thousand paths.
pub proof fn searches_go_eight_hops_for_a_thousand_paths()
    ensures
        default_limits().max_depth == 8,
        default_limits().max_results == 1000,
{
}

} // verus!

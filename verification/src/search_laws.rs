//! What holds of every attack-path search.
use crate::graph::GraphView;
use crate::search::{
    admitted, all_paths, answers, ends_here, found, goes_on, grants, hops_from, leaving, lemma_leaving, overlong,
    path_from, reaches, routes, GoalView, Limits, PathResult, SearchView,
};
use crate::store::{joined_by_edge, simple_route};
use vstd::prelude::*;
use vstd::set_lib::{lemma_int_range, lemma_len_subset, set_int_range};

verus! {

/// What is found behind a trail is the trail and a path from where it ends.
pub proof fn lemma_found_sound(
    g: GraphView,
    s: SearchView,
    trail: Seq<int>,
    seen: Seq<int>,
    left: nat,
    k: nat,
    p: Seq<int>,
)
    requires
        seen.len() > 0,
        found(g, s, trail, seen, left, k).contains(p),
    ensures
        trail.len() < p.len() <= trail.len() + left,
        p.take(trail.len() as int) == trail,
        path_from(g, s, seen, p.skip(trail.len() as int)),
        exists|j: int|
            k <= j < leaving(g, s, seen.last()).len() && #[trigger] leaving(g, s, seen.last())[j] == p[trail.len() as int],
    decreases left, leaving(g, s, seen.last()).len() - k,
{
    let out = leaving(g, s, seen.last());
    let e = out[k as int];
    let here = if ends_here(g, s, seen, e) {
        seq![trail.push(e)]
    } else {
        Seq::empty()
    };
    let after = seen.push(g.ends[e].1);
    let deeper = if goes_on(g, s, seen, e) {
        found(g, s, trail.push(e), after, (left - 1) as nat, 0)
    } else {
        Seq::empty()
    };
    let rest = found(g, s, trail, seen, left, k + 1);
    let all = here + deeper + rest;
    let i = choose|i: int| 0 <= i < all.len() && all[i] == p;
    let n = trail.len() as int;
    if i < here.len() {
        assert(p == trail.push(e));
        assert(p.take(n) =~= trail);
        assert(p.skip(n) =~= seq![e]);
        assert(out.contains(e));
    } else if i < here.len() + deeper.len() {
        assert(deeper[i - here.len()] == p);
        lemma_found_sound(g, s, trail.push(e), after, (left - 1) as nat, 0, p);
        assert(p.take(n) =~= p.take(n + 1).take(n));
        assert(trail.push(e).take(n) =~= trail);
        assert(p[n] == p.take(n + 1)[n]);
        let q = p.skip(n);
        assert(q[0] == e);
        assert(q.drop_first() =~= p.skip(n + 1));
        assert(out.contains(e));
        assert(path_from(g, s, seen, q));
    } else {
        assert(rest[i - here.len() - deeper.len()] == p);
        lemma_found_sound(g, s, trail, seen, left, k + 1, p);
    }
}

/// A path from where a trail ends is found behind the trail.
proof fn lemma_found_complete(
    g: GraphView,
    s: SearchView,
    trail: Seq<int>,
    seen: Seq<int>,
    left: nat,
    k: nat,
    j: int,
    q: Seq<int>,
)
    requires
        seen.len() > 0,
        path_from(g, s, seen, q),
        q.len() <= left,
        k <= j < leaving(g, s, seen.last()).len(),
        leaving(g, s, seen.last())[j] == q[0],
    ensures
        found(g, s, trail, seen, left, k).contains(trail + q),
    decreases left, leaving(g, s, seen.last()).len() - k,
{
    let out = leaving(g, s, seen.last());
    let e = out[k as int];
    let here = if ends_here(g, s, seen, e) {
        seq![trail.push(e)]
    } else {
        Seq::empty()
    };
    let after = seen.push(g.ends[e].1);
    let deeper = if goes_on(g, s, seen, e) {
        found(g, s, trail.push(e), after, (left - 1) as nat, 0)
    } else {
        Seq::empty()
    };
    let rest = found(g, s, trail, seen, left, k + 1);
    let all = here + deeper + rest;
    let p = trail + q;
    if j == k {
        if q.len() == 1 {
            assert(p =~= trail.push(e));
            assert(all[0] == p);
        } else {
            let more = q.drop_first();
            assert(path_from(g, s, after, more));
            let next = leaving(g, s, after.last());
            let m = choose|m: int| 0 <= m < next.len() && next[m] == more[0];
            lemma_found_complete(g, s, trail.push(e), after, (left - 1) as nat, 0, m, more);
            assert(trail.push(e) + more =~= p);
            let i = choose|i: int| 0 <= i < deeper.len() && deeper[i] == p;
            assert(all[here.len() + i] == p);
        }
    } else {
        lemma_found_complete(g, s, trail, seen, left, k + 1, j, q);
        let i = choose|i: int| 0 <= i < rest.len() && rest[i] == p;
        assert(all[here.len() + deeper.len() + i] == p);
    }
}

/// Nothing is found twice behind a trail.
proof fn lemma_found_once(g: GraphView, s: SearchView, trail: Seq<int>, seen: Seq<int>, left: nat, k: nat)
    requires
        seen.len() > 0,
    ensures
        found(g, s, trail, seen, left, k).no_duplicates(),
    decreases left, leaving(g, s, seen.last()).len() - k,
{
    let out = leaving(g, s, seen.last());
    if left > 0 && k < out.len() {
        let e = out[k as int];
        let here = if ends_here(g, s, seen, e) {
            seq![trail.push(e)]
        } else {
            Seq::empty()
        };
        let after = seen.push(g.ends[e].1);
        let deeper = if goes_on(g, s, seen, e) {
            found(g, s, trail.push(e), after, (left - 1) as nat, 0)
        } else {
            Seq::empty()
        };
        let rest = found(g, s, trail, seen, left, k + 1);
        let all = here + deeper + rest;
        let n = trail.len() as int;
        if goes_on(g, s, seen, e) {
            lemma_found_once(g, s, trail.push(e), after, (left - 1) as nat, 0);
        }
        lemma_found_once(g, s, trail, seen, left, k + 1);
        lemma_leaving(g, s, seen.last(), 0);
        assert forall|i: int| 0 <= i < deeper.len() implies #[trigger] deeper[i].len() > n + 1 && deeper[i][n] == e by {
            assert(deeper.contains(deeper[i]));
            lemma_found_sound(g, s, trail.push(e), after, (left - 1) as nat, 0, deeper[i]);
            assert(deeper[i].take(n + 1)[n] == e);
        }
        assert forall|i: int| 0 <= i < rest.len() implies #[trigger] rest[i].len() > n && rest[i][n] != e by {
            assert(rest.contains(rest[i]));
            lemma_found_sound(g, s, trail, seen, left, k + 1, rest[i]);
            let j = choose|j: int| k + 1 <= j < out.len() && #[trigger] out[j] == rest[i][n];
            assert(out[k as int] > out[j]);
        }
        assert forall|a: int, b: int| 0 <= a < all.len() && 0 <= b < all.len() && a != b implies all[a] != all[b] by {
            let h = here.len() as int;
            let d = deeper.len() as int;
            if a < h {
                assert(all[a] == trail.push(e));
            } else if a < h + d {
                assert(all[a] == deeper[a - h]);
            } else {
                assert(all[a] == rest[a - h - d]);
            }
            if b < h {
                assert(all[b] == trail.push(e));
            } else if b < h + d {
                assert(all[b] == deeper[b - h]);
            } else {
                assert(all[b] == rest[b - h - d]);
            }
        }
        assert(all == found(g, s, trail, seen, left, k));
    }
}

/// A route is among all paths of at most `depth` hops exactly if it is a path to the goal of at
/// most `depth` hops. No path is listed twice.
pub proof fn all_paths_are_the_paths(g: GraphView, s: SearchView, start: int, depth: nat)
    ensures
        forall|q: Seq<int>| #[trigger]
            all_paths(g, s, start, depth).contains(q) <==> path_from(g, s, seq![start], q) && q.len() <= depth,
        all_paths(g, s, start, depth).no_duplicates(),
{
    let none = Seq::<int>::empty();
    let seen = seq![start];
    lemma_found_once(g, s, none, seen, depth, 0);
    assert forall|q: Seq<int>| #[trigger]
        all_paths(g, s, start, depth).contains(q) <==> path_from(g, s, seq![start], q) && q.len() <= depth by {
        if all_paths(g, s, start, depth).contains(q) {
            lemma_found_sound(g, s, none, seen, depth, 0, q);
            assert(q.skip(0) =~= q);
        }
        if path_from(g, s, seen, q) && q.len() <= depth {
            let out = leaving(g, s, seen.last());
            let j = choose|j: int| 0 <= j < out.len() && out[j] == q[0];
            lemma_found_complete(g, s, none, seen, depth, 0, j, q);
            assert(none + q =~= q);
        }
    }
}

/// Every path of a result is a path to the goal, of no more hops than the limit, and no path is
/// returned twice or beyond the limit on results.
pub proof fn results_are_paths(r: PathResult, g: GraphView, s: SearchView, start: int, limits: Limits)
    requires
        answers(r, g, s, start, limits),
    ensures
        r.paths@.len() <= limits.max_results,
        routes(r.paths@).no_duplicates(),
        forall|i: int|
            0 <= i < r.paths@.len() ==> path_from(g, s, seq![start], #[trigger] routes(r.paths@)[i]) && routes(
                r.paths@,
            )[i].len() <= limits.max_depth,
{
    let all = all_paths(g, s, start, limits.max_depth as nat);
    all_paths_are_the_paths(g, s, start, limits.max_depth as nat);
    assert(routes(r.paths@).len() == r.paths@.len());
    assert forall|i: int| 0 <= i < r.paths@.len() implies path_from(g, s, seq![start], #[trigger] routes(r.paths@)[i])
        && routes(r.paths@)[i].len() <= limits.max_depth by {
        assert(routes(r.paths@)[i] == all[i]);
        assert(all.contains(all[i]));
    }
}

/// A path is a row of hops that a search takes, and so is each beginning of it.
proof fn lemma_path_hops(g: GraphView, s: SearchView, seen: Seq<int>, q: Seq<int>, n: int)
    requires
        path_from(g, s, seen, q),
        0 < n <= q.len(),
    ensures
        hops_from(g, s, seen, q.take(n)),
    decreases n,
{
    let p = q.take(n);
    if n > 1 {
        let after = seen.push(g.ends[q[0]].1);
        lemma_path_hops(g, s, after, q.drop_first(), n - 1);
        assert(p.drop_first() =~= q.drop_first().take(n - 1));
    }
}

/// A result that is not truncated holds every path to the goal there is, of whatever length.
pub proof fn untruncated_results_are_all(r: PathResult, g: GraphView, s: SearchView, start: int, limits: Limits)
    requires
        answers(r, g, s, start, limits),
        !r.truncated,
    ensures
        forall|q: Seq<int>| #[trigger] path_from(g, s, seq![start], q) ==> routes(r.paths@).contains(q),
{
    let depth = limits.max_depth as nat;
    let all = all_paths(g, s, start, depth);
    all_paths_are_the_paths(g, s, start, depth);
    assert(all.take(all.len() as int) =~= all);
    assert forall|q: Seq<int>| #[trigger] path_from(g, s, seq![start], q) implies routes(r.paths@).contains(q) by {
        if q.len() > depth {
            lemma_path_hops(g, s, seq![start], q, depth as int + 1);
            assert(overlong(g, s, seq![start], depth));
        }
        assert(all.contains(q));
    }
}

/// The node behind the first `i` edges of a route.
pub open spec fn stop(g: GraphView, start: int, q: Seq<int>, i: int) -> int {
    if i == 0 {
        start
    } else {
        g.ends[q[i - 1]].1
    }
}

/// What holds of the hops of a path behind the nodes `seen`.
pub proof fn lemma_path_shape(g: GraphView, s: SearchView, seen: Seq<int>, q: Seq<int>)
    requires
        seen.len() > 0,
        path_from(g, s, seen, q),
    ensures
        reaches(g, s, q.last()),
        forall|i: int| #![trigger q[i]]
            0 <= i < q.len() ==> {
                &&& 0 <= q[i] < g.edges.len()
                &&& admitted(s, g.edges[q[i]])
                &&& g.ends[q[i]].0 == stop(g, seen.last(), q, i)
            },
        forall|i: int| #![trigger q[i]]
            0 <= i < q.len() - 1 ==> {
                &&& !seen.contains(g.ends[q[i]].1)
                &&& s.goal != GoalView::Node(g.ends[q[i]].1)
            },
        forall|i: int, j: int| 0 <= i < j < q.len() - 1 ==> g.ends[q[i]].1 != g.ends[q[j]].1,
    decreases q.len(),
{
    lemma_leaving(g, s, seen.last(), 0);
    assert(leaving(g, s, seen.last()).contains(q[0]));
    if q.len() > 1 {
        let after = seen.push(g.ends[q[0]].1);
        let rest = q.drop_first();
        lemma_path_shape(g, s, after, rest);
        assert(rest.last() == q.last());
        assert forall|i: int| #![trigger q[i]] 0 <= i < q.len() implies {
            &&& 0 <= q[i] < g.edges.len()
            &&& admitted(s, g.edges[q[i]])
            &&& g.ends[q[i]].0 == stop(g, seen.last(), q, i)
        } by {
            if i > 0 {
                assert(rest[i - 1] == q[i]);
                if i > 1 {
                    assert(rest[i - 2] == q[i - 1]);
                }
            }
        }
        assert forall|i: int| #![trigger q[i]] 0 <= i < q.len() - 1 implies {
            &&& !seen.contains(g.ends[q[i]].1)
            &&& s.goal != GoalView::Node(g.ends[q[i]].1)
        } by {
            if i > 0 {
                let x = g.ends[rest[i - 1]].1;
                assert(rest[i - 1] == q[i]);
                assert(!after.contains(x));
                if seen.contains(x) {
                    let m = choose|m: int| 0 <= m < seen.len() && seen[m] == x;
                    assert(after[m] == x);
                }
            }
        }
        assert forall|i: int, j: int| 0 <= i < j < q.len() - 1 implies g.ends[q[i]].1 != g.ends[q[j]].1 by {
            assert(rest[j - 1] == q[j]);
            if i == 0 {
                assert(!after.contains(g.ends[rest[j - 1]].1));
                assert(after[after.len() - 1] == g.ends[q[0]].1);
            } else {
                assert(rest[i - 1] == q[i]);
            }
        }
    }
}

/// A path is a walk from the start over admitted edges that ends on the goal and does not come
/// back to a node before its last hop.
pub proof fn paths_are_simple(g: GraphView, s: SearchView, start: int, q: Seq<int>)
    requires
        path_from(g, s, seq![start], q),
    ensures
        q.len() > 0,
        forall|i: int| #![trigger q[i]]
            0 <= i < q.len() ==> {
                &&& 0 <= q[i] < g.edges.len()
                &&& admitted(s, g.edges[q[i]])
                &&& g.ends[q[i]].0 == stop(g, start, q, i)
            },
        reaches(g, s, q.last()),
        forall|i: int, j: int|
            #![trigger stop(g, start, q, i), stop(g, start, q, j)]
            0 <= i < j < q.len() ==> stop(g, start, q, i) != stop(g, start, q, j),
{
    let seen = seq![start];
    lemma_path_shape(g, s, seen, q);
    assert forall|i: int, j: int|
        #![trigger stop(g, start, q, i), stop(g, start, q, j)]
        0 <= i < j < q.len() implies stop(g, start, q, i) != stop(g, start, q, j) by {
        assert(!seen.contains(g.ends[q[j - 1]].1));
        if i == 0 {
            assert(seen[0] == start);
        }
    }
}

/// A path from one node to another visits no node twice.
pub proof fn paths_between_nodes_are_simple(g: GraphView, s: SearchView, start: int, target: int, q: Seq<int>)
    requires
        path_from(g, s, seq![start], q),
        s.goal == GoalView::Node(target),
        start != target,
    ensures
        stop(g, start, q, q.len() as int) == target,
        forall|i: int, j: int|
            #![trigger stop(g, start, q, i), stop(g, start, q, j)]
            0 <= i < j <= q.len() ==> stop(g, start, q, i) != stop(g, start, q, j),
{
    paths_are_simple(g, s, start, q);
    lemma_path_shape(g, s, seq![start], q);
}

/// The last hop of a path to an action grants the action, on the wanted resource.
pub proof fn action_paths_end_on_grant(
    g: GraphView,
    s: SearchView,
    start: int,
    q: Seq<int>,
    pattern: Seq<char>,
    resource: Option<Seq<char>>,
)
    requires
        path_from(g, s, seq![start], q),
        s.goal == (GoalView::Action { pattern, resource }),
    ensures
        grants(g.edges[q.last()], pattern, resource),
{
    lemma_path_shape(g, s, seq![start], q);
}

/// Every edge of a path under a `via` list is of a kind in the list.
pub proof fn paths_keep_to_kinds(g: GraphView, s: SearchView, start: int, q: Seq<int>)
    requires
        path_from(g, s, seq![start], q),
        s.via.len() > 0,
    ensures
        forall|i: int| 0 <= i < q.len() ==> s.via.contains(g.edges[#[trigger] q[i]].kind),
{
    lemma_path_shape(g, s, seq![start], q);
}

/// Replacing one edge of a path by a parallel one gives a path.
proof fn lemma_parallel(g: GraphView, s: SearchView, seen: Seq<int>, q: Seq<int>, i: int, e: int)
    requires
        seen.len() > 0,
        path_from(g, s, seen, q),
        0 <= i < q.len(),
        0 <= e < g.edges.len(),
        g.ends[e] == g.ends[q[i]],
        admitted(s, g.edges[e]),
        i == q.len() - 1 ==> reaches(g, s, e),
    ensures
        path_from(g, s, seen, q.update(i, e)),
    decreases q.len(),
{
    let p = q.update(i, e);
    lemma_leaving(g, s, seen.last(), 0);
    assert(leaving(g, s, seen.last()).contains(q[0]));
    if i == 0 {
        assert(leaving(g, s, seen.last()).contains(e));
        assert(p.drop_first() =~= q.drop_first());
    } else {
        lemma_parallel(g, s, seen.push(g.ends[q[0]].1), q.drop_first(), i - 1, e);
        assert(p.drop_first() =~= q.drop_first().update(i - 1, e));
    }
}

/// Paths over parallel edges stay distinct: where an untruncated result holds a path, it also holds
/// the one that takes a parallel edge of an admitted kind in place of one of its hops.
pub proof fn parallel_edges_stay_distinct(
    r: PathResult,
    g: GraphView,
    s: SearchView,
    start: int,
    limits: Limits,
    q: Seq<int>,
    i: int,
    e: int,
)
    requires
        answers(r, g, s, start, limits),
        !r.truncated,
        routes(r.paths@).contains(q),
        0 <= i < q.len(),
        0 <= e < g.edges.len(),
        e != q[i],
        g.ends[e] == g.ends[q[i]],
        admitted(s, g.edges[e]),
        i == q.len() - 1 ==> reaches(g, s, e),
    ensures
        routes(r.paths@).contains(q.update(i, e)),
        q.update(i, e) != q,
{
    results_are_paths(r, g, s, start, limits);
    let m = choose|m: int| 0 <= m < routes(r.paths@).len() && routes(r.paths@)[m] == q;
    assert(path_from(g, s, seq![start], routes(r.paths@)[m]));
    lemma_parallel(g, s, seq![start], q, i, e);
    untruncated_results_are_all(r, g, s, start, limits);
    assert(q.update(i, e)[i] == e);
}

/// The nodes that a route visits, in order.
pub open spec fn stops(g: GraphView, start: int, q: Seq<int>) -> Seq<int> {
    Seq::new((q.len() + 1) as nat, |i: int| stop(g, start, q, i))
}

/// A path to a node has no more hops behind the nodes `seen` than the graph has nodes for.
pub proof fn lemma_path_room(g: GraphView, s: SearchView, seen: Seq<int>, q: Seq<int>)
    requires
        path_from(g, s, seen, q),
        s.goal is Node,
    ensures
        seen.len() + q.len() <= g.nodes.len() || g.nodes.len() == 1,
    decreases q.len(),
{
    if q.len() > 1 {
        lemma_path_room(g, s, seen.push(g.ends[q[0]].1), q.drop_first());
    }
}

/// A simple route between two different nodes has no more nodes than the graph.
pub proof fn lemma_route_room(g: GraphView, start: int, target: int, p: Seq<int>)
    requires
        g.wf(),
        simple_route(g.ends, p, start, target),
        start != target,
    ensures
        p.len() <= g.nodes.len(),
{
    let n = g.nodes.len() as int;
    assert forall|i: int| 0 <= i < p.len() implies 0 <= #[trigger] p[i] < n by {
        if i < p.len() - 1 {
            assert(joined_by_edge(g.ends, p[i], p[i + 1]));
        } else {
            assert(joined_by_edge(g.ends, p[i - 1], p[i - 1 + 1]));
        }
    }
    assert(p.no_duplicates()) by {
        assert forall|i: int, j: int| 0 <= i < p.len() && 0 <= j < p.len() && i != j implies p[i] != p[j] by {
            let a = if i < j {
                i
            } else {
                j
            };
            let b = if i < j {
                j
            } else {
                i
            };
            if b == p.len() - 1 {
                if a > 0 {
                    assert(p[a] != target);
                }
            } else {
                assert(p[a] != p[b]);
            }
        }
    }
    p.unique_seq_to_set();
    lemma_int_range(0, n);
    assert(p.to_set().subset_of(set_int_range(0, n)));
    lemma_len_subset(p.to_set(), set_int_range(0, n));
}

/// The nodes of a path between two nodes are a simple route, of no more nodes than the graph unless
/// that has but one.
pub proof fn paths_run_along_simple_routes(g: GraphView, s: SearchView, start: int, target: int, q: Seq<int>)
    requires
        g.wf(),
        path_from(g, s, seq![start], q),
        s.goal == GoalView::Node(target),
    ensures
        simple_route(g.ends, stops(g, start, q), start, target),
        stops(g, start, q).len() <= g.nodes.len() || g.nodes.len() == 1,
{
    lemma_path_room(g, s, seq![start], q);
    paths_are_simple(g, s, start, q);
    lemma_path_shape(g, s, seq![start], q);
    let p = stops(g, start, q);
    assert forall|i: int| 0 <= i < p.len() - 1 implies #[trigger] joined_by_edge(g.ends, p[i], p[i + 1]) by {
        assert(g.ends[q[i]] == (p[i], p[i + 1]));
    }
    assert forall|i: int, j: int| 0 <= i < j < p.len() - 1 implies #[trigger] p[i] != #[trigger] p[j] by {
        assert(stop(g, start, q, i) != stop(g, start, q, j));
    }
    assert forall|i: int| 0 < i < p.len() - 1 implies #[trigger] p[i] != target by {
        assert(s.goal != GoalView::Node(g.ends[q[i - 1]].1));
    }
}

/// Behind each beginning of a simple route there is a path along the rest of it.
proof fn lemma_route_searched(g: GraphView, s: SearchView, start: int, target: int, p: Seq<int>, i: int) -> (q: Seq<int>)
    requires
        g.wf(),
        simple_route(g.ends, p, start, target),
        s.goal == GoalView::Node(target),
        s.via.len() == 0,
        p.len() <= g.nodes.len() || g.nodes.len() == 1,
        0 <= i < p.len() - 1,
    ensures
        q.len() == p.len() - 1 - i,
        path_from(g, s, p.take(i + 1), q),
        forall|k: int| #![trigger q[k]] 0 <= k < q.len() ==> g.ends[q[k]] == (p[i + k], p[i + k + 1]),
    decreases p.len() - i,
{
    let seen = p.take(i + 1);
    assert(joined_by_edge(g.ends, p[i], p[i + 1]));
    let e = choose|e: int| 0 <= e < g.ends.len() && #[trigger] g.ends[e] == (p[i], p[i + 1]);
    lemma_leaving(g, s, p[i], 0);
    assert(leaving(g, s, seen.last()).contains(e));
    if i == p.len() - 2 {
        seq![e]
    } else {
        let rest = lemma_route_searched(g, s, start, target, p, i + 1);
        let q = seq![e] + rest;
        assert(q.drop_first() =~= rest);
        assert(seen.push(g.ends[e].1) =~= p.take(i + 2));
        assert(goes_on(g, s, seen, e)) by {
            if seen.contains(p[i + 1]) {
                let m = choose|m: int| 0 <= m < seen.len() && seen[m] == p[i + 1];
                assert(p[m] == p[i + 1]);
            }
        }
        assert forall|k: int| #![trigger q[k]] 0 <= k < q.len() implies g.ends[q[k]] == (p[i + k], p[i + k + 1]) by {
            if k > 0 {
                assert(rest[k - 1] == q[k]);
            }
        }
        q
    }
}

/// Along every simple route between two nodes there is a path, but for a route back to its start
/// through all of several nodes.
pub proof fn simple_routes_are_paths(g: GraphView, s: SearchView, start: int, target: int, p: Seq<int>)
    requires
        g.wf(),
        simple_route(g.ends, p, start, target),
        s.goal == GoalView::Node(target),
        s.via.len() == 0,
        start == target ==> p.len() <= g.nodes.len() || g.nodes.len() == 1,
    ensures
        exists|q: Seq<int>| #[trigger] path_from(g, s, seq![start], q) && stops(g, start, q) == p,
{
    if start != target {
        lemma_route_room(g, start, target, p);
    }
    let q = lemma_route_searched(g, s, start, target, p, 0);
    assert(p.take(1) =~= seq![start]);
    assert forall|i: int| 0 <= i < p.len() implies stops(g, start, q)[i] == p[i] by {
        if i > 0 {
            assert(g.ends[q[i - 1]] == (p[i - 1], p[i]));
        }
    }
    assert(stops(g, start, q) =~= p);
}

} // verus!

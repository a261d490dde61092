//! What holds of everything that a node can reach.
use crate::graph::GraphView;
use crate::path_laws::chain;
use crate::reach::{in_blast, in_escalation, lists, reachable, walk};
use crate::search::{path_from, GoalView, SearchView};
use crate::search_laws::{paths_are_simple, simple_routes_are_paths, stop, stops};
use crate::store::{joined_by_edge, simple_route};
use vstd::prelude::*;

verus! {

/// Two walks, the second from where the first ends, are one walk.
proof fn lemma_walks_join(g: GraphView, a: int, b: int, c: int, p: Seq<int>, q: Seq<int>)
    requires
        walk(g, a, b, p),
        walk(g, b, c, q),
    ensures
        walk(g, a, c, p + q),
    decreases p.len(),
{
    if p.len() == 0 {
        assert(p + q =~= q);
    } else {
        lemma_walks_join(g, g.ends[p[0]].1, b, c, p.drop_first(), q);
        assert((p + q).drop_first() =~= p.drop_first() + q);
    }
}

/// What a reachable node reaches is reachable.
pub proof fn reach_is_transitive(g: GraphView, a: int, b: int, c: int)
    requires
        reachable(g, a, b),
        reachable(g, b, c),
    ensures
        reachable(g, a, c),
{
    let p = choose|p: Seq<int>| walk(g, a, b, p);
    let q = choose|q: Seq<int>| walk(g, b, c, q);
    lemma_walks_join(g, a, b, c, p, q);
}

/// What a node can escalate to is part of its blast radius.
pub proof fn escalation_is_within_blast(g: GraphView, a: int, i: int)
    requires
        in_escalation(g, a)(i),
    ensures
        in_blast(g, a)(i),
{
}

/// The hops of a walk, one by one.
proof fn lemma_walk_hops(g: GraphView, a: int, b: int, q: Seq<int>)
    requires
        walk(g, a, b, q),
    ensures
        stop(g, a, q, q.len() as int) == b,
        forall|i: int| #![trigger q[i]]
            0 <= i < q.len() ==> 0 <= q[i] < g.edges.len() && g.ends[q[i]].0 == stop(g, a, q, i),
    decreases q.len(),
{
    if q.len() > 0 {
        let rest = q.drop_first();
        let c = g.ends[q[0]].1;
        lemma_walk_hops(g, c, b, rest);
        assert(stop(g, a, q, q.len() as int) == stop(g, c, rest, rest.len() as int));
        assert forall|i: int| #![trigger q[i]] 0 <= i < q.len() implies 0 <= q[i] < g.edges.len() && g.ends[q[i]].0 == stop(
            g,
            a,
            q,
            i,
        ) by {
            if i > 0 {
                assert(rest[i - 1] == q[i]);
                assert(stop(g, c, rest, i - 1) == stop(g, a, q, i));
            }
        }
    }
}

/// Hops that follow on each other are a walk.
proof fn lemma_hops_walk(g: GraphView, a: int, q: Seq<int>)
    requires
        forall|i: int| #![trigger q[i]]
            0 <= i < q.len() ==> 0 <= q[i] < g.edges.len() && g.ends[q[i]].0 == stop(g, a, q, i),
    ensures
        walk(g, a, stop(g, a, q, q.len() as int), q),
    decreases q.len(),
{
    if q.len() > 0 {
        let rest = q.drop_first();
        let c = g.ends[q[0]].1;
        assert(g.ends[q[0]].0 == stop(g, a, q, 0));
        assert forall|i: int| #![trigger rest[i]] 0 <= i < rest.len() implies 0 <= rest[i] < g.edges.len() && g.ends[rest[i]].0
            == stop(g, c, rest, i) by {
            assert(rest[i] == q[i + 1]);
            assert(stop(g, c, rest, i) == stop(g, a, q, i + 1));
        }
        lemma_hops_walk(g, c, rest);
        assert(stop(g, a, q, q.len() as int) == stop(g, c, rest, rest.len() as int));
    }
}

/// Along some part of a walk between two nodes there is a simple route between them.
proof fn lemma_simple_walk(g: GraphView, a: int, b: int, q: Seq<int>)
    requires
        g.wf(),
        a != b,
        walk(g, a, b, q),
    ensures
        exists|p: Seq<int>| simple_route(g.ends, p, a, b),
    decreases q.len(),
{
    lemma_walk_hops(g, a, b, q);
    if exists|i: int, j: int|
        #![trigger stop(g, a, q, i), stop(g, a, q, j)]
        0 <= i < j <= q.len() && stop(g, a, q, i) == stop(g, a, q, j) {
        let (i, j) = choose|i: int, j: int|
            #![trigger stop(g, a, q, i), stop(g, a, q, j)]
            0 <= i < j <= q.len() && stop(g, a, q, i) == stop(g, a, q, j);
        let short = q.take(i) + q.skip(j);
        assert forall|k: int| #![trigger short[k]] 0 <= k < short.len() implies 0 <= short[k] < g.edges.len()
            && g.ends[short[k]].0 == stop(g, a, short, k) by {
            if k < i {
                assert(short[k] == q[k]);
                assert(stop(g, a, short, k) == stop(g, a, q, k));
            } else {
                assert(short[k] == q[k - i + j]);
                if k == i {
                    assert(stop(g, a, short, k) == stop(g, a, q, i));
                } else {
                    assert(stop(g, a, short, k) == stop(g, a, q, k - i + j));
                }
            }
        }
        lemma_hops_walk(g, a, short);
        let n = short.len() as int;
        assert(stop(g, a, short, n) == b) by {
            if n == i {
                assert(stop(g, a, short, n) == stop(g, a, q, i));
                assert(j == q.len());
            } else {
                assert(stop(g, a, short, n) == stop(g, a, q, q.len() as int));
            }
        }
        lemma_simple_walk(g, a, b, short);
    } else {
        let p = stops(g, a, q);
        assert forall|i: int| 0 <= i < p.len() - 1 implies #[trigger] joined_by_edge(g.ends, p[i], p[i + 1]) by {
            assert(0 <= q[i] < g.edges.len());
            assert(g.ends[q[i]] == (p[i], p[i + 1]));
        }
        assert forall|i: int, j: int| 0 <= i < j < p.len() implies #[trigger] p[i] != #[trigger] p[j] by {
            assert(stop(g, a, q, i) != stop(g, a, q, j));
        }
        assert(p[p.len() - 1] == b);
        assert(simple_route(g.ends, p, a, b));
    }
}

/// A node is in the blast radius of another exactly if some attack path, over edges of any kind,
/// leads from the other to it.
pub proof fn blast_is_what_paths_lead_to(g: GraphView, a: int, b: int)
    requires
        g.wf(),
        a != b,
    ensures
        in_blast(g, a)(b) <==> exists|q: Seq<int>|
            path_from(g, (SearchView { via: Seq::empty(), goal: GoalView::Node(b) }), seq![a], q),
{
    let s = SearchView { via: Seq::empty(), goal: GoalView::Node(b) };
    if reachable(g, a, b) {
        let q = choose|q: Seq<int>| walk(g, a, b, q);
        lemma_simple_walk(g, a, b, q);
        let p = choose|p: Seq<int>| simple_route(g.ends, p, a, b);
        simple_routes_are_paths(g, s, a, b, p);
    }
    if exists|q: Seq<int>| path_from(g, s, seq![a], q) {
        let q = choose|q: Seq<int>| path_from(g, s, seq![a], q);
        paths_are_simple(g, s, a, q);
        lemma_hops_walk(g, a, q);
    }
}

/// There are edges that follow on each other from the one node to the other.
pub open spec fn led_to(g: GraphView, a: int, b: int) -> bool {
    exists|q: Seq<int>| #[trigger] chain(g, a, q) && stop(g, a, q, q.len() as int) == b
}

proof fn lemma_led_to(g: GraphView, a: int, b: int)
    ensures
        reachable(g, a, b) <==> led_to(g, a, b),
{
    if reachable(g, a, b) {
        let q = choose|q: Seq<int>| walk(g, a, b, q);
        lemma_walk_hops(g, a, b, q);
        assert(chain(g, a, q));
    }
    if led_to(g, a, b) {
        let q = choose|q: Seq<int>| #[trigger] chain(g, a, q) && stop(g, a, q, q.len() as int) == b;
        lemma_hops_walk(g, a, q);
    }
}

/// The blast radius of a node is every other node that edges lead to from it, each once, in the order
/// of the document.
pub proof fn blast_is_everything_edges_lead_to(g: GraphView, a: int, r: Seq<usize>)
    requires
        lists(r, g.nodes.len(), in_blast(g, a)),
    ensures
        forall|x: usize| #[trigger] r.contains(x) <==> x < g.nodes.len() && x != a && led_to(g, a, x as int),
        forall|i: int, j: int| 0 <= i < j < r.len() ==> r[i] < r[j],
{
    assert forall|x: usize| #[trigger] r.contains(x) <==> x < g.nodes.len() && x != a && led_to(g, a, x as int) by {
        lemma_led_to(g, a, x as int);
    }
}

/// What a node escalates to is every other node of kind `user`, `group` or `role` that edges lead to
/// from it, and no node of another kind, each once, in the order of the document.
pub proof fn escalation_is_every_user_group_and_role_edges_lead_to(g: GraphView, a: int, r: Seq<usize>)
    requires
        lists(r, g.nodes.len(), in_escalation(g, a)),
    ensures
        forall|x: usize| #[trigger]
            r.contains(x) <==> {
                &&& x < g.nodes.len()
                &&& x != a
                &&& led_to(g, a, x as int)
                &&& g.nodes[x as int].kind == "user"@ || g.nodes[x as int].kind == "group"@ || g.nodes[x as int].kind
                    == "role"@
            },
        forall|i: int, j: int| 0 <= i < j < r.len() ==> r[i] < r[j],
{
    assert forall|x: usize| #[trigger] r.contains(x) <==> {
        &&& x < g.nodes.len()
        &&& x != a
        &&& led_to(g, a, x as int)
        &&& g.nodes[x as int].kind == "user"@ || g.nodes[x as int].kind == "group"@ || g.nodes[x as int].kind == "role"@
    } by {
        lemma_led_to(g, a, x as int);
    }
}

/// Whatever an edge leads to from a node of the blast radius, or from the node itself, is in the
/// blast radius, unless it is the node itself.
pub proof fn blast_is_closed_under_edges(g: GraphView, a: int, r: Seq<usize>, e: int)
    requires
        g.wf(),
        g.nodes.len() <= usize::MAX,
        lists(r, g.nodes.len(), in_blast(g, a)),
        0 <= e < g.edges.len(),
        g.ends[e].0 == a || r.contains(g.ends[e].0 as usize),
        g.ends[e].1 != a,
    ensures
        r.contains(g.ends[e].1 as usize),
{
    let b = g.ends[e].0;
    let c = g.ends[e].1;
    assert(walk(g, b, c, seq![e])) by {
        assert(seq![e].drop_first() =~= Seq::empty());
        assert(walk(g, c, c, seq![e].drop_first()));
    }
    if b != a {
        reach_is_transitive(g, a, b, c);
    }
    assert(in_blast(g, a)(c));
}

} // verus!

//! Reachability: what a node can get to over any number of edges.
use crate::graph::{missing, place, Graph, GraphError, GraphView};
use crate::model::{known, NodeView};
use crate::search::{admitted, ints, leaving, lemma_leaving, Goal, Search};
use crate::text::same;
use vstd::prelude::*;

verus! {

/// The edges `q` lead from the node at `a` to the node at `b`.
pub open spec fn walk(g: GraphView, a: int, b: int, q: Seq<int>) -> bool
    decreases q.len(),
{
    if q.len() == 0 {
        a == b
    } else {
        &&& 0 <= q[0] < g.edges.len()
        &&& g.ends[q[0]].0 == a
        &&& walk(g, g.ends[q[0]].1, b, q.drop_first())
    }
}

/// The node at `b` can be reached from the node at `a`.
pub open spec fn reachable(g: GraphView, a: int, b: int) -> bool {
    exists|q: Seq<int>| walk(g, a, b, q)
}

/// The node is an identity: a user, a group or a role.
pub open spec fn identity(n: NodeView) -> bool {
    n.kind == "user"@ || n.kind == "group"@ || n.kind == "role"@
}

/// The list holds, in ascending order, the places of the nodes that satisfy a condition.
pub open spec fn lists(r: Seq<usize>, n: nat, wanted: spec_fn(int) -> bool) -> bool {
    &&& forall|i: int, j: int| 0 <= i < j < r.len() ==> r[i] < r[j]
    &&& forall|x: usize| #[trigger] r.contains(x) <==> x < n && wanted(x as int)
}

/// What the node at `a` can reach, other than itself.
pub open spec fn in_blast(g: GraphView, a: int) -> spec_fn(int) -> bool {
    |i: int| i != a && reachable(g, a, i)
}

/// The identities that the node at `a` can reach, other than itself.
pub open spec fn in_escalation(g: GraphView, a: int) -> spec_fn(int) -> bool {
    |i: int| i != a && reachable(g, a, i) && identity(g.nodes[i])
}

/// The number of places that are not marked.
spec fn unmarked(m: Seq<bool>) -> nat
    decreases m.len(),
{
    if m.len() == 0 {
        0
    } else if m.last() {
        unmarked(m.drop_last())
    } else {
        unmarked(m.drop_last()) + 1
    }
}

/// Marking a place leaves one place less unmarked.
proof fn lemma_mark(m: Seq<bool>, i: int)
    requires
        0 <= i < m.len(),
        !m[i],
    ensures
        unmarked(m.update(i, true)) + 1 == unmarked(m),
    decreases m.len(),
{
    let n = m.update(i, true);
    if i == m.len() - 1 {
        assert(n.drop_last() =~= m.drop_last());
    } else {
        lemma_mark(m.drop_last(), i);
        assert(n.drop_last() =~= m.drop_last().update(i, true));
    }
}

/// A walk can be followed by one more edge.
proof fn lemma_walk_on(g: GraphView, a: int, b: int, q: Seq<int>, e: int)
    requires
        walk(g, a, b, q),
        0 <= e < g.edges.len(),
        g.ends[e].0 == b,
    ensures
        walk(g, a, g.ends[e].1, q.push(e)),
    decreases q.len(),
{
    if q.len() == 0 {
        assert(q.push(e).drop_first() =~= Seq::empty());
        assert(walk(g, g.ends[e].1, g.ends[e].1, Seq::empty()));
    } else {
        lemma_walk_on(g, g.ends[q[0]].1, b, q.drop_first(), e);
        assert(q.push(e).drop_first() =~= q.drop_first().push(e));
    }
}

/// A set of places that no edge leads out of holds all that its places can reach.
proof fn lemma_closed(g: GraphView, m: Seq<bool>, a: int, b: int, q: Seq<int>)
    requires
        g.wf(),
        m.len() == g.nodes.len(),
        forall|e: int|
            0 <= e < g.edges.len() && m[(#[trigger] g.ends[e]).0] ==> m[g.ends[e].1],
        0 <= a < m.len(),
        m[a],
        walk(g, a, b, q),
    ensures
        0 <= b < m.len(),
        m[b],
    decreases q.len(),
{
    if q.len() > 0 {
        let e = q[0];
        assert(g.ends[e].0 == a);
        lemma_closed(g, m, g.ends[e].1, b, q.drop_first());
    }
}

impl Graph {
    /// Whether the node at each place can be reached from the node at `start`.
    fn reached(&self, start: usize) -> (r: Vec<bool>)
        requires
            start < self@.nodes.len(),
        ensures
            r@.len() == self@.nodes.len(),
            forall|i: int| 0 <= i < r@.len() ==> #[trigger] r@[i] == reachable(self@, start as int, i),
    {
        let ghost g = self@;
        let nodes: usize = self.node_count();
        let edges: usize = self.edge_count();
        let any = Search { via: Vec::new(), goal: Goal::Node(start) };
        let next = self.leaving_lists(&any);
        let ghost s = any@;
        let mut marked: Vec<bool> = Vec::new();
        for i in 0..nodes
            invariant
                marked@.len() == i,
                forall|j: int| 0 <= j < i ==> !#[trigger] marked@[j],
        {
            marked.push(false);
        }
        marked[start] = true;
        let mut todo: Vec<usize> = Vec::new();
        todo.push(start);
        proof {
            assert(walk(g, start as int, start as int, Seq::empty()));
            assert(ints(todo@)[0] == start as int);
        }
        while todo.len() > 0
            invariant
                g == self@,
                g.wf(),
                s == any@,
                s.via.len() == 0,
                edges == g.edges.len(),
                start < g.nodes.len(),
                next@.len() == g.nodes.len(),
                forall|u: int| 0 <= u < g.nodes.len() ==> ints((#[trigger] next@[u])@) == leaving(g, s, u),
                marked@.len() == g.nodes.len(),
                marked@[start as int],
                forall|i: int| 0 <= i < marked@.len() && #[trigger] marked@[i] ==> reachable(g, start as int, i),
                forall|k: int| 0 <= k < todo@.len() ==> #[trigger] todo@[k] < marked@.len() && marked@[todo@[k] as int],
                forall|e: int|
                    0 <= e < g.edges.len() && marked@[(#[trigger] g.ends[e]).0] && !marked@[g.ends[e].1] ==> ints(
                        todo@,
                    ).contains(g.ends[e].0),
            decreases unmarked(marked@), todo@.len(),
        {
            let ghost before = todo@;
            let ghost marked0 = marked@;
            let u: usize = todo.pop().unwrap();
            let ghost list = leaving(g, s, u as int);
            let count: usize = next[u].len();
            proof {
                assert(u == before[before.len() - 1]);
                assert(ints(next@[u as int]@) == list);
                lemma_leaving(g, s, u as int, 0);
                assert forall|e: int|
                    0 <= e < g.edges.len() && marked@[(#[trigger] g.ends[e]).0] && !marked@[g.ends[e].1] && g.ends[e].0
                        != u implies ints(todo@).contains(g.ends[e].0) by {
                    let k = choose|k: int| 0 <= k < ints(before).len() && ints(before)[k] == g.ends[e].0;
                    assert(ints(todo@)[k] == g.ends[e].0);
                }
            }
            for k in 0..count
                invariant
                    g == self@,
                    g.wf(),
                    s == any@,
                    s.via.len() == 0,
                    start < g.nodes.len(),
                    u < g.nodes.len(),
                    next@.len() == g.nodes.len(),
                    list == leaving(g, s, u as int),
                    ints(next@[u as int]@) == list,
                    count == list.len(),
                    count == next@[u as int]@.len(),
                    forall|e: int| #[trigger]
                        list.contains(e) <==> 0 <= e < g.edges.len() && g.ends[e].0 == u && admitted(s, g.edges[e]),
                    marked@.len() == g.nodes.len(),
                    marked@[start as int],
                    marked@[u as int],
                    forall|i: int| 0 <= i < marked@.len() && #[trigger] marked@[i] ==> reachable(g, start as int, i),
                    forall|j: int|
                        0 <= j < todo@.len() ==> #[trigger] todo@[j] < marked@.len() && marked@[todo@[j] as int],
                    forall|e: int|
                        0 <= e < g.edges.len() && marked@[(#[trigger] g.ends[e]).0] && !marked@[g.ends[e].1]
                            && g.ends[e].0 != u ==> ints(todo@).contains(g.ends[e].0),
                    forall|j: int| 0 <= j < k ==> marked@[g.ends[#[trigger] list[j]].1],
                    unmarked(marked@) < unmarked(marked0) || (marked@ == marked0 && todo@.len() == before.len() - 1),
                    before.len() > 0,
            {
                let e: usize = next[u][k];
                assert(list[k as int] == e as int);
                assert(list.contains(e as int));
                let head: usize = self.ends(e).1;
                if !marked[head] {
                    proof {
                        let q = choose|q: Seq<int>| walk(g, start as int, u as int, q);
                        lemma_walk_on(g, start as int, u as int, q, e as int);
                        lemma_mark(marked@, head as int);
                    }
                    let ghost todo0 = todo@;
                    marked[head] = true;
                    todo.push(head);
                    proof {
                        assert forall|d: int|
                            0 <= d < g.edges.len() && marked@[(#[trigger] g.ends[d]).0] && !marked@[g.ends[d].1]
                                && g.ends[d].0 != u implies ints(todo@).contains(g.ends[d].0) by {
                            if g.ends[d].0 == head {
                                assert(ints(todo@)[todo@.len() - 1] == head as int);
                            } else {
                                let m = choose|m: int| 0 <= m < ints(todo0).len() && ints(todo0)[m] == g.ends[d].0;
                                assert(ints(todo@)[m] == g.ends[d].0);
                            }
                        }
                    }
                }
                assert forall|j: int| 0 <= j < k + 1 implies marked@[g.ends[#[trigger] list[j]].1] by {
                    assert(list.contains(list[j]));
                }
            }
            proof {
                assert forall|e: int|
                    0 <= e < g.edges.len() && marked@[(#[trigger] g.ends[e]).0] && !marked@[g.ends[e].1] implies ints(
                    todo@,
                ).contains(g.ends[e].0) by {
                    if g.ends[e].0 == u {
                        assert(list.contains(e));
                        let j = choose|j: int| 0 <= j < list.len() && list[j] == e;
                        assert(marked@[g.ends[list[j]].1]);
                    }
                }
            }
        }
        proof {
            assert forall|i: int| 0 <= i < marked@.len() implies #[trigger] marked@[i] == reachable(g, start as int, i) by {
                if reachable(g, start as int, i) {
                    let q = choose|q: Seq<int>| walk(g, start as int, i, q);
                    assert forall|e: int|
                        0 <= e < g.edges.len() && marked@[(#[trigger] g.ends[e]).0] implies marked@[g.ends[e].1] by {
                        if !marked@[g.ends[e].1] {
                            assert(ints(todo@).contains(g.ends[e].0));
                        }
                    }
                    lemma_closed(g, marked@, start as int, i, q);
                }
            }
        }
        marked
    }

    /// Whether the node at a place is an identity.
    fn is_identity(&self, i: usize) -> (r: bool)
        requires
            i < self@.nodes.len(),
        ensures
            r == identity(self@.nodes[i as int]),
    {
        let kind = self.node_kind_of(i);
        same(kind, "user") || same(kind, "group") || same(kind, "role")
    }

    /// Everything that the node with the given id can reach.
    pub fn blast_from(&self, id: &str) -> (r: Result<Vec<usize>, GraphError>)
        ensures
            match r {
                Ok(v) => known(self@.nodes, id@) && lists(
                    v@,
                    self@.nodes.len(),
                    in_blast(self@, place(self@, id@)),
                ),
                Err(e) => missing(e, self@, id@, None),
            },
    {
        let start = self.node_id(id)?;
        let reached = self.reached(start);
        let ghost g = self@;
        let mut out: Vec<usize> = Vec::new();
        for i in 0..reached.len()
            invariant
                g == self@,
                reached@.len() == g.nodes.len(),
                forall|j: int| 0 <= j < reached@.len() ==> #[trigger] reached@[j] == reachable(g, start as int, j),
                lists(out@, i as nat, in_blast(g, start as int)),
        {
            let ghost before = out@;
            if i != start && reached[i] {
                out.push(i);
            }
            proof {
                lemma_lists_next(before, out@, i, in_blast(g, start as int));
            }
        }
        Ok(out)
    }

    /// The identities that the node with the given id can reach.
    pub fn escalation_from(&self, id: &str) -> (r: Result<Vec<usize>, GraphError>)
        ensures
            match r {
                Ok(v) => known(self@.nodes, id@) && lists(
                    v@,
                    self@.nodes.len(),
                    in_escalation(self@, place(self@, id@)),
                ),
                Err(e) => missing(e, self@, id@, None),
            },
    {
        let start = self.node_id(id)?;
        let reached = self.reached(start);
        let ghost g = self@;
        let mut out: Vec<usize> = Vec::new();
        for i in 0..reached.len()
            invariant
                g == self@,
                reached@.len() == g.nodes.len(),
                forall|j: int| 0 <= j < reached@.len() ==> #[trigger] reached@[j] == reachable(g, start as int, j),
                lists(out@, i as nat, in_escalation(g, start as int)),
        {
            let ghost before = out@;
            if i != start && reached[i] && self.is_identity(i) {
                out.push(i);
            }
            proof {
                lemma_lists_next(before, out@, i, in_escalation(g, start as int));
            }
        }
        Ok(out)
    }
}

/// A list of the wanted ones among the first `i` places grows to one among the first `i + 1`.
proof fn lemma_lists_next(before: Seq<usize>, after: Seq<usize>, i: usize, wanted: spec_fn(int) -> bool)
    requires
        lists(before, i as nat, wanted),
        after == if wanted(i as int) { before.push(i) } else { before },
    ensures
        lists(after, (i + 1) as nat, wanted),
{
    assert forall|k: int| 0 <= k < before.len() implies before[k] < i by {
        assert(before.contains(before[k]));
    }
    assert forall|x: usize| #[trigger] after.contains(x) <==> x < i + 1 && wanted(x as int) by {
        if after.contains(x) {
            let k = choose|k: int| 0 <= k < after.len() && after[k] == x;
            if k < before.len() {
                assert(before[k] == x);
                assert(before.contains(x));
            }
        }
        if x < i + 1 && wanted(x as int) {
            if x < i {
                assert(before.contains(x));
                let k = choose|k: int| 0 <= k < before.len() && before[k] == x;
                assert(after[k] == x);
            } else {
                assert(after[after.len() - 1] == x);
            }
        }
    }
}

} // verus!

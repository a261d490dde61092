//! Rendering of attack paths as readable chains.
use crate::graph::{label, Graph, GraphView};
use crate::json::{ascending, lemma_ascending_unique, members, names, Tree};
use crate::model::{Edge, EdgeView};
use crate::search::{ints, AttackPath};
use crate::text::{join, joined, texts};
use vstd::prelude::*;

verus! {

/// The names of the members of an object, in ascending order.
pub open spec fn sorted_names(m: Map<Seq<char>, Tree>) -> Seq<Seq<char>> {
    choose|s: Seq<Seq<char>>| ascending(s) && forall|k: Seq<char>| #[trigger] s.contains(k) <==> m.contains_key(k)
}

/// What is shown of the action that an edge grants.
pub open spec fn action_part(action: Option<Seq<char>>) -> Seq<char> {
    match action {
        Some(a) => " "@ + a,
        None => Seq::empty(),
    }
}

/// The mark of a condition block with the given members.
pub open spec fn condition_mark(m: Map<Seq<char>, Tree>) -> Seq<char> {
    " (conditional: "@ + joined(sorted_names(m), ", "@) + ")"@
}

/// What is shown of the conditions that gate an edge. A block without members gates nothing.
pub open spec fn condition_part(conditions: Option<Map<Seq<char>, Tree>>) -> Seq<char> {
    match conditions {
        Some(m) => if m.is_empty() {
            Seq::empty()
        } else {
            condition_mark(m)
        },
        None => Seq::empty(),
    }
}

/// What is shown of an edge.
pub open spec fn edge_label(e: EdgeView) -> Seq<char> {
    e.kind + action_part(e.action) + condition_part(e.conditions)
}

/// The chain of the labels of the nodes, with the edge that leads to each shown before it.
pub open spec fn rendered(g: GraphView, nodes: Seq<int>, edges: Seq<int>) -> Seq<char>
    decreases nodes.len(),
{
    if nodes.len() == 0 {
        Seq::empty()
    } else if nodes.len() == 1 {
        label(g.nodes[nodes[0]])
    } else {
        rendered(g, nodes.drop_last(), edges.drop_last()) + " --["@ + edge_label(g.edges[edges.last()]) + "]--> "@
            + label(g.nodes[nodes.last()])
    }
}

/// The names of the members of an object, in ascending order.
fn member_names(m: &serde_json::Map<String, serde_json::Value>) -> (r: Vec<String>)
    ensures
        texts(r@) == sorted_names(members(*m)),
        r@.len() == 0 <==> members(*m).is_empty(),
{
    let r = names(m);
    proof {
        lemma_ascending_unique(texts(r@), sorted_names(members(*m)));
        if r@.len() > 0 {
            assert(texts(r@).contains(texts(r@)[0]));
        } else {
            assert forall|k: Seq<char>| !members(*m).contains_key(k) by {
                assert(!texts(r@).contains(k));
            }
            assert(members(*m).dom() =~= Set::empty());
        }
    }
    r
}

/// Shows an edge: its kind, the action it grants, and the conditions that gate it.
pub fn show_edge(e: &Edge) -> (r: String)
    ensures
        r@ == edge_label(e@),
{
    let mut out = e.kind.clone();
    match &e.action {
        Some(a) => {
            out.append(" ");
            out.append(a.as_str());
        },
        None => {},
    }
    assert(out@ =~= e@.kind + action_part(e@.action));
    match &e.conditions {
        Some(m) => {
            let keys = member_names(m);
            if keys.len() > 0 {
                out.append(" (conditional: ");
                let list = join(&keys, ", ");
                out.append(list.as_str());
                out.append(")");
            }
        },
        None => {},
    }
    assert(out@ =~= edge_label(e@));
    out
}

impl Graph {
    /// Renders one path as a readable chain with the edge that enabled each hop.
    pub fn render_path(&self, path: &AttackPath) -> (r: String)
        requires
            path.spans(self@),
        ensures
            r@ == rendered(self@, ints(path.nodes@), ints(path.edges@)),
    {
        if path.nodes.len() == 0 {
            return String::new();
        }
        let ghost nodes = ints(path.nodes@);
        let ghost edges = ints(path.edges@);
        let mut out = self.node_label(path.nodes[0]);
        proof {
            assert(nodes.take(1)[0] == nodes[0]);
            assert(rendered(self@, nodes.take(1), edges.take(0)) == label(self@.nodes[nodes[0]]));
        }
        for i in 0..path.edges.len()
            invariant
                path.spans(self@),
                path.nodes@.len() == path.edges@.len() + 1,
                nodes == ints(path.nodes@),
                edges == ints(path.edges@),
                out@ == rendered(self@, nodes.take(i + 1), edges.take(i as int)),
        {
            assert(path.edges@[i as int] < self@.edges.len());
            assert(path.nodes@[i + 1] < self@.nodes.len());
            let hop = show_edge(self.edge(path.edges[i]));
            let next = self.node_label(path.nodes[i + 1]);
            out.append(" --[");
            out.append(hop.as_str());
            out.append("]--> ");
            out.append(next.as_str());
            proof {
                let n = nodes.take(i + 2);
                let e = edges.take(i + 1);
                assert(n.drop_last() =~= nodes.take(i + 1));
                assert(e.drop_last() =~= edges.take(i as int));
                assert(n.last() == nodes[i + 1]);
                assert(e.last() == edges[i as int]);
            }
        }
        assert(nodes.take(nodes.len() as int) =~= nodes);
        assert(edges.take(edges.len() as int) =~= edges);
        out
    }
}

/// A text has another one in it.
pub open spec fn shows(whole: Seq<char>, part: Seq<char>) -> bool {
    exists|i: int| 0 <= i <= whole.len() - part.len() && #[trigger] whole.subrange(i, i + part.len()) == part
}

/// What a text has in it is still in it when more is put before and behind.
proof fn lemma_shows_within(front: Seq<char>, whole: Seq<char>, back: Seq<char>, part: Seq<char>)
    requires
        shows(whole, part),
    ensures
        shows(front + whole + back, part),
{
    let i = choose|i: int| 0 <= i <= whole.len() - part.len() && #[trigger] whole.subrange(i, i + part.len()) == part;
    let all = front + whole + back;
    let j = front.len() + i;
    assert(all.subrange(j, j + part.len()) =~= whole.subrange(i, i + part.len()));
}

/// Every hop that a condition gates is marked as conditional, with the names of its conditions, in
/// the rendered path.
pub proof fn conditional_hops_are_marked(g: GraphView, nodes: Seq<int>, edges: Seq<int>, i: int)
    requires
        nodes.len() == edges.len() + 1,
        0 <= i < edges.len(),
        g.edges[edges[i]].conditions is Some,
        !g.edges[edges[i]].conditions->0.is_empty(),
    ensures
        shows(rendered(g, nodes, edges), condition_mark(g.edges[edges[i]].conditions->0)),
    decreases edges.len(),
{
    let e = g.edges[edges.last()];
    let mark = condition_mark(g.edges[edges[i]].conditions->0);
    let front = rendered(g, nodes.drop_last(), edges.drop_last());
    let tail = label(g.nodes[nodes.last()]);
    if i == edges.len() - 1 {
        let a = front + " --["@ + (e.kind + action_part(e.action));
        let b = "]--> "@ + tail;
        assert(mark.subrange(0, 0int + mark.len()) =~= mark);
        assert(shows(mark, mark));
        lemma_shows_within(a, mark, b, mark);
        assert(rendered(g, nodes, edges) =~= a + mark + b);
    } else {
        conditional_hops_are_marked(g, nodes.drop_last(), edges.drop_last(), i);
        let b = " --["@ + edge_label(e) + "]--> "@ + tail;
        lemma_shows_within(Seq::empty(), front, b, mark);
        assert(rendered(g, nodes, edges) =~= Seq::<char>::empty() + front + b);
    }
}

} // verus!

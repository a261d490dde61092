//! Laws of graph documents and of the graphs that are loaded from them.
use crate::graph::{label, missing, place, GraphError, GraphView};
use crate::model::{distinct_ids, known, repeats, DocView, NodeView};
use vstd::prelude::*;

verus! {

proof fn lemma_distinct(nodes: Seq<NodeView>)
    ensures
        distinct_ids(nodes) <==> forall|i: int, j: int|
            0 <= i < j < nodes.len() ==> (#[trigger] nodes[i]).id != (#[trigger] nodes[j]).id,
{
    if distinct_ids(nodes) {
        assert forall|i: int, j: int| 0 <= i < j < nodes.len() implies (#[trigger] nodes[i]).id != (#[trigger] nodes[j]).id by {
            assert(!repeats(nodes, j));
            assert(nodes.take(j)[i] == nodes[i]);
        }
    }
    if forall|i: int, j: int| 0 <= i < j < nodes.len() ==> (#[trigger] nodes[i]).id != (#[trigger] nodes[j]).id {
        assert forall|j: int| 0 <= j < nodes.len() implies !#[trigger] repeats(nodes, j) by {
            if repeats(nodes, j) {
                let i = choose|i: int| 0 <= i < nodes.take(j).len() && #[trigger] nodes.take(j)[i].id == nodes[j].id;
                assert(nodes[i].id == nodes[j].id);
            }
        }
    }
}

/// The edge at a place leads from the id of a node to the id of a node.
pub open spec fn joins_nodes(d: DocView, e: int) -> bool {
    &&& exists|i: int| 0 <= i < d.nodes.len() && (#[trigger] d.nodes[i]).id == d.edges[e].from
    &&& exists|i: int| 0 <= i < d.nodes.len() && (#[trigger] d.nodes[i]).id == d.edges[e].to
}

/// A document can be loaded exactly if no two of its nodes have the same id, and every edge leads from
/// the id of a node to the id of a node.
pub proof fn documents_load_if_ids_are_apart_and_edges_join_nodes(d: DocView)
    ensures
        d.loadable() <==> {
            &&& forall|i: int, j: int|
                0 <= i < j < d.nodes.len() ==> (#[trigger] d.nodes[i]).id != (#[trigger] d.nodes[j]).id
            &&& forall|e: int| 0 <= e < d.edges.len() ==> #[trigger] joins_nodes(d, e)
        },
{
    lemma_distinct(d.nodes);
    assert forall|e: int| #![trigger d.dangling(e)] #![trigger joins_nodes(d, e)] d.dangling(e) == !joins_nodes(d, e) by {
        if known(d.nodes, d.edges[e].from) {
            let i = choose|i: int| 0 <= i < d.nodes.len() && #[trigger] d.nodes[i].id == d.edges[e].from;
            assert(d.nodes[i].id == d.edges[e].from);
        }
        if known(d.nodes, d.edges[e].to) {
            let i = choose|i: int| 0 <= i < d.nodes.len() && #[trigger] d.nodes[i].id == d.edges[e].to;
            assert(d.nodes[i].id == d.edges[e].to);
        }
    }
}

/// In a loaded graph no two nodes have the same id, and the ends of an edge are the nodes whose ids the
/// edge says.
pub proof fn loaded_graphs_join_the_nodes_that_edges_name(g: GraphView)
    requires
        g.wf(),
    ensures
        forall|i: int, j: int| 0 <= i < j < g.nodes.len() ==> (#[trigger] g.nodes[i]).id != (#[trigger] g.nodes[j]).id,
        g.ends.len() == g.edges.len(),
        forall|e: int| #![trigger g.ends[e]]
            0 <= e < g.edges.len() ==> {
                &&& 0 <= g.ends[e].0 < g.nodes.len() && g.nodes[g.ends[e].0].id == g.edges[e].from
                &&& 0 <= g.ends[e].1 < g.nodes.len() && g.nodes[g.ends[e].1].id == g.edges[e].to
            },
{
    lemma_distinct(g.nodes);
}

/// An id is known exactly if a node has it, and its place is that of the node.
pub proof fn ids_are_found_where_they_are(g: GraphView, i: int)
    requires
        g.wf(),
        0 <= i < g.nodes.len(),
    ensures
        known(g.nodes, g.nodes[i].id),
        place(g, g.nodes[i].id) == i,
{
    lemma_distinct(g.nodes);
    let p = place(g, g.nodes[i].id);
    assert(0 <= p < g.nodes.len() && g.nodes[p].id == g.nodes[i].id);
    if p < i {
        assert(g.nodes[p].id != g.nodes[i].id);
    } else if i < p {
        assert(g.nodes[i].id != g.nodes[p].id);
    }
}

/// An id that is known is the id of a node.
pub proof fn known_ids_have_nodes(g: GraphView, id: Seq<char>)
    ensures
        known(g.nodes, id) <==> exists|i: int| 0 <= i < g.nodes.len() && (#[trigger] g.nodes[i]).id == id,
{
    if known(g.nodes, id) {
        let i = choose|i: int| 0 <= i < g.nodes.len() && #[trigger] g.nodes[i].id == id;
        assert(g.nodes[i].id == id);
    }
}

/// The label of a node is its kind, a colon and its id.
pub proof fn labels_say_kind_and_id(n: NodeView)
    ensures
        label(n).len() == n.kind.len() + 1 + n.id.len(),
        label(n).take(n.kind.len() as int) == n.kind,
        label(n)[n.kind.len() as int] == ':',
        label(n).skip(n.kind.len() as int + 1) == n.id,
{
    reveal_strlit(":");
    assert(label(n).take(n.kind.len() as int) =~= n.kind);
    assert(label(n).skip(n.kind.len() as int + 1) =~= n.id);
}

/// A search between two ids of which one is missing says which: the first of the two that no node has.
pub proof fn missing_ids_are_named(e: GraphError, g: GraphView, first: Seq<char>, second: Option<Seq<char>>)
    requires
        missing(e, g, first, second),
    ensures
        e is NoSuchNode,
        forall|i: int| 0 <= i < g.nodes.len() ==> (#[trigger] g.nodes[i]).id != e->NoSuchNode_0@,
        e->NoSuchNode_0@ == first || (second == Some(e->NoSuchNode_0@) && exists|i: int|
            0 <= i < g.nodes.len() && (#[trigger] g.nodes[i]).id == first),
{
    known_ids_have_nodes(g, first);
    known_ids_have_nodes(g, e->NoSuchNode_0@);
}

} // verus!

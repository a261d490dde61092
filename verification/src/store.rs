//! The graph engine: `petgraph::graph::DiGraph` with what it holds stated as sequences.
use crate::model::{Edge, Node};
use petgraph::graph::Graph as Digraph;
use vstd::prelude::*;

verus! {

/// `petgraph::graph::Graph`, which holds node and edge weights by index.
#[verifier::external_type_specification]
#[verifier::external_body]
#[verifier::reject_recursive_types(N)]
#[verifier::reject_recursive_types(E)]
#[verifier::reject_recursive_types(Ty)]
#[verifier::reject_recursive_types(Ix)]
pub struct ExDigraph<N, E, Ty, Ix>(Digraph<N, E, Ty, Ix>);

/// `petgraph::Directed`, the marker of a directed graph.
#[verifier::external_type_specification]
#[verifier::external_body]
pub struct ExDirected(petgraph::Directed);

/// The node weights of a graph, by node index.
pub uninterp spec fn node_weights(g: petgraph::graph::DiGraph<Node, Edge>) -> Seq<Node>;

/// The source, the target and the weight of each edge of a graph, by edge index.
pub uninterp spec fn edge_weights(g: petgraph::graph::DiGraph<Node, Edge>) -> Seq<(int, int, Edge)>;

/// `petgraph::graph::Graph::new`: no nodes and no edges.
#[verifier::external_body]
pub(crate) fn new_store() -> (r: petgraph::graph::DiGraph<Node, Edge>)
    ensures
        node_weights(r).len() == 0,
        edge_weights(r).len() == 0,
{
    petgraph::graph::DiGraph::new()
}

/// `petgraph::graph::Graph::add_node`: the weight goes behind those already held, and its place is
/// the index.
#[verifier::external_body]
pub(crate) fn add_node(g: &mut petgraph::graph::DiGraph<Node, Edge>, weight: Node) -> (r: usize)
    requires
        node_weights(*old(g)).len() < u32::MAX,
    ensures
        r == node_weights(*old(g)).len(),
        node_weights(*final(g)) == node_weights(*old(g)).push(weight),
        edge_weights(*final(g)) == edge_weights(*old(g)),
{
    g.add_node(weight).index()
}

/// `petgraph::graph::Graph::index` by a node index: the weight at that index.
#[verifier::external_body]
pub(crate) fn node_weight(g: &petgraph::graph::DiGraph<Node, Edge>, i: usize) -> (r: &Node)
    requires
        i < node_weights(*g).len(),
    ensures
        *r == node_weights(*g)[i as int],
{
    &g[petgraph::graph::NodeIndex::new(i)]
}

/// `petgraph::graph::Graph::add_edge`: the weight goes behind those already held, between the two
/// given nodes, and its place is the index.
#[verifier::external_body]
pub(crate) fn add_edge(
    g: &mut petgraph::graph::DiGraph<Node, Edge>,
    from: usize,
    to: usize,
    weight: Edge,
) -> (r: usize)
    requires
        from < node_weights(*old(g)).len(),
        to < node_weights(*old(g)).len(),
        edge_weights(*old(g)).len() < u32::MAX,
    ensures
        r == edge_weights(*old(g)).len(),
        node_weights(*final(g)) == node_weights(*old(g)),
        edge_weights(*final(g)) == edge_weights(*old(g)).push((from as int, to as int, weight)),
{
    g.add_edge(petgraph::graph::NodeIndex::new(from), petgraph::graph::NodeIndex::new(to), weight).index()
}

/// `petgraph::graph::Graph::node_count`.
#[verifier::external_body]
pub(crate) fn node_count(g: &petgraph::graph::DiGraph<Node, Edge>) -> (r: usize)
    ensures
        r == node_weights(*g).len(),
{
    g.node_count()
}

/// `petgraph::graph::Graph::edge_count`.
#[verifier::external_body]
pub(crate) fn edge_count(g: &petgraph::graph::DiGraph<Node, Edge>) -> (r: usize)
    ensures
        r == edge_weights(*g).len(),
{
    g.edge_count()
}

/// `petgraph::graph::Graph::index` by an edge index: the weight at that index.
#[verifier::external_body]
pub(crate) fn edge_weight(g: &petgraph::graph::DiGraph<Node, Edge>, e: usize) -> (r: &Edge)
    requires
        e < edge_weights(*g).len(),
    ensures
        *r == edge_weights(*g)[e as int].2,
{
    &g[petgraph::graph::EdgeIndex::new(e)]
}

/// `petgraph::graph::Graph::edge_endpoints`: the source and the target of the edge at an index,
/// where there is one.
#[verifier::external_body]
pub(crate) fn endpoints(g: &petgraph::graph::DiGraph<Node, Edge>, e: usize) -> (r: Option<(usize, usize)>)
    requires
        e < edge_weights(*g).len(),
    ensures
        match r {
            Some(p) => p.0 == edge_weights(*g)[e as int].0 && p.1 == edge_weights(*g)[e as int].1,
            None => false,
        },
{
    g.edge_endpoints(petgraph::graph::EdgeIndex::new(e)).map(|ends| (ends.0.index(), ends.1.index()))
}

/// The places of the source and the target of each edge.
pub open spec fn ends_of(edges: Seq<(int, int, Edge)>) -> Seq<(int, int)> {
    edges.map_values(|e: (int, int, Edge)| (e.0, e.1))
}

/// Some edge leads from the node at `a` to the node at `b`.
pub open spec fn joined_by_edge(ends: Seq<(int, int)>, a: int, b: int) -> bool {
    exists|e: int| 0 <= e < ends.len() && #[trigger] ends[e] == (a, b)
}

/// The nodes `p` lead over edges from the node at `from` to the node at `to`, reach it only at the
/// end, and do not repeat before.
pub open spec fn simple_route(ends: Seq<(int, int)>, p: Seq<int>, from: int, to: int) -> bool {
    &&& p.len() >= 2
    &&& p[0] == from
    &&& p.last() == to
    &&& forall|i: int| 0 <= i < p.len() - 1 ==> #[trigger] joined_by_edge(ends, p[i], p[i + 1])
    &&& forall|i: int, j: int| 0 <= i < j < p.len() - 1 ==> #[trigger] p[i] != #[trigger] p[j]
    &&& forall|i: int| 0 < i < p.len() - 1 ==> #[trigger] p[i] != to
}

/// Lists of places as mathematical integers.
pub open spec fn int_lists(v: Seq<Vec<usize>>) -> Seq<Seq<int>> {
    v.map_values(|p: Vec<usize>| p@.map_values(|x: usize| x as int))
}

/// The routes that `petgraph::algo::all_simple_paths` lists in a graph with the given number of nodes
/// and the given ends of edges, in its order; a route over parallel edges may come more than once.
pub uninterp spec fn simple_routes_between(count: int, ends: Seq<(int, int)>, from: int, to: int) -> Seq<Seq<int>>;

/// `petgraph::algo::all_simple_paths` without a bound on the number of nodes. The claims are that
/// the number of nodes and the ends of the edges, in their order, alone decide what comes out; that
/// every list that comes out is a simple route; and that every simple route comes out at least once,
/// except that a route back to its start that goes through all of several nodes is not looked for.
/// The first claim rests on how a graph comes about here: nodes and edges are added and never removed,
/// so the neighbours of a node are met in the reverse order of its edges.
#[verifier::external_body]
pub(crate) fn simple_routes(g: &petgraph::graph::DiGraph<Node, Edge>, from: usize, to: usize) -> (r: Vec<
    Vec<usize>,
>)
    requires
        from < node_weights(*g).len(),
        to < node_weights(*g).len(),
    ensures
        int_lists(r@) == simple_routes_between(
            node_weights(*g).len() as int,
            ends_of(edge_weights(*g)),
            from as int,
            to as int,
        ),
        forall|i: int|
            0 <= i < r@.len() ==> simple_route(
                ends_of(edge_weights(*g)),
                #[trigger] int_lists(r@)[i],
                from as int,
                to as int,
            ),
        forall|p: Seq<int>| #[trigger]
            simple_route(ends_of(edge_weights(*g)), p, from as int, to as int) && (p.len() <= node_weights(
                *g,
            ).len() || node_weights(*g).len() == 1) ==> int_lists(r@).contains(p),
{
    let a = petgraph::graph::NodeIndex::new(from);
    let b = petgraph::graph::NodeIndex::new(to);
    petgraph::algo::all_simple_paths::<Vec<petgraph::graph::NodeIndex>, _>(g, a, b, 0, None)
        .map(|p| p.into_iter().map(|n| n.index()).collect())
        .collect()
}

} // verus!

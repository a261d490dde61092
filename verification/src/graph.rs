//! An in-memory identity and network graph with lookup by id.
use crate::model::{
    distinct_ids, edge_views, known, node_views, repeats, Edge, EdgeView, GraphDoc, Node, NodeView,
};
use crate::store::{
    add_edge, add_node, edge_count, edge_weight, edge_weights, endpoints, ends_of, int_lists, new_store,
    node_count, node_weight, node_weights, simple_route, simple_routes, simple_routes_between,
};
use vstd::hash_map::StringHashMap;
use vstd::prelude::*;

verus! {

/// What a graph is: its nodes and edges in the order of the document, and for each edge the
/// places of its source and its target among the nodes.
pub ghost struct GraphView {
    pub nodes: Seq<NodeView>,
    pub edges: Seq<EdgeView>,
    pub ends: Seq<(int, int)>,
}

impl GraphView {
    /// Ids are unique, and the ends of an edge are the nodes that it names.
    pub open spec fn wf(self) -> bool {
        &&& distinct_ids(self.nodes)
        &&& self.ends.len() == self.edges.len()
        &&& forall|e: int| #![trigger self.ends[e]]
            0 <= e < self.ends.len() ==> {
                &&& 0 <= self.ends[e].0 < self.nodes.len()
                &&& 0 <= self.ends[e].1 < self.nodes.len()
                &&& self.nodes[self.ends[e].0].id == self.edges[e].from
                &&& self.nodes[self.ends[e].1].id == self.edges[e].to
            }
    }
}

/// The place of the node with an id.
pub open spec fn place(g: GraphView, id: Seq<char>) -> int {
    choose|i: int| 0 <= i < g.nodes.len() && #[trigger] g.nodes[i].id == id
}

/// An id names one node: nodes at two places have different ids.
pub proof fn ids_name_one_node(g: GraphView, i: int, j: int)
    requires
        g.wf(),
        0 <= i < g.nodes.len(),
        0 <= j < g.nodes.len(),
        g.nodes[i].id == g.nodes[j].id,
    ensures
        i == j,
{
    if i < j {
        assert(g.nodes.take(j)[i].id == g.nodes[j].id);
        assert(repeats(g.nodes, j));
    } else if j < i {
        assert(g.nodes.take(i)[j].id == g.nodes[i].id);
        assert(repeats(g.nodes, i));
    }
}

/// The readable name of a node: its kind, a colon and its id.
pub open spec fn label(n: NodeView) -> Seq<char> {
    n.kind + ":"@ + n.id
}

/// Why a document cannot be loaded, or a node cannot be found.
#[derive(Debug, Clone)]
pub enum GraphError {
    /// Two nodes of the document have this id.
    DuplicateNode(String),
    /// An edge of the document names this id, which no node has.
    UnknownNode(String),
    /// No node of the graph has this id.
    NoSuchNode(String),
}

/// An identity and network graph.
pub struct Graph {
    store: petgraph::graph::DiGraph<Node, Edge>,
    index: StringHashMap<usize>,
}

/// The index gives the place of each id among the nodes.
spec fn indexed(index: Map<Seq<char>, usize>, nodes: Seq<Node>) -> bool {
    &&& forall|i: int| #![trigger nodes[i]]
        0 <= i < nodes.len() ==> index.contains_key(nodes[i].id@) && index[nodes[i].id@] == i
    &&& forall|k: Seq<char>| #[trigger]
        index.contains_key(k) ==> 0 <= index[k] < nodes.len() && nodes[index[k] as int].id@ == k
}

/// The edges without their ends.
spec fn bare(edges: Seq<(int, int, Edge)>) -> Seq<EdgeView> {
    edges.map_values(|e: (int, int, Edge)| e.2@)
}

/// An id that the index lacks is the id of no node.
proof fn lemma_unknown(index: Map<Seq<char>, usize>, nodes: Seq<Node>, id: Seq<char>)
    requires
        indexed(index, nodes),
        !index.contains_key(id),
    ensures
        !known(node_views(nodes), id),
{
    if known(node_views(nodes), id) {
        let k = choose|k: int| 0 <= k < node_views(nodes).len() && #[trigger] node_views(nodes)[k].id == id;
        assert(nodes[k].id@ == id);
    }
}

impl View for Graph {
    type V = GraphView;

    closed spec fn view(&self) -> GraphView {
        GraphView {
            nodes: node_views(node_weights(self.store)),
            edges: bare(edge_weights(self.store)),
            ends: ends_of(edge_weights(self.store)),
        }
    }
}

impl Graph {
    #[verifier::type_invariant]
    spec fn inv(self) -> bool {
        &&& self@.wf()
        &&& indexed(self.index@, node_weights(self.store))
    }

    /// Builds the graph that a document describes. A document in which an id is given twice, or
    /// in which an edge names an id that no node has, is refused with the first such fault.
    pub fn from_doc(doc: GraphDoc) -> (r: Result<Graph, GraphError>)
        requires
            doc.nodes.len() <= u32::MAX,
            doc.edges.len() <= u32::MAX,
        ensures
            match r {
                Ok(g) => {
                    &&& doc@.loadable()
                    &&& g@.nodes == doc@.nodes
                    &&& g@.edges == doc@.edges
                    &&& g@.wf()
                },
                Err(GraphError::DuplicateNode(id)) => exists|j: int|
                    {
                        &&& 0 <= j < doc@.nodes.len()
                        &&& repeats(doc@.nodes, j)
                        &&& distinct_ids(doc@.nodes.take(j))
                        &&& id@ == #[trigger] doc@.nodes[j].id
                    },
                Err(GraphError::UnknownNode(id)) => distinct_ids(doc@.nodes) && exists|j: int|
                    {
                        &&& 0 <= j < doc@.edges.len()
                        &&& #[trigger] doc@.dangling(j)
                        &&& forall|k: int| 0 <= k < j ==> !#[trigger] doc@.dangling(k)
                        &&& id@ == if known(doc@.nodes, doc@.edges[j].from) {
                            doc@.edges[j].to
                        } else {
                            doc@.edges[j].from
                        }
                    },
                Err(GraphError::NoSuchNode(_)) => false,
            },
    {
        let ghost d = doc@;
        let GraphDoc { nodes, edges } = doc;
        let mut store = new_store();
        let mut index: StringHashMap<usize> = StringHashMap::new();
        for n in it: nodes
            invariant
                d == doc@,
                it.seq() == nodes@,
                nodes@.len() <= u32::MAX,
                d.nodes == node_views(nodes@),
                node_weights(store) == nodes@.take(it.index()),
                edge_weights(store).len() == 0,
                indexed(index@, nodes@.take(it.index())),
                distinct_ids(d.nodes.take(it.index())),
        {
            let ghost i = it.index();
            assert(n == nodes@[i]);
            assert(d.nodes[i].id == n.id@);
            if index.contains_key(n.id.as_str()) {
                proof {
                    let k = index@[n.id@] as int;
                    assert(nodes@.take(i)[k].id@ == n.id@);
                    assert(d.nodes.take(i)[k].id == n.id@);
                    assert(repeats(d.nodes, i));
                }
                return Err(GraphError::DuplicateNode(n.id));
            }
            let id = n.id.clone();
            proof {
                let before = nodes@.take(i);
                let after = nodes@.take(i + 1);
                assert(after =~= before.push(n));
                assert(!repeats(d.nodes, i)) by {
                    if repeats(d.nodes, i) {
                        let k = choose|k: int| 0 <= k < d.nodes.take(i).len() && #[trigger] d.nodes.take(i)[k].id == n.id@;
                        assert(before[k].id@ == n.id@);
                    }
                }
                assert forall|j: int| 0 <= j < i + 1 implies !#[trigger] repeats(d.nodes.take(i + 1), j) by {
                    assert(d.nodes.take(i + 1).take(j) =~= d.nodes.take(j));
                    if j < i {
                        assert(!repeats(d.nodes.take(i), j));
                        assert(d.nodes.take(i).take(j) =~= d.nodes.take(j));
                    }
                }
            }
            let place = add_node(&mut store, n);
            index.insert(id, place);
        }
        assert(nodes@.take(nodes@.len() as int) =~= nodes@);
        assert(d.nodes.take(nodes@.len() as int) =~= d.nodes);
        for e in it: edges
            invariant
                d == doc@,
                it.seq() == edges@,
                edges@.len() <= u32::MAX,
                d.nodes == node_views(nodes@),
                d.edges == edge_views(edges@),
                distinct_ids(d.nodes),
                node_weights(store) == nodes@,
                indexed(index@, nodes@),
                edge_weights(store).len() == it.index(),
                forall|k: int| #![trigger edge_weights(store)[k]]
                    0 <= k < it.index() ==> {
                        let w = edge_weights(store)[k];
                        &&& w.2 == edges@[k]
                        &&& 0 <= w.0 < nodes@.len()
                        &&& 0 <= w.1 < nodes@.len()
                        &&& nodes@[w.0].id@ == edges@[k].from@
                        &&& nodes@[w.1].id@ == edges@[k].to@
                    },
                forall|k: int| 0 <= k < it.index() ==> !#[trigger] d.dangling(k),
        {
            let ghost i = it.index();
            assert(e == edges@[i]);
            assert(d.edges[i] == e@);
            let from: usize = match index.get(e.from.as_str()) {
                Some(place) => *place,
                None => {
                    proof {
                        lemma_unknown(index@, nodes@, e.from@);
                        assert(d.dangling(i));
                    }
                    return Err(GraphError::UnknownNode(e.from));
                },
            };
            let to: usize = match index.get(e.to.as_str()) {
                Some(place) => *place,
                None => {
                    proof {
                        lemma_unknown(index@, nodes@, e.to@);
                        assert(node_views(nodes@)[from as int].id == e.from@);
                        assert(d.dangling(i));
                    }
                    return Err(GraphError::UnknownNode(e.to));
                },
            };
            proof {
                assert(node_views(nodes@)[from as int].id == e.from@);
                assert(node_views(nodes@)[to as int].id == e.to@);
            }
            add_edge(&mut store, from, to, e);
        }
        let g = Graph { store, index };
        assert(g@.edges =~= d.edges);
        Ok(g)
    }

    /// The place of the node with the given id.
    pub fn node_id(&self, id: &str) -> (r: Result<usize, GraphError>)
        ensures
            match r {
                Ok(i) => {
                    &&& known(self@.nodes, id@)
                    &&& i == place(self@, id@)
                    &&& i < self@.nodes.len()
                    &&& self@.nodes[i as int].id == id@
                },
                Err(GraphError::NoSuchNode(s)) => s@ == id@ && !known(self@.nodes, id@),
                Err(_) => false,
            },
    {
        proof {
            use_type_invariant(self);
        }
        match self.index.get(id) {
            Some(place) => {
                proof {
                    assert(self@.nodes[*place as int].id == id@);
                    ids_name_one_node(self@, *place as int, crate::graph::place(self@, id@));
                }
                Ok(*place)
            },
            None => {
                proof {
                    lemma_unknown(self.index@, node_weights(self.store), id@);
                }
                Err(GraphError::NoSuchNode(id.to_owned()))
            },
        }
    }

    /// The number of nodes.
    pub fn node_count(&self) -> (r: usize)
        ensures
            r == self@.nodes.len(),
    {
        node_count(&self.store)
    }

    /// The number of edges.
    pub fn edge_count(&self) -> (r: usize)
        ensures
            r == self@.edges.len(),
            self@.wf(),
    {
        proof {
            use_type_invariant(self);
        }
        edge_count(&self.store)
    }

    /// The node at a place.
    pub fn node(&self, i: usize) -> (r: &Node)
        requires
            i < self@.nodes.len(),
        ensures
            r@ == self@.nodes[i as int],
    {
        node_weight(&self.store, i)
    }

    /// The edge at a place.
    pub fn edge(&self, e: usize) -> (r: &Edge)
        requires
            e < self@.edges.len(),
        ensures
            r@ == self@.edges[e as int],
    {
        edge_weight(&self.store, e)
    }

    /// The places of the source and the target of an edge.
    pub fn ends(&self, e: usize) -> (r: (usize, usize))
        requires
            e < self@.edges.len(),
        ensures
            r.0 == self@.ends[e as int].0,
            r.1 == self@.ends[e as int].1,
            r.0 < self@.nodes.len(),
            r.1 < self@.nodes.len(),
    {
        proof {
            use_type_invariant(self);
        }
        let pair = endpoints(&self.store, e);
        pair.unwrap()
    }

    /// The id of the node at a place.
    pub fn node_id_of(&self, i: usize) -> (r: &str)
        requires
            i < self@.nodes.len(),
        ensures
            r@ == self@.nodes[i as int].id,
    {
        self.node(i).id.as_str()
    }

    /// The kind of the node at a place.
    pub fn node_kind_of(&self, i: usize) -> (r: &str)
        requires
            i < self@.nodes.len(),
        ensures
            r@ == self@.nodes[i as int].kind,
    {
        self.node(i).kind.as_str()
    }

    /// The readable name of the node at a place: its kind, a colon and its id.
    pub fn node_label(&self, i: usize) -> (r: String)
        requires
            i < self@.nodes.len(),
        ensures
            r@ == label(self@.nodes[i as int]),
    {
        let mut out = self.node_kind_of(i).to_owned();
        out.append(":");
        out.append(self.node_id_of(i));
        out
    }

    /// Every simple route from one node to another, as the places of the nodes on it, without a
    /// bound on its length. A route from a node back to itself that goes through all of several
    /// nodes is not looked for.
    pub fn simple_paths(&self, from: &str, to: &str) -> (r: Result<Vec<Vec<usize>>, GraphError>)
        ensures
            match r {
                Ok(routes) => {
                    let a = place(self@, from@);
                    let b = place(self@, to@);
                    &&& known(self@.nodes, from@)
                    &&& known(self@.nodes, to@)
                    &&& int_lists(routes@) == simple_routes_between(self@.nodes.len() as int, self@.ends, a, b)
                    &&& forall|i: int|
                        0 <= i < routes@.len() ==> simple_route(self@.ends, #[trigger] int_lists(routes@)[i], a, b)
                    &&& forall|p: Seq<int>| #[trigger]
                        simple_route(self@.ends, p, a, b) && (p.len() <= self@.nodes.len() || self@.nodes.len() == 1)
                            ==> int_lists(routes@).contains(p)
                },
                Err(e) => missing(e, self@, from@, Some(to@)),
            },
    {
        let a = self.node_id(from)?;
        let b = self.node_id(to)?;
        Ok(simple_routes(&self.store, a, b))
    }
}

/// The error says which of the ids, in their order, is the first that no node has.
pub open spec fn missing(e: GraphError, g: GraphView, first: Seq<char>, second: Option<Seq<char>>) -> bool {
    match e {
        GraphError::NoSuchNode(id) => if known(g.nodes, first) {
            second is Some && !known(g.nodes, second->0) && id@ == second->0
        } else {
            id@ == first
        },
        _ => false,
    }
}

} // verus!

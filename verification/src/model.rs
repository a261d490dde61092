//! The graph document: nodes and edges as they are written down.
use crate::json::{members, Tree};
use vstd::prelude::*;

verus! {

/// One node of the graph.
#[derive(Debug, Clone)]
pub struct Node {
    pub id: String,
    pub kind: String,
    pub attrs: serde_json::Map<String, serde_json::Value>,
}

/// One edge of the graph: a permission or trust that leads from one node to another.
#[derive(Debug, Clone)]
pub struct Edge {
    pub from: String,
    pub to: String,
    pub kind: String,
    /// The action that the edge grants.
    pub action: Option<String>,
    /// The resource ARN that the grant applies to; a grant without one applies to any resource.
    pub resource: Option<String>,
    /// The condition block that gates the edge, as it was written.
    pub conditions: Option<serde_json::Map<String, serde_json::Value>>,
}

/// A whole graph document.
#[derive(Debug, Clone)]
pub struct GraphDoc {
    pub nodes: Vec<Node>,
    pub edges: Vec<Edge>,
}

/// What a node is.
pub ghost struct NodeView {
    pub id: Seq<char>,
    pub kind: Seq<char>,
    pub attrs: Map<Seq<char>, Tree>,
}

/// What an edge is.
pub ghost struct EdgeView {
    pub from: Seq<char>,
    pub to: Seq<char>,
    pub kind: Seq<char>,
    pub action: Option<Seq<char>>,
    pub resource: Option<Seq<char>>,
    pub conditions: Option<Map<Seq<char>, Tree>>,
}

/// What a graph document is.
pub ghost struct DocView {
    pub nodes: Seq<NodeView>,
    pub edges: Seq<EdgeView>,
}

/// The text of an optional string.
pub open spec fn text_of(s: Option<String>) -> Option<Seq<char>> {
    match s {
        Some(t) => Some(t@),
        None => None,
    }
}

/// The members of an optional object.
pub open spec fn members_of(m: Option<serde_json::Map<String, serde_json::Value>>) -> Option<
    Map<Seq<char>, Tree>,
> {
    match m {
        Some(x) => Some(members(x)),
        None => None,
    }
}

impl View for Node {
    type V = NodeView;

    open spec fn view(&self) -> NodeView {
        NodeView { id: self.id@, kind: self.kind@, attrs: members(self.attrs) }
    }
}

impl View for Edge {
    type V = EdgeView;

    open spec fn view(&self) -> EdgeView {
        EdgeView {
            from: self.from@,
            to: self.to@,
            kind: self.kind@,
            action: text_of(self.action),
            resource: text_of(self.resource),
            conditions: members_of(self.conditions),
        }
    }
}

/// What each of a sequence of nodes is.
pub open spec fn node_views(nodes: Seq<Node>) -> Seq<NodeView> {
    nodes.map_values(|n: Node| n@)
}

/// What each of a sequence of edges is.
pub open spec fn edge_views(edges: Seq<Edge>) -> Seq<EdgeView> {
    edges.map_values(|e: Edge| e@)
}

impl View for GraphDoc {
    type V = DocView;

    open spec fn view(&self) -> DocView {
        DocView { nodes: node_views(self.nodes@), edges: edge_views(self.edges@) }
    }
}

/// Some node of the list has the id.
pub open spec fn known(nodes: Seq<NodeView>, id: Seq<char>) -> bool {
    exists|i: int| 0 <= i < nodes.len() && #[trigger] nodes[i].id == id
}

/// The node at `j` has the id of an earlier node.
pub open spec fn repeats(nodes: Seq<NodeView>, j: int) -> bool {
    known(nodes.take(j), nodes[j].id)
}

/// No two nodes share an id.
pub open spec fn distinct_ids(nodes: Seq<NodeView>) -> bool {
    forall|j: int| 0 <= j < nodes.len() ==> !#[trigger] repeats(nodes, j)
}

impl DocView {
    /// The edge at `j` names a node that the document lacks.
    pub open spec fn dangling(self, j: int) -> bool {
        !known(self.nodes, self.edges[j].from) || !known(self.nodes, self.edges[j].to)
    }

    /// Every id is given to one node, and every edge joins nodes of the document.
    pub open spec fn loadable(self) -> bool {
        &&& distinct_ids(self.nodes)
        &&& forall|j: int| 0 <= j < self.edges.len() ==> !#[trigger] self.dangling(j)
    }
}

} // verus!

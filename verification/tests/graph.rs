use oracle::graph::{Graph, GraphError};
use oracle::model::{Edge, GraphDoc, Node};
use serde_json::Value;

fn text(v: &Value, key: &str) -> Option<String> {
    v.get(key).and_then(Value::as_str).map(str::to_string)
}

fn members(v: &Value, key: &str) -> Option<serde_json::Map<String, Value>> {
    v.get(key).and_then(Value::as_object).cloned()
}

fn list<'a>(v: &'a Value, key: &str) -> Vec<&'a Value> {
    v.get(key).and_then(Value::as_array).map(|a| a.iter().collect()).unwrap_or_default()
}

fn doc(json: &str) -> GraphDoc {
    let v: Value = serde_json::from_str(json).unwrap();
    GraphDoc {
        nodes: list(&v, "nodes")
            .into_iter()
            .map(|n| Node {
                id: text(n, "id").unwrap(),
                kind: text(n, "kind").unwrap(),
                attrs: members(n, "attrs").unwrap_or_default(),
            })
            .collect(),
        edges: list(&v, "edges")
            .into_iter()
            .map(|e| Edge {
                from: text(e, "from").unwrap(),
                to: text(e, "to").unwrap(),
                kind: text(e, "kind").unwrap(),
                action: text(e, "action"),
                resource: text(e, "resource"),
                conditions: members(e, "conditions"),
            })
            .collect(),
    }
}

fn graph(json: &str) -> Graph {
    Graph::from_doc(doc(json)).unwrap_or_else(|e| panic!("{}", e.message()))
}

const SAMPLE: &str = r#"{
    "nodes": [
        {"id": "alice", "kind": "user"},
        {"id": "admin", "kind": "role"},
        {"id": "all", "kind": "resource"}
    ],
    "edges": [
        {"from": "alice", "to": "admin", "kind": "can_assume", "action": "sts:AssumeRole"},
        {"from": "admin", "to": "all", "kind": "has_permission", "action": "*"}
    ]
}"#;

#[test]
fn finds_the_escalation_path() {
    let g = graph(SAMPLE);
    let paths = g.paths("alice", "all").unwrap().paths;
    assert_eq!(paths.len(), 1);
    assert_eq!(paths[0].nodes.len(), 3);
}

#[test]
fn no_path_when_unreachable() {
    let g = graph(SAMPLE);
    let paths = g.paths("all", "alice").unwrap().paths;
    assert!(paths.is_empty());
}

#[test]
fn simple_paths_list_the_places_of_the_nodes() {
    let g = graph(SAMPLE);
    assert_eq!(g.simple_paths("alice", "all").unwrap(), vec![vec![0, 1, 2]]);
    assert!(g.simple_paths("all", "alice").unwrap().is_empty());
}

#[test]
fn simple_paths_have_no_bound_on_their_length() {
    let mut d = GraphDoc { nodes: vec![], edges: vec![] };
    for i in 0..12 {
        d.nodes.push(Node { id: format!("n{i}"), kind: "host".into(), attrs: serde_json::Map::new() });
    }
    for i in 0..11 {
        d.edges.push(Edge {
            from: format!("n{i}"),
            to: format!("n{}", i + 1),
            kind: "network".into(),
            action: None,
            resource: None,
            conditions: None,
        });
    }
    let g = Graph::from_doc(d).unwrap_or_else(|e| panic!("{}", e.message()));
    let routes = g.simple_paths("n0", "n11").unwrap();
    assert_eq!(routes.len(), 1);
    assert_eq!(routes[0].len(), 12);
    let bounded = g.paths("n0", "n11").unwrap();
    assert!(bounded.paths.is_empty());
    assert!(bounded.truncated);
}

#[test]
fn duplicate_ids_are_rejected() {
    let d = doc(r#"{"nodes":[{"id":"a","kind":"user"},{"id":"a","kind":"role"}],"edges":[]}"#);
    match Graph::from_doc(d) {
        Err(GraphError::DuplicateNode(id)) => assert_eq!(id, "a"),
        _ => panic!("expected a duplicate"),
    }
    assert_eq!(GraphError::DuplicateNode("a".into()).message(), "duplicate node id a");
}

#[test]
fn edges_to_unknown_nodes_are_rejected() {
    let d = doc(r#"{"nodes":[{"id":"a","kind":"user"}],"edges":[{"from":"a","to":"b","kind":"trusts"}]}"#);
    match Graph::from_doc(d) {
        Err(GraphError::UnknownNode(id)) => assert_eq!(id, "b"),
        _ => panic!("expected an unknown node"),
    }
    let d = doc(r#"{"nodes":[{"id":"a","kind":"user"}],"edges":[{"from":"c","to":"b","kind":"trusts"}]}"#);
    match Graph::from_doc(d) {
        Err(GraphError::UnknownNode(id)) => assert_eq!(id, "c"),
        _ => panic!("expected an unknown node"),
    }
    assert_eq!(GraphError::UnknownNode("b".into()).message(), "edge references unknown node b");
}

#[test]
fn lookups_of_missing_ids_say_which() {
    let g = graph(SAMPLE);
    for r in [g.paths("bob", "nobody"), g.paths("bob", "all"), g.paths_to_action("bob", "*")] {
        match r {
            Err(e) => assert_eq!(e.message(), "no node with id bob"),
            Ok(_) => panic!("expected an error"),
        }
    }
    assert_eq!(g.paths("alice", "bob").unwrap_err().message(), "no node with id bob");
    assert_eq!(g.blast_from("bob").unwrap_err().message(), "no node with id bob");
    assert_eq!(g.escalation_from("bob").unwrap_err().message(), "no node with id bob");
    assert_eq!(g.simple_paths("bob", "all").unwrap_err().message(), "no node with id bob");
}

#[test]
fn nodes_and_edges_are_kept() {
    let g = graph(
        r#"{"nodes":[{"id":"a","kind":"user","attrs":{"mfa":true}},{"id":"b","kind":"role"}],
            "edges":[{"from":"b","to":"a","kind":"trusts"}]}"#,
    );
    assert_eq!(g.node_count(), 2);
    assert_eq!(g.edge_count(), 1);
    assert_eq!(g.node_id("b").unwrap(), 1);
    assert_eq!(g.node_id_of(1), "b");
    assert_eq!(g.node_kind_of(0), "user");
    assert_eq!(g.node_label(1), "role:b");
    assert_eq!(g.node(0).attrs.get("mfa"), Some(&Value::Bool(true)));
    assert_eq!(g.edge(0).kind, "trusts");
    assert_eq!(g.ends(0), (1, 0));
}

#[test]
fn reach_follows_edges_any_number_of_times() {
    let g = graph(
        r#"{"nodes":[{"id":"a","kind":"user"},{"id":"b","kind":"group"},{"id":"c","kind":"resource"},
                     {"id":"d","kind":"role"},{"id":"e","kind":"service"},{"id":"f","kind":"user"}],
            "edges":[{"from":"a","to":"b","kind":"member_of"},{"from":"b","to":"c","kind":"has_permission"},
                     {"from":"c","to":"d","kind":"trusts"},{"from":"d","to":"a","kind":"trusts"},
                     {"from":"d","to":"e","kind":"trusts"},{"from":"f","to":"a","kind":"trusts"}]}"#,
    );
    assert_eq!(g.blast_from("a").unwrap(), vec![1, 2, 3, 4]);
    assert_eq!(g.escalation_from("a").unwrap(), vec![1, 3]);
    assert_eq!(g.blast_from("e").unwrap(), Vec::<usize>::new());
    assert_eq!(g.blast_from("f").unwrap(), vec![0, 1, 2, 3, 4]);
}

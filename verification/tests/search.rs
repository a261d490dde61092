use oracle::graph::Graph;
use oracle::model::{Edge, GraphDoc, Node};
use oracle::search::{Goal, Limits, PathResult, Search};
use serde_json::Value;

fn text(v: &Value, key: &str) -> Option<String> {
    v.get(key).and_then(Value::as_str).map(str::to_string)
}

fn members(v: &Value, key: &str) -> Option<serde_json::Map<String, Value>> {
    v.get(key).and_then(Value::as_object).cloned()
}

fn list<'a>(v: &'a Value, key: &str) -> Vec<&'a Value> {
    v.get(key).and_then(Value::as_array).map(|a| a.iter().collect()).unwrap_or_default()
}

fn doc(json: &str) -> GraphDoc {
    let v: Value = serde_json::from_str(json).unwrap();
    GraphDoc {
        nodes: list(&v, "nodes")
            .into_iter()
            .map(|n| Node {
                id: text(n, "id").unwrap(),
                kind: text(n, "kind").unwrap(),
                attrs: members(n, "attrs").unwrap_or_default(),
            })
            .collect(),
        edges: list(&v, "edges")
            .into_iter()
            .map(|e| Edge {
                from: text(e, "from").unwrap(),
                to: text(e, "to").unwrap(),
                kind: text(e, "kind").unwrap(),
                action: text(e, "action"),
                resource: text(e, "resource"),
                conditions: members(e, "conditions"),
            })
            .collect(),
    }
}

fn graph(json: &str) -> Graph {
    Graph::from_doc(doc(json)).unwrap_or_else(|e| panic!("{}", e.message()))
}

const IAM: &str = r#"{
    "nodes": [
        {"id": "alice", "kind": "user"},
        {"id": "devs", "kind": "group"},
        {"id": "deployer", "kind": "role"},
        {"id": "bucket", "kind": "resource"}
    ],
    "edges": [
        {"from": "alice", "to": "devs", "kind": "member_of"},
        {"from": "devs", "to": "deployer", "kind": "can_assume", "action": "sts:AssumeRole"},
        {"from": "devs", "to": "deployer", "kind": "has_permission", "action": "iam:PassRole"},
        {"from": "deployer", "to": "bucket", "kind": "has_permission", "action": "s3:Get*",
         "resource": "arn:aws:s3:::logs/*"},
        {"from": "alice", "to": "bucket", "kind": "has_permission", "action": "s3:ListBucket",
         "conditions": {"Bool": {"aws:MultiFactorAuthPresent": "true"}, "ArnLike": {}}}
    ]
}"#;

fn routes(r: &PathResult) -> Vec<Vec<usize>> {
    r.paths.iter().map(|p| p.edges.clone()).collect()
}

fn to_node(i: usize, via: Vec<String>) -> Search {
    Search { via, goal: Goal::Node(i) }
}

fn to_action(pattern: &str, resource: Option<&str>) -> Search {
    Search {
        via: vec![],
        goal: Goal::Action { pattern: pattern.into(), resource: resource.map(str::to_string) },
    }
}

#[test]
fn parallel_edges_give_distinct_paths() {
    let g = graph(IAM);
    let r = g.paths("alice", "deployer").unwrap();
    assert_eq!(routes(&r), vec![vec![0, 2], vec![0, 1]]);
    assert!(!r.truncated);
    assert_eq!(r.paths[0].nodes, r.paths[1].nodes);
}

#[test]
fn via_keeps_to_the_given_kinds() {
    let g = graph(IAM);
    let r = g.find_paths(0, &to_node(3, vec!["member_of".into(), "has_permission".into()]), Limits::default());
    assert_eq!(routes(&r), vec![vec![4], vec![0, 2, 3]]);
    let r = g.find_paths(0, &to_node(3, vec!["network".into()]), Limits::default());
    assert!(r.paths.is_empty());
}

#[test]
fn depth_is_capped_and_reported() {
    let g = graph(IAM);
    let r = g.find_paths(0, &to_node(3, vec![]), Limits { max_depth: 2, max_results: 10 });
    assert_eq!(routes(&r), vec![vec![4]]);
    assert!(r.truncated);
    let r = g.find_paths(0, &to_node(3, vec![]), Limits { max_depth: 3, max_results: 10 });
    assert_eq!(routes(&r), vec![vec![4], vec![0, 2, 3], vec![0, 1, 3]]);
    assert!(!r.truncated);
    let r = g.find_paths(0, &to_node(3, vec![]), Limits { max_depth: 0, max_results: 10 });
    assert!(r.paths.is_empty());
    assert!(r.truncated);
}

#[test]
fn results_are_capped_and_reported() {
    let g = graph(IAM);
    let r = g.find_paths(0, &to_node(3, vec![]), Limits { max_depth: 8, max_results: 2 });
    assert_eq!(routes(&r), vec![vec![4], vec![0, 2, 3]]);
    assert!(r.truncated);
    let r = g.find_paths(0, &to_node(3, vec![]), Limits { max_depth: 8, max_results: 3 });
    assert_eq!(r.paths.len(), 3);
    assert!(!r.truncated);
    let r = g.find_paths(0, &to_node(3, vec![]), Limits { max_depth: 8, max_results: 0 });
    assert!(r.paths.is_empty());
    assert!(r.truncated);
}

#[test]
fn the_default_limits_are_eight_hops_and_a_thousand_results() {
    assert_eq!(Limits::default(), Limits { max_depth: 8, max_results: 1000 });
}

#[test]
fn a_dense_graph_stops_at_a_thousand_results() {
    let mut d = GraphDoc { nodes: vec![], edges: vec![] };
    for i in 0..9 {
        d.nodes.push(Node { id: format!("n{i}"), kind: "host".into(), attrs: serde_json::Map::new() });
    }
    for i in 0..9 {
        for j in 0..9 {
            if i != j {
                d.edges.push(Edge {
                    from: format!("n{i}"),
                    to: format!("n{j}"),
                    kind: "network".into(),
                    action: None,
                    resource: None,
                    conditions: None,
                });
            }
        }
    }
    let g = Graph::from_doc(d).unwrap_or_else(|e| panic!("{}", e.message()));
    let r = g.paths("n0", "n8").unwrap();
    assert_eq!(r.paths.len(), 1000);
    assert!(r.truncated);
}

#[test]
fn action_paths_end_on_the_grant() {
    let g = graph(IAM);
    let r = g.paths_to_action("alice", "s3:GetObject").unwrap();
    assert_eq!(routes(&r), vec![vec![0, 2, 3], vec![0, 1, 3]]);
    let r = g.paths_to_action("alice", "s3:*").unwrap();
    assert_eq!(routes(&r), vec![vec![4], vec![0, 2, 3], vec![0, 1, 3]]);
    let r = g.paths_to_action("alice", "iam:PassRole").unwrap();
    assert_eq!(routes(&r), vec![vec![0, 2]]);
    assert!(g.paths_to_action("alice", "ec2:*").unwrap().paths.is_empty());
}

#[test]
fn a_resource_scopes_an_action() {
    let g = graph(IAM);
    let r = g.find_paths(0, &to_action("s3:*", Some("arn:aws:s3:::logs/x")), Limits::default());
    assert_eq!(routes(&r), vec![vec![4], vec![0, 2, 3], vec![0, 1, 3]]);
    let r = g.find_paths(0, &to_action("s3:*", Some("arn:aws:s3:::other")), Limits::default());
    assert_eq!(routes(&r), vec![vec![4]]);
}

#[test]
fn paths_visit_no_node_twice() {
    let g = graph(
        r#"{"nodes":[{"id":"a","kind":"user"},{"id":"b","kind":"role"},{"id":"c","kind":"role"}],
            "edges":[{"from":"a","to":"b","kind":"trusts"},{"from":"b","to":"a","kind":"trusts"},
                     {"from":"b","to":"c","kind":"trusts"},{"from":"c","to":"b","kind":"trusts"}]}"#,
    );
    let r = g.paths("a", "c").unwrap();
    assert_eq!(routes(&r), vec![vec![0, 2]]);
    assert!(!r.truncated);
}

#[test]
fn conditional_hops_are_rendered_as_such() {
    let g = graph(IAM);
    let r = g.find_paths(0, &to_node(3, vec![]), Limits { max_depth: 1, max_results: 10 });
    assert_eq!(
        g.render_path(&r.paths[0]),
        "user:alice --[has_permission s3:ListBucket (conditional: ArnLike, Bool)]--> resource:bucket"
    );
    let r = g.paths("alice", "devs").unwrap();
    assert_eq!(g.render_path(&r.paths[0]), "user:alice --[member_of]--> group:devs");
}

#[test]
fn an_empty_path_is_rendered_as_nothing() {
    let g = graph(IAM);
    let p = oracle::search::AttackPath { nodes: vec![], edges: vec![] };
    assert_eq!(g.render_path(&p), "");
}

#[test]
fn an_edge_without_action_or_members_shows_its_kind() {
    let e = Edge {
        from: "a".into(),
        to: "b".into(),
        kind: "trusts".into(),
        action: None,
        resource: None,
        conditions: Some(serde_json::Map::new()),
    };
    assert_eq!(oracle::render::show_edge(&e), "trusts");
}

#[test]
fn newer_edges_are_followed_first_as_simple_paths_are_listed() {
    let g = graph(
        r#"{"nodes":[{"id":"a","kind":"host"},{"id":"b","kind":"host"},{"id":"c","kind":"host"},{"id":"d","kind":"host"}],
            "edges":[{"from":"a","to":"b","kind":"network"},{"from":"a","to":"c","kind":"network"},
                     {"from":"b","to":"d","kind":"network"},{"from":"c","to":"d","kind":"network"},
                     {"from":"b","to":"c","kind":"network"},{"from":"a","to":"d","kind":"network"},
                     {"from":"c","to":"b","kind":"network"},{"from":"a","to":"b","kind":"network"}]}"#,
    );
    for (from, to) in [("a", "d"), ("a", "c"), ("b", "c"), ("c", "b"), ("b", "b"), ("d", "a")] {
        let r = g.paths(from, to).unwrap();
        let nodes: Vec<Vec<usize>> = r.paths.iter().map(|p| p.nodes.clone()).collect();
        assert_eq!(nodes, g.simple_paths(from, to).unwrap(), "{from} {to}");
        assert!(!r.truncated);
    }
}

#[test]
fn a_way_back_through_every_node_is_not_looked_for() {
    let ring = |n: usize| {
        let mut d = GraphDoc { nodes: vec![], edges: vec![] };
        for i in 0..n {
            d.nodes.push(Node { id: format!("n{i}"), kind: "host".into(), attrs: serde_json::Map::new() });
            d.edges.push(Edge {
                from: format!("n{i}"),
                to: format!("n{}", (i + 1) % n),
                kind: "network".into(),
                action: None,
                resource: None,
                conditions: None,
            });
        }
        d
    };
    for n in 1..5 {
        let g = Graph::from_doc(ring(n)).unwrap_or_else(|e| panic!("{}", e.message()));
        let r = g.paths("n0", "n0").unwrap();
        assert_eq!(r.paths.len(), if n == 1 { 1 } else { 0 });
        assert_eq!(g.simple_paths("n0", "n0").unwrap().len(), r.paths.len());
        assert!(!r.truncated);
        let mut d = ring(n);
        d.nodes.push(Node { id: "aside".into(), kind: "host".into(), attrs: serde_json::Map::new() });
        let g = Graph::from_doc(d).unwrap_or_else(|e| panic!("{}", e.message()));
        assert_eq!(g.paths("n0", "n0").unwrap().paths.len(), 1);
        assert_eq!(g.simple_paths("n0", "n0").unwrap().len(), 1);
    }
}

#[test]
fn a_deep_search_needs_no_deep_stack() {
    let n = 4000;
    let mut d = GraphDoc { nodes: vec![], edges: vec![] };
    for i in 0..n {
        d.nodes.push(Node { id: format!("n{i}"), kind: "host".into(), attrs: serde_json::Map::new() });
    }
    for i in 0..n - 1 {
        d.edges.push(Edge {
            from: format!("n{i}"),
            to: format!("n{}", i + 1),
            kind: "network".into(),
            action: None,
            resource: None,
            conditions: None,
        });
    }
    let g = Graph::from_doc(d).unwrap_or_else(|e| panic!("{}", e.message()));
    let r = g.find_paths(0, &to_node(n - 1, vec![]), Limits { max_depth: usize::MAX, max_results: 1 });
    assert_eq!(r.paths[0].edges.len(), n - 1);
    assert!(!r.truncated);
}

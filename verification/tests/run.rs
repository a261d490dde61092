use oracle::graph::Graph;
use oracle::model::{Edge, GraphDoc, Node};
use oracle::report::{answer_report, number_text};
use oracle::run::RunError;
use oracle::server::{graph_value, post_query};
use serde_json::Value;

fn text(v: &Value, key: &str) -> Option<String> {
    v.get(key).and_then(Value::as_str).map(str::to_string)
}

fn members(v: &Value, key: &str) -> Option<serde_json::Map<String, Value>> {
    v.get(key).and_then(Value::as_object).cloned()
}

fn list<'a>(v: &'a Value, key: &str) -> Vec<&'a Value> {
    v.get(key).and_then(Value::as_array).map(|a| a.iter().collect()).unwrap_or_default()
}

fn doc(json: &str) -> GraphDoc {
    let v: Value = serde_json::from_str(json).unwrap();
    GraphDoc {
        nodes: list(&v, "nodes")
            .into_iter()
            .map(|n| Node {
                id: text(n, "id").unwrap(),
                kind: text(n, "kind").unwrap(),
                attrs: members(n, "attrs").unwrap_or_default(),
            })
            .collect(),
        edges: list(&v, "edges")
            .into_iter()
            .map(|e| Edge {
                from: text(e, "from").unwrap(),
                to: text(e, "to").unwrap(),
                kind: text(e, "kind").unwrap(),
                action: text(e, "action"),
                resource: text(e, "resource"),
                conditions: members(e, "conditions"),
            })
            .collect(),
    }
}

fn graph(json: &str) -> Graph {
    Graph::from_doc(doc(json)).unwrap_or_else(|e| panic!("{}", e.message()))
}

const LAB: &str = r#"{
    "nodes": [
        {"id": "alice", "kind": "user"},
        {"id": "devs", "kind": "group"},
        {"id": "deployer", "kind": "role"},
        {"id": "bucket", "kind": "resource"}
    ],
    "edges": [
        {"from": "alice", "to": "devs", "kind": "member_of"},
        {"from": "devs", "to": "deployer", "kind": "can_assume", "action": "sts:AssumeRole"},
        {"from": "deployer", "to": "bucket", "kind": "has_permission", "action": "s3:PutObject",
         "resource": "arn:aws:s3:::b/*"},
        {"from": "alice", "to": "bucket", "kind": "network"}
    ]
}"#;

fn parsed(s: &str) -> Value {
    serde_json::from_str(s).unwrap()
}

fn ran(oql: &str) -> Value {
    graph(LAB).run_oql(oql).unwrap_or_else(|e| panic!("{}", e.message()))
}

fn refused(oql: &str) -> RunError {
    match graph(LAB).run_oql(oql) {
        Err(e) => e,
        Ok(v) => panic!("{v}"),
    }
}

#[test]
fn paths_are_answered_with_their_techniques() {
    let v = ran(r#"PATHS FROM user("alice") TO action("s3:*")"#);
    assert_eq!(
        v,
        parsed(
            r#"{"count":1,"truncated":false,"paths":[{
                "path":"user:alice --[member_of]--> group:devs --[can_assume sts:AssumeRole]--> role:deployer --[has_permission s3:PutObject]--> resource:bucket",
                "findings":[{"technique":"Object write (possible code execution)","severity":"medium",
                             "principal":"role:deployer",
                             "why":"can write objects; RCE if a bucket has a Lambda or pipeline trigger"}]}]}"#
        )
    );
}

#[test]
fn clauses_narrow_the_paths() {
    let both = r#"PATHS FROM user("alice") TO resource("bucket")"#;
    assert_eq!(ran(both)["count"], Value::from(2));
    assert_eq!(ran(&format!("{both} VIA network"))["count"], Value::from(1));
    assert_eq!(ran(&format!("{both} VIA member_of, can_assume, has_permission"))["count"], Value::from(1));
    let short = ran(&format!("{both} WITHIN 2 HOPS"));
    assert_eq!(short["count"], Value::from(1));
    assert_eq!(short["truncated"], Value::Bool(true));
    let long = ran(&format!("{both} WITHIN 3 HOPS"));
    assert_eq!(long["count"], Value::from(2));
    assert_eq!(long["truncated"], Value::Bool(false));
    let on = r#"PATHS FROM user("alice") TO action("s3:*") ON resource"#;
    assert_eq!(ran(&format!(r#"{on}("arn:aws:s3:::b/key")"#))["count"], Value::from(1));
    assert_eq!(ran(&format!(r#"{on}("arn:aws:s3:::c/key")"#))["count"], Value::from(0));
}

#[test]
fn escalate_and_blast_list_labels() {
    assert_eq!(
        ran(r#"ESCALATE FROM user("alice")"#),
        parsed(r#"{"count":2,"targets":["group:devs","role:deployer"]}"#)
    );
    assert_eq!(
        ran(r#"BLAST group("devs")"#),
        parsed(r#"{"count":2,"targets":["role:deployer","resource:bucket"]}"#)
    );
    assert_eq!(ran(r#"blast resource('bucket')"#), parsed(r#"{"count":0,"targets":[]}"#));
}

#[test]
fn references_that_name_no_node_are_refused() {
    assert_eq!(refused(r#"BLAST role("zed")"#), RunError::NoSuchNode("zed".into()));
    assert_eq!(refused(r#"BLAST role("zed")"#).message(), "no node with id zed");
    let e = refused(r#"ESCALATE FROM role("alice")"#);
    assert_eq!(e, RunError::WrongKind { kind: "role".into(), id: "alice".into() });
    assert_eq!(e.message(), "no role with id alice");
    assert_eq!(
        refused(r#"PATHS FROM user("alice") TO role("bucket")"#).message(),
        "no role with id bucket"
    );
    assert_eq!(refused(r#"PATHS FROM user("x") TO role("y")"#).message(), "no node with id x");
    assert!(matches!(refused("NONSENSE"), RunError::Oql(_)));
}

#[test]
fn http_answers_with_a_status() {
    let g = graph(LAB);
    let (status, body) = post_query(&g, r#"BLAST group("devs")"#);
    assert_eq!(status, 200);
    assert_eq!(body["count"], Value::from(2));
    let (status, body) = post_query(&g, "BLAST");
    assert_eq!(status, 400);
    assert_eq!(body, parsed(r#"{"error":"expected a keyword or identifier, found None"}"#));
}

#[test]
fn paths_are_reported_as_lines() {
    let g = graph(LAB);
    let r = g.paths("alice", "bucket").unwrap();
    assert_eq!(
        g.paths_report("alice", "bucket", &r),
        vec![
            "2 attack path(s) from alice to bucket:".to_string(),
            "".to_string(),
            "[1] user:alice --[network]--> resource:bucket".to_string(),
            "[2] user:alice --[member_of]--> group:devs --[can_assume sts:AssumeRole]--> role:deployer --[has_permission s3:PutObject]--> resource:bucket".to_string(),
        ]
    );
    let r = g.paths("bucket", "alice").unwrap();
    assert_eq!(
        g.paths_report("bucket", "alice", &r),
        vec!["no attack path from bucket to alice".to_string()]
    );
}

#[test]
fn answers_are_reported_as_lines() {
    assert_eq!(
        answer_report(&ran(r#"PATHS FROM user("alice") TO resource("bucket") VIA network"#)),
        vec!["[1] user:alice --[network]--> resource:bucket".to_string()]
    );
    assert_eq!(
        answer_report(&ran(r#"ESCALATE FROM user("alice")"#)),
        vec!["group:devs".to_string(), "role:deployer".to_string()]
    );
    assert!(answer_report(&Value::Null).is_empty());
}

#[test]
fn numbers_are_written_in_decimal() {
    assert_eq!(number_text(0), "0");
    assert_eq!(number_text(7), "7");
    assert_eq!(number_text(10), "10");
    assert_eq!(number_text(1000), "1000");
    assert_eq!(number_text(usize::MAX), usize::MAX.to_string());
}

#[test]
fn the_text_of_a_graph_is_kept_as_json() {
    let v = graph_value(LAB).unwrap();
    assert_eq!(v, parsed(LAB));
    assert_eq!(graph_value("{"), None);
}

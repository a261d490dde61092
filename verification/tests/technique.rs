use oracle::graph::Graph;
use oracle::model::{Edge, GraphDoc, Node};
use oracle::technique::{detect, holds, Finding};
use serde_json::Value;

fn text(v: &Value, key: &str) -> Option<String> {
    v.get(key).and_then(Value::as_str).map(str::to_string)
}

fn members(v: &Value, key: &str) -> Option<serde_json::Map<String, Value>> {
    v.get(key).and_then(Value::as_object).cloned()
}

fn list<'a>(v: &'a Value, key: &str) -> Vec<&'a Value> {
    v.get(key).and_then(Value::as_array).map(|a| a.iter().collect()).unwrap_or_default()
}

fn doc(json: &str) -> GraphDoc {
    let v: Value = serde_json::from_str(json).unwrap();
    GraphDoc {
        nodes: list(&v, "nodes")
            .into_iter()
            .map(|n| Node {
                id: text(n, "id").unwrap(),
                kind: text(n, "kind").unwrap(),
                attrs: members(n, "attrs").unwrap_or_default(),
            })
            .collect(),
        edges: list(&v, "edges")
            .into_iter()
            .map(|e| Edge {
                from: text(e, "from").unwrap(),
                to: text(e, "to").unwrap(),
                kind: text(e, "kind").unwrap(),
                action: text(e, "action"),
                resource: text(e, "resource"),
                conditions: members(e, "conditions"),
            })
            .collect(),
    }
}

fn graph(json: &str) -> Graph {
    Graph::from_doc(doc(json)).unwrap_or_else(|e| panic!("{}", e.message()))
}

#[test]
fn detects_rce_from_lambda_plus_passrole() {
    // A role that holds both lambda:UpdateFunctionCode and iam:PassRole,
    // reachable by assuming it, is an RCE primitive.
    let j = r#"{
        "nodes":[
            {"id":"alice","kind":"user"},
            {"id":"builder","kind":"role"},
            {"id":"fn","kind":"resource"},
            {"id":"admin-role","kind":"role"}
        ],
        "edges":[
            {"from":"alice","to":"builder","kind":"can_assume","action":"sts:AssumeRole"},
            {"from":"builder","to":"fn","kind":"has_permission","action":"lambda:UpdateFunctionCode"},
            {"from":"builder","to":"admin-role","kind":"has_permission","action":"iam:PassRole"}
        ]}"#;
    let g = graph(j);
    // Reach the builder role (endpoint principal that holds the combo).
    let r = g.paths("alice", "builder").unwrap();
    assert_eq!(r.paths.len(), 1);
    let findings = detect(&g, &r.paths[0]);
    assert!(findings
        .iter()
        .any(|f| f.technique.contains("RCE") && f.principal == "role:builder"));
}

#[test]
fn plain_reachability_has_no_technique() {
    let j = r#"{
        "nodes":[{"id":"alice","kind":"user"},{"id":"devs","kind":"group"},{"id":"b","kind":"resource"}],
        "edges":[
            {"from":"alice","to":"devs","kind":"member_of"},
            {"from":"devs","to":"b","kind":"has_permission","action":"s3:GetObject"}
        ]}"#;
    let g = graph(j);
    let r = g.paths("alice", "b").unwrap();
    assert!(detect(&g, &r.paths[0]).is_empty());
}

fn two_hops(edges: &str) -> (Graph, Vec<Finding>) {
    let j = format!(
        r#"{{"nodes":[{{"id":"u","kind":"user"}},{{"id":"r","kind":"role"}},{{"id":"s","kind":"service"}},
                      {{"id":"x","kind":"resource"}}],
            "edges":[{{"from":"u","to":"r","kind":"can_assume","action":"sts:AssumeRole"}},
                     {{"from":"r","to":"s","kind":"trusts"}}{edges}]}}"#
    );
    let g = graph(&j);
    let r = g.paths("u", "s").unwrap();
    let found = detect(&g, &r.paths[0]);
    (g, found)
}

fn shown(v: &[Finding]) -> Vec<String> {
    v.iter().map(|f| format!("{} {} {}", f.severity, f.technique, f.principal)).collect()
}

#[test]
fn full_control_is_reported_alone() {
    let (_, v) = two_hops(
        r#",{"from":"r","to":"x","kind":"has_permission","action":"*"},
           {"from":"r","to":"x","kind":"has_permission","action":"iam:PassRole"}"#,
    );
    assert_eq!(shown(&v), vec!["critical Full administrative access role:r"]);
    assert_eq!(v[0].why, "holds action *");
}

#[test]
fn techniques_are_ranked_by_severity_and_listed_once() {
    let (_, v) = two_hops(
        r#",{"from":"r","to":"x","kind":"has_permission","action":"s3:PutObject"},
           {"from":"r","to":"x","kind":"has_permission","action":"s3:*"},
           {"from":"r","to":"x","kind":"has_permission","action":"iam:PassRole"},
           {"from":"u","to":"x","kind":"has_permission","action":"iam:CreateAccessKey"},
           {"from":"s","to":"x","kind":"has_permission","action":"iam:PutRolePolicy"},
           {"from":"s","to":"x","kind":"has_permission","action":"lambda:UpdateFunctionCode"},
           {"from":"s","to":"x","kind":"has_permission","action":"iam:PassRole"},
           {"from":"x","to":"u","kind":"has_permission","action":"*"}"#,
    );
    assert_eq!(
        shown(&v),
        vec![
            "critical Lambda code injection (RCE) service:s",
            "high Account takeover user:u",
            "high Policy injection service:s",
            "high iam:PassRole privilege escalation role:r",
            "medium Object write (possible code execution) role:r",
        ]
    );
}

#[test]
fn a_glob_grant_holds_a_primitive() {
    assert!(holds(&vec!["iam:*".into()], "iam:PassRole"));
    assert!(holds(&vec!["s3:GetObject".into(), "*".into()], "iam:PassRole"));
    assert!(!holds(&vec!["s3:GetObject".into()], "iam:PassRole"));
    assert!(!holds(&vec![], "iam:PassRole"));
}

#[test]
fn principals_and_grants_of_a_path() {
    let (g, _) = two_hops(r#",{"from":"r","to":"x","kind":"has_permission","action":"s3:PutObject"}"#);
    let r = g.paths("u", "x").unwrap();
    assert_eq!(g.path_principals(&r.paths[0]), vec![0, 1]);
    assert_eq!(g.granted_actions(0), vec!["sts:AssumeRole".to_string()]);
    assert_eq!(g.granted_actions(1), vec!["s3:PutObject".to_string()]);
    assert!(g.granted_actions(3).is_empty());
}

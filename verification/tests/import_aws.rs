use oracle::graph::Graph;
use oracle::import_aws::{
    import, one_or_many_stmt, principal_arns, string_or_vec, AttachedPolicy, AuthDetails, GroupDetail, InlinePolicy,
    ManagedPolicy, OneOrMany, PolicyDocument, PolicyVersion, RoleDetail, Statement, UserDetail,
};
use oracle::model::GraphDoc;
use serde_json::Value;

fn text(v: &Value, key: &str) -> String {
    v.get(key).and_then(Value::as_str).unwrap_or("").to_string()
}

fn list<'a>(v: &'a Value, key: &str) -> Vec<&'a Value> {
    v.get(key).and_then(Value::as_array).map(|a| a.iter().collect()).unwrap_or_default()
}

fn texts(v: Option<&Value>) -> Vec<String> {
    string_or_vec(match v {
        Some(Value::String(s)) => Some(OneOrMany::One(s.clone())),
        Some(Value::Array(a)) => {
            Some(OneOrMany::Many(a.iter().map(|x| x.as_str().unwrap().to_string()).collect()))
        }
        _ => None,
    })
}

fn statement(v: &Value) -> Statement {
    Statement {
        effect: text(v, "Effect"),
        action: texts(v.get("Action")),
        not_action: texts(v.get("NotAction")),
        resource: texts(v.get("Resource")),
        not_resource: texts(v.get("NotResource")),
        condition: v.get("Condition").and_then(Value::as_object).cloned(),
        principal: v.get("Principal").cloned(),
    }
}

fn policy(v: &Value) -> PolicyDocument {
    PolicyDocument {
        statements: one_or_many_stmt(match v.get("Statement") {
            Some(Value::Array(a)) => Some(OneOrMany::Many(a.iter().map(statement).collect())),
            Some(s) => Some(OneOrMany::One(statement(s))),
            None => None,
        }),
    }
}

fn attached(v: &Value) -> Vec<AttachedPolicy> {
    list(v, "AttachedManagedPolicies").into_iter().map(|p| AttachedPolicy { arn: text(p, "PolicyArn") }).collect()
}

fn inline(v: &Value, key: &str) -> Vec<InlinePolicy> {
    list(v, key).into_iter().map(|p| InlinePolicy { document: policy(&p["PolicyDocument"]) }).collect()
}

fn details(json: &str) -> AuthDetails {
    let v: Value = serde_json::from_str(json).unwrap();
    AuthDetails {
        users: list(&v, "UserDetailList")
            .into_iter()
            .map(|u| UserDetail {
                name: text(u, "UserName"),
                arn: text(u, "Arn"),
                groups: texts(u.get("GroupList")),
                attached: attached(u),
                inline: inline(u, "UserPolicyList"),
            })
            .collect(),
        groups: list(&v, "GroupDetailList")
            .into_iter()
            .map(|g| GroupDetail {
                name: text(g, "GroupName"),
                arn: text(g, "Arn"),
                attached: attached(g),
                inline: inline(g, "GroupPolicyList"),
            })
            .collect(),
        roles: list(&v, "RoleDetailList")
            .into_iter()
            .map(|r| RoleDetail {
                name: text(r, "RoleName"),
                arn: text(r, "Arn"),
                trust: r.get("AssumeRolePolicyDocument").map(policy),
                attached: attached(r),
                inline: inline(r, "RolePolicyList"),
            })
            .collect(),
        policies: list(&v, "Policies")
            .into_iter()
            .map(|p| ManagedPolicy {
                arn: text(p, "Arn"),
                default_version: text(p, "DefaultVersionId"),
                versions: list(p, "PolicyVersionList")
                    .into_iter()
                    .map(|x| PolicyVersion { document: policy(&x["Document"]), version_id: text(x, "VersionId") })
                    .collect(),
            })
            .collect(),
    }
}

fn imported(json: &str) -> GraphDoc {
    import(&details(json))
}

fn graph(doc: GraphDoc) -> Graph {
    Graph::from_doc(doc).unwrap_or_else(|e| panic!("{}", e.message()))
}

fn nodes(doc: &GraphDoc) -> Vec<String> {
    doc.nodes.iter().map(|n| format!("{}:{}", n.kind, n.id)).collect()
}

fn edges(doc: &GraphDoc) -> Vec<String> {
    doc.edges
        .iter()
        .map(|e| format!("{} {} {} {}", e.from, e.kind, e.action.as_deref().unwrap_or("-"), e.to))
        .collect()
}

const SAMPLE: &str = r#"{
    "UserDetailList": [
        { "UserName": "alice", "Arn": "arn:aws:iam::111122223333:user/alice", "GroupList": ["developers"],
          "AttachedManagedPolicies": [], "UserPolicyList": [] }
    ],
    "GroupDetailList": [
        { "GroupName": "developers", "Arn": "arn:aws:iam::111122223333:group/developers",
          "AttachedManagedPolicies": [
              { "PolicyName": "read", "PolicyArn": "arn:aws:iam::111122223333:policy/read" } ],
          "GroupPolicyList": [] }
    ],
    "RoleDetailList": [
        { "RoleName": "deployer", "Arn": "arn:aws:iam::111122223333:role/deployer",
          "AssumeRolePolicyDocument": { "Version": "2012-10-17", "Statement": [
              { "Effect": "Allow", "Principal": { "AWS": "arn:aws:iam::111122223333:user/alice" },
                "Action": "sts:AssumeRole",
                "Condition": { "Bool": { "aws:MultiFactorAuthPresent": "true" } } } ] },
          "AttachedManagedPolicies": [],
          "RolePolicyList": [ { "PolicyName": "write", "PolicyDocument": { "Version": "2012-10-17",
              "Statement": { "Effect": "Allow", "Action": ["s3:PutObject", "s3:DeleteObject"],
                             "Resource": "arn:aws:s3:::artifacts/*",
                             "Condition": { "IpAddress": { "aws:SourceIp": "10.0.0.0/8" } } } } } ] }
    ],
    "Policies": [
        { "Arn": "arn:aws:iam::111122223333:policy/read", "DefaultVersionId": "v2",
          "PolicyVersionList": [
              { "VersionId": "v1", "Document": { "Statement": [
                  { "Effect": "Allow", "Action": "s3:*", "Resource": "*" } ] } },
              { "VersionId": "v2", "Document": { "Statement": [
                  { "Effect": "Allow", "Action": "s3:GetObject", "Resource": "arn:aws:s3:::artifacts/*" } ] } } ] }
    ]
}"#;

#[test]
fn imports_and_is_queryable() {
    let doc = imported(SAMPLE);
    let g = graph(doc);

    // Two real routes to s3: via the group's permissions (member_of), and via
    // assuming the deployer role (can_assume, from its trust policy).
    let r = g.paths_to_action("alice", "s3:*").unwrap();
    assert!(!r.paths.is_empty());
    let rendered: Vec<String> = r.paths.iter().map(|p| g.render_path(p)).collect();
    assert!(rendered.iter().all(|s| s.starts_with("user:alice")));
    assert!(rendered.iter().any(|s| s.contains("member_of")));
    assert!(rendered.iter().any(|s| s.contains("can_assume")));
    assert!(rendered.iter().any(|s| s.contains("s3:")));
}

#[test]
fn captures_conditions_and_resources() {
    let doc = imported(SAMPLE);
    let has_conditional = doc
        .edges
        .iter()
        .any(|e| e.conditions.is_some() && e.resource.is_some());
    assert!(has_conditional);
}

// A real dump where eve holds iam:PassRole on a role in this account. The
// grant must connect to the role's identity node, not a dead-end ARN resource,
// so escalation can traverse the final hop.
const PASSROLE: &str = r#"{
    "UserDetailList": [
        { "UserName": "eve", "UserId": "AIDAEVE", "Arn": "arn:aws:iam::123456789012:user/eve",
          "GroupList": [], "AttachedManagedPolicies": [],
          "UserPolicyList": [{ "PolicyName": "p", "PolicyDocument": {
            "Version": "2012-10-17",
            "Statement": [{ "Effect": "Allow", "Action": "iam:PassRole",
                            "Resource": "arn:aws:iam::123456789012:role/priv-role" }] } }] }
    ],
    "GroupDetailList": [],
    "RoleDetailList": [
        { "RoleName": "priv-role", "RoleId": "AROAPRIV",
          "Arn": "arn:aws:iam::123456789012:role/priv-role",
          "AssumeRolePolicyDocument": { "Version": "2012-10-17", "Statement": [] },
          "AttachedManagedPolicies": [], "RolePolicyList": [] }
    ],
    "Policies": []
}"#;

#[test]
fn passrole_links_to_role_identity() {
    let doc = imported(PASSROLE);
    // The edge targets the role identity node id, not the raw ARN.
    assert!(doc.edges.iter().any(|e| {
        e.from == "eve" && e.to == "priv-role" && e.action.as_deref() == Some("iam:PassRole")
    }));
    // And escalation surfaces the role identity.
    let g = graph(doc);
    let esc: Vec<String> = g
        .escalation_from("eve")
        .unwrap()
        .into_iter()
        .map(|n| g.node_label(n))
        .collect();
    assert!(esc.iter().any(|s| s == "role:priv-role"));
}

#[test]
fn the_whole_sample_is_imported() {
    let doc = imported(SAMPLE);
    assert_eq!(
        nodes(&doc),
        vec!["user:alice", "group:developers", "role:deployer", "resource:arn:aws:s3:::artifacts/*"]
    );
    assert_eq!(
        edges(&doc),
        vec![
            "alice member_of - developers",
            "developers has_permission s3:GetObject arn:aws:s3:::artifacts/*",
            "deployer has_permission s3:PutObject arn:aws:s3:::artifacts/*",
            "deployer has_permission s3:DeleteObject arn:aws:s3:::artifacts/*",
            "alice can_assume sts:AssumeRole deployer",
        ]
    );
    assert_eq!(doc.edges[2].resource.as_deref(), Some("arn:aws:s3:::artifacts/*"));
    assert!(doc.edges[2].conditions.as_ref().unwrap().contains_key("IpAddress"));
    assert_eq!(
        doc.edges[4].conditions.as_ref().unwrap()["Bool"]["aws:MultiFactorAuthPresent"],
        Value::from("true")
    );
    assert!(doc.edges[4].resource.is_none());
    assert!(doc.edges[1].conditions.is_none());
}

fn user_with(statements: &str) -> GraphDoc {
    imported(&format!(
        r#"{{"UserDetailList":[{{"UserName":"u","Arn":"arn:u","UserPolicyList":[
            {{"PolicyDocument":{{"Statement":{statements}}}}}]}}]}}"#
    ))
}

#[test]
fn only_allow_statements_make_edges() {
    assert!(user_with(r#"{"Effect":"Deny","Action":"s3:*","Resource":"*"}"#).edges.is_empty());
    assert!(user_with(r#"{"Effect":"Allow","NotAction":"s3:*","Resource":"*"}"#).edges.is_empty());
    assert!(user_with(r#"{"Effect":"Allow","Action":"s3:*","NotResource":"arn:x"}"#).edges.is_empty());
    assert!(user_with(r#"{"Action":"s3:*","Resource":"*"}"#).edges.is_empty());
    let doc = user_with(r#"{"Effect":"ALLOW","Action":"s3:*"}"#);
    assert_eq!(edges(&doc), vec!["u has_permission s3:* *"]);
    assert_eq!(nodes(&doc), vec!["user:u", "resource:*"]);
    assert!(user_with(r#"{"Effect":"Allow","Resource":"arn:x"}"#).nodes.len() == 1);
}

#[test]
fn every_action_meets_every_resource_and_resources_are_sorted() {
    let doc = user_with(r#"[{"Effect":"Allow","Action":["b","a"],"Resource":["z","y"]},
                            {"Effect":"Allow","Action":"c","Resource":"x"}]"#);
    assert_eq!(
        edges(&doc),
        vec![
            "u has_permission b z",
            "u has_permission b y",
            "u has_permission a z",
            "u has_permission a y",
            "u has_permission c x",
        ]
    );
    assert_eq!(nodes(&doc), vec!["user:u", "resource:x", "resource:y", "resource:z"]);
}

#[test]
fn names_that_collide_fall_back_to_the_arn() {
    let doc = imported(
        r#"{"UserDetailList":[{"UserName":"ops","Arn":"arn:user/ops","GroupList":["ops","nobody"]}],
            "GroupDetailList":[{"GroupName":"ops","Arn":"arn:group/ops"}],
            "RoleDetailList":[{"RoleName":"ops","Arn":"arn:role/ops"}]}"#,
    );
    assert_eq!(nodes(&doc), vec!["user:ops", "group:arn:group/ops", "role:arn:role/ops"]);
    assert_eq!(edges(&doc), vec!["ops member_of - arn:group/ops"]);
    graph(doc);
}

#[test]
fn outside_principals_get_a_node() {
    let doc = imported(
        r#"{"RoleDetailList":[
            {"RoleName":"r","Arn":"arn:role/r","AssumeRolePolicyDocument":{"Statement":[
                {"Effect":"Allow","Action":["sts:TagSession","STS:ASSUMEROLE"],
                 "Principal":{"AWS":["arn:other","arn:role/s",7,"arn:other"],"Service":"ec2.amazonaws.com"}},
                {"Effect":"Deny","Action":"sts:AssumeRole","Principal":{"AWS":"arn:denied"}},
                {"Effect":"Allow","Action":"sts:AssumeRoleWithSAML","Principal":{"AWS":"arn:saml"}},
                {"Effect":"Allow","Action":"sts:AssumeRole","Principal":"*"}]}},
            {"RoleName":"s","Arn":"arn:role/s"}]}"#,
    );
    assert_eq!(nodes(&doc), vec!["role:r", "role:s", "external:arn:other"]);
    assert_eq!(
        edges(&doc),
        vec![
            "arn:other can_assume sts:AssumeRole r",
            "s can_assume sts:AssumeRole r",
            "arn:other can_assume sts:AssumeRole r",
        ]
    );
    graph(doc);
}

#[test]
fn the_version_in_force_is_the_default_or_the_first() {
    let with = |default: &str| {
        imported(&format!(
            r#"{{"UserDetailList":[{{"UserName":"u","Arn":"arn:u","AttachedManagedPolicies":[
                    {{"PolicyArn":"arn:p"}},{{"PolicyArn":"arn:unknown"}},{{"PolicyArn":"arn:none"}}]}}],
                "Policies":[{{"Arn":"arn:p","DefaultVersionId":"{default}","PolicyVersionList":[
                    {{"VersionId":"v1","Document":{{"Statement":{{"Effect":"Allow","Action":"one"}}}}}},
                    {{"VersionId":"v2","Document":{{"Statement":{{"Effect":"Allow","Action":"two"}}}}}}]}},
                    {{"Arn":"arn:none","PolicyVersionList":[]}}]}}"#
        ))
    };
    assert_eq!(edges(&with("v2")), vec!["u has_permission two *"]);
    assert_eq!(edges(&with("v9")), vec!["u has_permission one *"]);
}

#[test]
fn principals_are_read_from_the_block() {
    let read = |json: &str| principal_arns(&Some(serde_json::from_str(json).unwrap()));
    assert_eq!(read(r#"{"AWS":"a"}"#), vec!["a"]);
    assert_eq!(read(r#"{"AWS":["a",null,"b",["c"]]}"#), vec!["a", "b"]);
    assert!(read(r#"{"AWS":{"x":"a"}}"#).is_empty());
    assert!(read(r#"{"Service":"a"}"#).is_empty());
    assert!(read(r#""*""#).is_empty());
    assert!(principal_arns(&None).is_empty());
}

#[test]
fn one_is_a_list_of_one() {
    assert_eq!(string_or_vec(Some(OneOrMany::One("a".into()))), vec!["a".to_string()]);
    assert_eq!(
        string_or_vec(Some(OneOrMany::Many(vec!["a".into(), "b".into()]))),
        vec!["a".to_string(), "b".to_string()]
    );
    assert!(string_or_vec(None).is_empty());
    assert!(one_or_many_stmt(None).is_empty());
}

#[test]
fn an_empty_account_is_an_empty_document() {
    let doc = imported("{}");
    assert!(doc.nodes.is_empty() && doc.edges.is_empty());
    assert_eq!(graph(doc).node_count(), 0);
}

#[test]
fn a_resource_that_is_a_trusted_principal_is_a_resource() {
    let doc = imported(
        r#"{"RoleDetailList":[{"RoleName":"r","Arn":"arn:r",
            "AssumeRolePolicyDocument":{"Statement":{"Effect":"Allow","Action":"sts:AssumeRole",
                "Principal":{"AWS":["*","arn:out"]}}},
            "RolePolicyList":[{"PolicyDocument":{"Statement":
                {"Effect":"Allow","Action":"s3:GetObject","Resource":"*"}}}]}]}"#,
    );
    assert_eq!(nodes(&doc), vec!["role:r", "resource:*", "external:arn:out"]);
    assert_eq!(
        edges(&doc),
        vec![
            "r has_permission s3:GetObject *",
            "* can_assume sts:AssumeRole r",
            "arn:out can_assume sts:AssumeRole r",
        ]
    );
    let v = graph(doc).run_oql(r#"PATHS FROM role("r") TO resource("*")"#).unwrap_or_else(|e| panic!("{}", e.message()));
    assert_eq!(v["count"], Value::from(1));
}

#[test]
fn a_resource_of_a_later_role_is_a_resource_too() {
    let doc = imported(
        r#"{"RoleDetailList":[
            {"RoleName":"a","Arn":"arn:a","AssumeRolePolicyDocument":{"Statement":
                {"Effect":"Allow","Action":"sts:AssumeRole","Principal":{"AWS":"arn:x"}}}},
            {"RoleName":"b","Arn":"arn:b","RolePolicyList":[{"PolicyDocument":{"Statement":
                {"Effect":"Allow","Action":"s3:GetObject","Resource":"arn:x"}}}]}]}"#,
    );
    assert_eq!(nodes(&doc), vec!["role:a", "role:b", "resource:arn:x"]);
}

#[test]
fn one_more_refusal_changes_nothing() {
    let allow = r#"{"Effect":"Allow","Action":["a","b"],"Resource":["x","y"]}"#;
    let plain = user_with(&format!("[{allow}]"));
    for more in [
        r#"{"Effect":"Deny","Action":"*","Resource":"z"}"#,
        r#"{"Effect":"Allow","NotAction":"c","Resource":"z"}"#,
        r#"{"Effect":"Allow","Action":"c","NotResource":"z"}"#,
    ] {
        for list in [format!("[{allow},{more}]"), format!("[{more},{allow}]")] {
            let doc = user_with(&list);
            assert_eq!(nodes(&doc), nodes(&plain));
            assert_eq!(edges(&doc), edges(&plain));
        }
    }
}

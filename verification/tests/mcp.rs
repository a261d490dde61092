use oracle::graph::Graph;
use oracle::mcp::{answer, call_tool, envelope_of, handle, pretty, respond, text_result, tool_list, Reply};
use oracle::model::{Edge, GraphDoc, Node};
use serde_json::Value;

fn text(v: &Value, key: &str) -> Option<String> {
    v.get(key).and_then(Value::as_str).map(str::to_string)
}

fn members(v: &Value, key: &str) -> Option<serde_json::Map<String, Value>> {
    v.get(key).and_then(Value::as_object).cloned()
}

fn list<'a>(v: &'a Value, key: &str) -> Vec<&'a Value> {
    v.get(key).and_then(Value::as_array).map(|a| a.iter().collect()).unwrap_or_default()
}

fn doc(json: &str) -> GraphDoc {
    let v: Value = serde_json::from_str(json).unwrap();
    GraphDoc {
        nodes: list(&v, "nodes")
            .into_iter()
            .map(|n| Node {
                id: text(n, "id").unwrap(),
                kind: text(n, "kind").unwrap(),
                attrs: members(n, "attrs").unwrap_or_default(),
            })
            .collect(),
        edges: list(&v, "edges")
            .into_iter()
            .map(|e| Edge {
                from: text(e, "from").unwrap(),
                to: text(e, "to").unwrap(),
                kind: text(e, "kind").unwrap(),
                action: text(e, "action"),
                resource: text(e, "resource"),
                conditions: members(e, "conditions"),
            })
            .collect(),
    }
}

fn graph(json: &str) -> Graph {
    Graph::from_doc(doc(json)).unwrap_or_else(|e| panic!("{}", e.message()))
}

fn parsed(s: &str) -> Value {
    serde_json::from_str(s).unwrap()
}

fn empty() -> Value {
    Value::Object(serde_json::Map::new())
}

const PAIR: &str = r#"{"nodes":[{"id":"a","kind":"user"},{"id":"b","kind":"role"}],
    "edges":[{"from":"a","to":"b","kind":"can_assume","action":"sts:AssumeRole"}]}"#;

#[test]
fn query_tool_returns_result() {
    let g = graph(PAIR);
    let p = parsed(r#"{ "name": "oracle_query", "arguments": { "oql": "ESCALATE FROM user(\"a\")" } }"#);
    match call_tool(&g, &empty(), Some(&p)) {
        Reply::Done(v) => {
            assert_eq!(v["isError"], Value::Bool(false));
            assert!(v["content"][0]["text"].as_str().unwrap().contains("role:b"));
        }
        _ => panic!("expected Ok"),
    }
}

#[test]
fn bad_oql_is_tool_error_not_protocol_error() {
    let g = graph(r#"{"nodes":[],"edges":[]}"#);
    let p = parsed(r#"{ "name": "oracle_query", "arguments": { "oql": "NONSENSE" } }"#);
    match call_tool(&g, &empty(), Some(&p)) {
        Reply::Done(v) => assert_eq!(v["isError"], Value::Bool(true)),
        _ => panic!("expected Ok with isError"),
    }
}

fn called(g: &Graph, doc: &Value, params: &str) -> (bool, String) {
    match call_tool(g, doc, Some(&parsed(params))) {
        Reply::Done(v) => {
            assert_eq!(v["content"][0]["type"], Value::from("text"));
            (v["isError"].as_bool().unwrap(), v["content"][0]["text"].as_str().unwrap().to_string())
        }
        _ => panic!("expected a result"),
    }
}

#[test]
fn tools_report_what_went_wrong() {
    let g = graph(PAIR);
    let d = empty();
    assert_eq!(
        called(&g, &d, r#"{"name":"oracle_query","arguments":{"oql":"NONSENSE"}}"#),
        (true, "unknown query `NONSENSE` (expected PATHS, ESCALATE, or BLAST)".to_string())
    );
    assert_eq!(
        called(&g, &d, r#"{"name":"oracle_query"}"#),
        (true, "expected a keyword or identifier, found None".to_string())
    );
    assert_eq!(
        called(&g, &d, r#"{"name":"oracle_query","arguments":{"oql":"BLAST role(\"zed\")"}}"#),
        (true, "no node with id zed".to_string())
    );
    assert_eq!(
        called(&g, &d, r#"{"name":"oracle_escalate","arguments":{"principal":"zed"}}"#),
        (true, "no node with id zed".to_string())
    );
    assert_eq!(
        called(&g, &d, r#"{"name":"oracle_escalate","arguments":{"principal":7}}"#),
        (true, "no node with id ".to_string())
    );
    assert_eq!(called(&g, &d, r#"{"name":"frobnicate"}"#), (true, "unknown tool: frobnicate".to_string()));
    assert_eq!(called(&g, &d, r#"[1, 2]"#), (true, "unknown tool: ".to_string()));
    match call_tool(&g, &d, None) {
        Reply::Done(v) => assert_eq!(v["content"][0]["text"], Value::from("unknown tool: ")),
        _ => panic!("expected a result"),
    }
}

#[test]
fn escalate_tool_lists_labels() {
    let g = graph(PAIR);
    let (failed, text) = called(&g, &empty(), r#"{"name":"oracle_escalate","arguments":{"principal":"a"}}"#);
    assert!(!failed);
    assert_eq!(parsed(&text), parsed(r#"{"count":1,"targets":["role:b"]}"#));
    assert_eq!(text, "{\n  \"count\": 1,\n  \"targets\": [\n    \"role:b\"\n  ]\n}");
}

#[test]
fn graph_tool_returns_the_document() {
    let g = graph(PAIR);
    let (failed, text) = called(&g, &parsed(PAIR), r#"{"name":"oracle_graph"}"#);
    assert!(!failed);
    assert_eq!(parsed(&text), parsed(PAIR));
}

#[test]
fn methods_are_handled() {
    let g = graph(PAIR);
    let d = empty();
    match handle(&g, &d, "initialize", None) {
        Reply::Done(v) => assert_eq!(
            v,
            parsed(
                r#"{"protocolVersion":"2024-11-05","capabilities":{"tools":{}},
                    "serverInfo":{"name":"oracle","version":"0.1.0"}}"#
            )
        ),
        _ => panic!("expected a result"),
    }
    assert!(matches!(handle(&g, &d, "notifications/initialized", None), Reply::Silent));
    match handle(&g, &d, "ping", None) {
        Reply::Done(v) => assert_eq!(v, empty()),
        _ => panic!("expected a result"),
    }
    match handle(&g, &d, "tools/list", None) {
        Reply::Done(v) => assert_eq!(v["tools"], tool_list()),
        _ => panic!("expected a result"),
    }
    match handle(&g, &d, "nope", None) {
        Reply::Failed(code, message) => {
            assert_eq!(code, -32601);
            assert_eq!(message, "method not found: nope");
        }
        _ => panic!("expected an error"),
    }
}

#[test]
fn three_tools_are_described() {
    let v = tool_list();
    let names: Vec<&str> = v.as_array().unwrap().iter().map(|t| t["name"].as_str().unwrap()).collect();
    assert_eq!(names, vec!["oracle_query", "oracle_escalate", "oracle_graph"]);
    assert_eq!(v[0]["inputSchema"]["required"][0], Value::from("oql"));
    assert_eq!(v[0]["inputSchema"]["properties"]["oql"]["type"], Value::from("string"));
    assert_eq!(v[1]["inputSchema"]["properties"]["principal"]["description"], Value::from("Node id, e.g. \"ci-runner\"."));
    assert_eq!(v[2]["inputSchema"], parsed(r#"{"type":"object","properties":{}}"#));
}

#[test]
fn answers_carry_the_id_of_the_request() {
    let g = graph(PAIR);
    let d = empty();
    assert_eq!(
        answer(&g, &d, &parsed(r#"{"id":7,"method":"ping"}"#)),
        Some(parsed(r#"{"jsonrpc":"2.0","id":7,"result":{}}"#))
    );
    assert_eq!(
        answer(&g, &d, &parsed(r#"{"id":"x","method":"nope"}"#)),
        Some(parsed(
            r#"{"jsonrpc":"2.0","id":"x","error":{"code":-32601,"message":"method not found: nope"}}"#
        ))
    );
    assert_eq!(
        answer(&g, &d, &parsed(r#"{"id":null}"#)),
        Some(parsed(r#"{"jsonrpc":"2.0","id":null,"error":{"code":-32601,"message":"method not found: "}}"#))
    );
    assert_eq!(answer(&g, &d, &parsed(r#"{"method":"ping"}"#)), None);
    assert_eq!(answer(&g, &d, &parsed(r#"{"method":"nope"}"#)), None);
    assert_eq!(answer(&g, &d, &parsed(r#"{"id":1,"method":"notifications/initialized"}"#)), None);
    assert_eq!(answer(&g, &d, &parsed("[]")), None);
}

#[test]
fn lines_are_answered_with_lines() {
    let g = graph(PAIR);
    let d = empty();
    assert_eq!(
        respond(&g, &d, r#" {"id":1,"method":"ping"} "#),
        Some(r#"{"id":1,"jsonrpc":"2.0","result":{}}"#.to_string())
    );
    assert_eq!(respond(&g, &d, ""), None);
    assert_eq!(respond(&g, &d, " \t\u{a0}"), None);
    assert_eq!(respond(&g, &d, "{not json"), None);
    assert_eq!(respond(&g, &d, r#"{"method":"ping"}"#), None);
}

#[test]
fn pretty_indents() {
    assert_eq!(pretty(&parsed(r#"{"a":[1]}"#)), "{\n  \"a\": [\n    1\n  ]\n}");
}

#[test]
fn results_of_tools_are_texts() {
    match text_result("hello", true) {
        Reply::Done(v) => {
            assert_eq!(v, parsed(r#"{"content":[{"type":"text","text":"hello"}],"isError":true}"#))
        }
        _ => panic!("expected a result"),
    }
    assert_eq!(envelope_of(None, Reply::Done(Value::Null)), None);
    assert_eq!(envelope_of(Some(&Value::Null), Reply::Silent), None);
}

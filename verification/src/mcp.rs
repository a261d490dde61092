//! A Model Context Protocol server over a loaded graph: JSON-RPC 2.0, one message per line.
//!
//! Tools:
//!   oracle_query    run any OQL and get the structured result
//!   oracle_escalate escalation targets reachable from a principal
//!   oracle_graph    the loaded identity and network graph
use crate::graph::{place, Graph, GraphView};
use crate::json::{
    array_value, as_text, bool_value, field, field_views, indented, integer_value, json_pretty, json_read, json_text,
    line_of, member, object, parse_json, record, text_of_str, text_value, tree, tree_of, trees, Tree,
};
use crate::lexer::blank;
use crate::message::behind;
use crate::model::{known, text_of};
use crate::run::{answered, oql_asked, run_fault_text, Ask};
use crate::text::{chars_of, same};
use vstd::prelude::*;

verus! {

/// What a request is answered with.
pub enum Reply {
    /// A result.
    Done(serde_json::Value),
    /// A protocol error: its code and its message.
    Failed(i64, String),
    /// Nothing.
    Silent,
}

/// What a reply is.
pub ghost enum ReplyView {
    Done(Tree),
    Failed(int, Seq<char>),
    Silent,
}

impl View for Reply {
    type V = ReplyView;

    open spec fn view(&self) -> ReplyView {
        match self {
            Reply::Done(v) => ReplyView::Done(tree(*v)),
            Reply::Failed(code, message) => ReplyView::Failed(*code as int, message@),
            Reply::Silent => ReplyView::Silent,
        }
    }
}

/// What an optional value holds.
pub open spec fn seen(v: Option<&serde_json::Value>) -> Option<Tree> {
    match v {
        Some(x) => Some(tree(*x)),
        None => None,
    }
}

/// The member of an object, where there is an object that has it.
pub open spec fn part(t: Option<Tree>, key: Seq<char>) -> Option<Tree> {
    match t {
        Some(Tree::Object(m)) => if m.contains_key(key) {
            Some(m[key])
        } else {
            None
        },
        _ => None,
    }
}

/// The text of a member of an object; empty where there is none.
pub open spec fn text_part(t: Option<Tree>, key: Seq<char>) -> Seq<char> {
    match part(t, key) {
        Some(Tree::Text(s)) => s,
        _ => Seq::empty(),
    }
}

/// The text of a JSON value for a reader: indented where it can be, else on one line.
pub open spec fn pretty_text(t: Tree) -> Seq<char> {
    match json_pretty(t) {
        Some(s) => s,
        None => json_text(t),
    }
}

/// The result of a tool: a text, and whether it reports a failure.
pub open spec fn tool_result(text: Seq<char>, is_error: bool) -> ReplyView {
    ReplyView::Done(
        record(
            seq![
                (
                    "content"@,
                    Tree::Array(seq![record(seq![("type"@, Tree::Text("text"@)), ("text"@, Tree::Text(text))])]),
                ),
                ("isError"@, Tree::Bool(is_error)),
            ],
        ),
    )
}

/// The schema of a tool that takes one text.
pub open spec fn text_schema(name: Seq<char>, description: Seq<char>) -> Tree {
    record(
        seq![
            ("type"@, Tree::Text("object"@)),
            (
                "properties"@,
                record(
                    seq![
                        (
                            name,
                            record(
                                seq![
                                    ("type"@, Tree::Text("string"@)),
                                    ("description"@, Tree::Text(description)),
                                ],
                            ),
                        ),
                    ],
                ),
            ),
            ("required"@, Tree::Array(seq![Tree::Text(name)])),
        ],
    )
}

/// The schema of a tool that takes nothing.
pub open spec fn empty_schema() -> Tree {
    record(seq![("type"@, Tree::Text("object"@)), ("properties"@, record(seq![]))])
}

/// The description of a tool.
pub open spec fn tool_tree(name: Seq<char>, description: Seq<char>, schema: Tree) -> Tree {
    record(
        seq![
            ("name"@, Tree::Text(name)),
            ("description"@, Tree::Text(description)),
            ("inputSchema"@, schema),
        ],
    )
}

/// The descriptions of the tools.
pub open spec fn tools_tree() -> Tree {
    Tree::Array(
        seq![
            tool_tree(
                "oracle_query"@,
                "Run an OQL query against the loaded identity/network graph and return the attack paths. OQL forms: PATHS FROM user(\"alice\") TO action(\"*\") | TO resource(\"x\") [VIA kind,...] [WITHIN n HOPS] [ON resource(\"arn\")]; ESCALATE FROM role(\"x\"); BLAST role(\"x\")."@,
                text_schema("oql"@, "The OQL query."@),
            ),
            tool_tree(
                "oracle_escalate"@,
                "Privilege-escalation targets: identities this principal can reach by crossing a role-assumption or escalation-primitive boundary."@,
                text_schema("principal"@, "Node id, e.g. \"ci-runner\"."@),
            ),
            tool_tree(
                "oracle_graph"@,
                "Return the full loaded identity/network graph (nodes and edges) as JSON."@,
                empty_schema(),
            ),
        ],
    )
}

/// What the server says of itself.
pub open spec fn greeting() -> Tree {
    record(
        seq![
            ("protocolVersion"@, Tree::Text("2024-11-05"@)),
            ("capabilities"@, record(seq![("tools"@, record(seq![]))])),
            (
                "serverInfo"@,
                record(seq![("name"@, Tree::Text("oracle"@)), ("version"@, Tree::Text("0.1.0"@))]),
            ),
        ],
    )
}

/// The reply shows a JSON value that answers what is asked.
pub open spec fn shows_answer(g: GraphView, a: Ask, r: ReplyView) -> bool {
    exists|t: Tree| #[trigger] answered(g, a, t) && r == tool_result(pretty_text(t), false)
}

/// The reply is that of the tool that the parameters name.
pub open spec fn tool_replies(g: GraphView, doc: Tree, params: Option<Tree>, r: ReplyView) -> bool {
    let name = text_part(params, "name"@);
    let args = part(params, "arguments"@);
    if name == "oracle_query"@ {
        match oql_asked(g, text_part(args, "oql"@)) {
            Ok(a) => shows_answer(g, a, r),
            Err(f) => r == tool_result(run_fault_text(f), true),
        }
    } else if name == "oracle_escalate"@ {
        let id = text_part(args, "principal"@);
        if known(g.nodes, id) {
            shows_answer(g, Ask::Escalate(place(g, id)), r)
        } else {
            r == tool_result("no node with id "@ + id, true)
        }
    } else if name == "oracle_graph"@ {
        r == tool_result(pretty_text(doc), false)
    } else {
        r == tool_result("unknown tool: "@ + name, true)
    }
}

/// The reply is that to a request for the method.
pub open spec fn method_replies(g: GraphView, doc: Tree, method: Seq<char>, params: Option<Tree>, r: ReplyView) -> bool {
    if method == "initialize"@ {
        r == ReplyView::Done(greeting())
    } else if method == "notifications/initialized"@ {
        r == ReplyView::Silent
    } else if method == "ping"@ {
        r == ReplyView::Done(record(seq![]))
    } else if method == "tools/list"@ {
        r == ReplyView::Done(record(seq![("tools"@, tools_tree())]))
    } else if method == "tools/call"@ {
        tool_replies(g, doc, params, r)
    } else {
        r == ReplyView::Failed(-32601, "method not found: "@ + method)
    }
}

/// The message that carries a reply to the request with an id. A request without one gets none,
/// and so does a reply that is silent.
pub open spec fn envelope(id: Option<Tree>, r: ReplyView) -> Option<Tree> {
    match (id, r) {
        (Some(i), ReplyView::Done(t)) => Some(
            record(seq![("jsonrpc"@, Tree::Text("2.0"@)), ("id"@, i), ("result"@, t)]),
        ),
        (Some(i), ReplyView::Failed(code, message)) => Some(
            record(
                seq![
                    ("jsonrpc"@, Tree::Text("2.0"@)),
                    ("id"@, i),
                    (
                        "error"@,
                        record(seq![("code"@, Tree::Integer(code)), ("message"@, Tree::Text(message))]),
                    ),
                ],
            ),
        ),
        _ => None,
    }
}

/// The message, where there is one, answers the request.
pub open spec fn request_replies(g: GraphView, doc: Tree, req: Tree, out: Option<Tree>) -> bool {
    exists|r: ReplyView| #[trigger]
        method_replies(g, doc, text_part(Some(req), "method"@), part(Some(req), "params"@), r) && out == envelope(
            part(Some(req), "id"@),
            r,
        )
}

/// The text is white space alone.
pub open spec fn is_blank(s: Seq<char>) -> bool {
    forall|i: int| 0 <= i < s.len() ==> blank(#[trigger] s[i])
}

/// The line, where there is one, answers a line of input. White space and what is not JSON are
/// passed over.
pub open spec fn line_replies(g: GraphView, doc: Tree, line: Seq<char>, out: Option<Seq<char>>) -> bool {
    if is_blank(line) || json_read(line) is None {
        out is None
    } else {
        exists|t: Option<Tree>| #[trigger]
            request_replies(g, doc, json_read(line)->0, t) && out == match t {
                Some(x) => Some(json_text(x)),
                None => None,
            }
    }
}

/// The text of a JSON value for a reader.
pub fn pretty(v: &serde_json::Value) -> (r: String)
    ensures
        r@ == pretty_text(tree(*v)),
{
    match indented(v) {
        Some(s) => s,
        None => line_of(v),
    }
}

/// The result of a tool: a text, and whether it reports a failure.
pub fn text_result(text: &str, is_error: bool) -> (r: Reply)
    ensures
        r@ == tool_result(text@, is_error),
{
    let inner = vec![field("type", text_of_str("text")), field("text", text_of_str(text))];
    assert(field_views(inner@) =~= seq![("type"@, Tree::Text("text"@)), ("text"@, Tree::Text(text@))]);
    let items = vec![object(inner)];
    assert(trees(items@) =~= seq![record(seq![("type"@, Tree::Text("text"@)), ("text"@, Tree::Text(text@))])]);
    let fields = vec![field("content", array_value(items)), field("isError", bool_value(is_error))];
    assert(field_views(fields@) =~= seq![
        (
            "content"@,
            Tree::Array(seq![record(seq![("type"@, Tree::Text("text"@)), ("text"@, Tree::Text(text@))])]),
        ),
        ("isError"@, Tree::Bool(is_error)),
    ]);
    Reply::Done(object(fields))
}

/// An object without members.
fn empty_object() -> (r: serde_json::Value)
    ensures
        tree(r) == record(seq![]),
{
    let fields: Vec<(String, serde_json::Value)> = Vec::new();
    assert(field_views(fields@) =~= seq![]);
    object(fields)
}

fn text_schema_value(name: &str, description: &str) -> (r: serde_json::Value)
    ensures
        tree(r) == text_schema(name@, description@),
{
    let about = vec![field("type", text_of_str("string")), field("description", text_of_str(description))];
    assert(field_views(about@) =~= seq![
        ("type"@, Tree::Text("string"@)),
        ("description"@, Tree::Text(description@)),
    ]);
    let ghost one = record(seq![("type"@, Tree::Text("string"@)), ("description"@, Tree::Text(description@))]);
    let properties = vec![field(name, object(about))];
    assert(field_views(properties@) =~= seq![(name@, one)]);
    let required = vec![text_of_str(name)];
    assert(trees(required@) =~= seq![Tree::Text(name@)]);
    let fields = vec![
        field("type", text_of_str("object")),
        field("properties", object(properties)),
        field("required", array_value(required)),
    ];
    assert(field_views(fields@) =~= seq![
        ("type"@, Tree::Text("object"@)),
        ("properties"@, record(seq![(name@, one)])),
        ("required"@, Tree::Array(seq![Tree::Text(name@)])),
    ]);
    object(fields)
}

fn empty_schema_value() -> (r: serde_json::Value)
    ensures
        tree(r) == empty_schema(),
{
    let fields = vec![field("type", text_of_str("object")), field("properties", empty_object())];
    assert(field_views(fields@) =~= seq![("type"@, Tree::Text("object"@)), ("properties"@, record(seq![]))]);
    object(fields)
}

fn tool_value(name: &str, description: &str, schema: serde_json::Value) -> (r: serde_json::Value)
    ensures
        tree(r) == tool_tree(name@, description@, tree(schema)),
{
    let fields = vec![
        field("name", text_of_str(name)),
        field("description", text_of_str(description)),
        field("inputSchema", schema),
    ];
    assert(field_views(fields@) =~= seq![
        ("name"@, Tree::Text(name@)),
        ("description"@, Tree::Text(description@)),
        ("inputSchema"@, tree(schema)),
    ]);
    object(fields)
}

/// The descriptions of the tools.
pub fn tool_list() -> (r: serde_json::Value)
    ensures
        tree(r) == tools_tree(),
{
    let items = vec![
        tool_value(
            "oracle_query",
            "Run an OQL query against the loaded identity/network graph and return the attack paths. OQL forms: PATHS FROM user(\"alice\") TO action(\"*\") | TO resource(\"x\") [VIA kind,...] [WITHIN n HOPS] [ON resource(\"arn\")]; ESCALATE FROM role(\"x\"); BLAST role(\"x\").",
            text_schema_value("oql", "The OQL query."),
        ),
        tool_value(
            "oracle_escalate",
            "Privilege-escalation targets: identities this principal can reach by crossing a role-assumption or escalation-primitive boundary.",
            text_schema_value("principal", "Node id, e.g. \"ci-runner\"."),
        ),
        tool_value(
            "oracle_graph",
            "Return the full loaded identity/network graph (nodes and edges) as JSON.",
            empty_schema_value(),
        ),
    ];
    let r = array_value(items);
    assert(trees(items@) =~= tools_tree()->Array_0);
    r
}

/// What the server says of itself.
fn greeting_value() -> (r: serde_json::Value)
    ensures
        tree(r) == greeting(),
{
    let tools = vec![field("tools", empty_object())];
    assert(field_views(tools@) =~= seq![("tools"@, record(seq![]))]);
    let info = vec![field("name", text_of_str("oracle")), field("version", text_of_str("0.1.0"))];
    assert(field_views(info@) =~= seq![("name"@, Tree::Text("oracle"@)), ("version"@, Tree::Text("0.1.0"@))]);
    let fields = vec![
        field("protocolVersion", text_of_str("2024-11-05")),
        field("capabilities", object(tools)),
        field("serverInfo", object(info)),
    ];
    assert(field_views(fields@) =~= seq![
        ("protocolVersion"@, Tree::Text("2024-11-05"@)),
        ("capabilities"@, record(seq![("tools"@, record(seq![]))])),
        (
            "serverInfo"@,
            record(seq![("name"@, Tree::Text("oracle"@)), ("version"@, Tree::Text("0.1.0"@))]),
        ),
    ]);
    object(fields)
}

/// The member of an object, where there is an object that has it.
fn part_of<'a>(v: Option<&'a serde_json::Value>, key: &str) -> (r: Option<&'a serde_json::Value>)
    ensures
        seen(r) == part(seen(v), key@),
{
    match v {
        Some(x) => member(x, key),
        None => None,
    }
}

/// The text of a member of an object; empty where there is none.
fn text_part_of(v: Option<&serde_json::Value>, key: &str) -> (r: String)
    ensures
        r@ == text_part(seen(v), key@),
{
    if let Some(x) = part_of(v, key) {
        if let Some(s) = as_text(x) {
            return s.to_owned();
        }
    }
    let none = String::new();
    assert(none@ =~= Seq::empty());
    none
}

/// Calls the tool that the parameters name. A failure of the tool is a result that says so, not a
/// protocol error.
pub fn call_tool(graph: &Graph, graph_json: &serde_json::Value, params: Option<&serde_json::Value>) -> (r: Reply)
    ensures
        tool_replies(graph@, tree(*graph_json), seen(params), r@),
{
    let name = text_part_of(params, "name");
    let args = part_of(params, "arguments");
    if same(name.as_str(), "oracle_query") {
        let oql = text_part_of(args, "oql");
        match graph.run_oql(oql.as_str()) {
            Ok(v) => {
                assert(answered(graph@, oql_asked(graph@, oql@)->Ok_0, tree(v)));
                text_result(pretty(&v).as_str(), false)
            },
            Err(e) => text_result(e.message().as_str(), true),
        }
    } else if same(name.as_str(), "oracle_escalate") {
        let id = text_part_of(args, "principal");
        match graph.run_escalate(id.as_str()) {
            Ok(v) => {
                assert(answered(graph@, Ask::Escalate(place(graph@, id@)), tree(v)));
                text_result(pretty(&v).as_str(), false)
            },
            Err(e) => text_result(e.message().as_str(), true),
        }
    } else if same(name.as_str(), "oracle_graph") {
        text_result(pretty(graph_json).as_str(), false)
    } else {
        text_result(behind("unknown tool: ", name.as_str()).as_str(), true)
    }
}

/// The reply to a request for a method.
pub fn handle(
    graph: &Graph,
    graph_json: &serde_json::Value,
    method: &str,
    params: Option<&serde_json::Value>,
) -> (r: Reply)
    ensures
        method_replies(graph@, tree(*graph_json), method@, seen(params), r@),
{
    if same(method, "initialize") {
        Reply::Done(greeting_value())
    } else if same(method, "notifications/initialized") {
        Reply::Silent
    } else if same(method, "ping") {
        Reply::Done(empty_object())
    } else if same(method, "tools/list") {
        let fields = vec![field("tools", tool_list())];
        assert(field_views(fields@) =~= seq![("tools"@, tools_tree())]);
        Reply::Done(object(fields))
    } else if same(method, "tools/call") {
        call_tool(graph, graph_json, params)
    } else {
        Reply::Failed(-32601, behind("method not found: ", method))
    }
}

/// The message that carries a reply to the request with an id.
pub fn envelope_of(id: Option<&serde_json::Value>, reply: Reply) -> (r: Option<serde_json::Value>)
    ensures
        tree_of(r) == envelope(seen(id), reply@),
{
    match (id, reply) {
        (Some(i), Reply::Done(v)) => {
            let fields = vec![
                field("jsonrpc", text_of_str("2.0")),
                field("id", i.clone()),
                field("result", v),
            ];
            assert(field_views(fields@) =~= seq![
                ("jsonrpc"@, Tree::Text("2.0"@)),
                ("id"@, tree(*i)),
                ("result"@, tree(v)),
            ]);
            Some(object(fields))
        },
        (Some(i), Reply::Failed(code, message)) => {
            let ghost error = record(seq![("code"@, Tree::Integer(code as int)), ("message"@, Tree::Text(message@))]);
            let inner = vec![field("code", integer_value(code)), field("message", text_value(message))];
            assert(field_views(inner@) =~= seq![
                ("code"@, Tree::Integer(code as int)),
                ("message"@, Tree::Text(message@)),
            ]);
            let fields = vec![
                field("jsonrpc", text_of_str("2.0")),
                field("id", i.clone()),
                field("error", object(inner)),
            ];
            assert(field_views(fields@) =~= seq![
                ("jsonrpc"@, Tree::Text("2.0"@)),
                ("id"@, tree(*i)),
                ("error"@, error),
            ]);
            Some(object(fields))
        },
        _ => None,
    }
}

/// The message that answers a request, where there is one.
pub fn answer(graph: &Graph, graph_json: &serde_json::Value, req: &serde_json::Value) -> (r: Option<serde_json::Value>)
    ensures
        request_replies(graph@, tree(*graph_json), tree(*req), tree_of(r)),
{
    let method = text_part_of(Some(req), "method");
    let reply = handle(graph, graph_json, method.as_str(), part_of(Some(req), "params"));
    let ghost view = reply@;
    assert(method_replies(
        graph@,
        tree(*graph_json),
        text_part(Some(tree(*req)), "method"@),
        part(Some(tree(*req)), "params"@),
        view,
    ));
    envelope_of(part_of(Some(req), "id"), reply)
}

/// Whether a text is white space alone.
fn only_blanks(s: &str) -> (r: bool)
    ensures
        r == is_blank(s@),
{
    let chars = chars_of(s);
    for i in 0..chars.len()
        invariant
            chars@ == s@,
            forall|j: int| 0 <= j < i ==> blank(#[trigger] s@[j]),
    {
        if !chars[i].is_whitespace() {
            assert(!blank(s@[i as int]));
            return false;
        }
    }
    true
}

/// The line that answers a line of input, where there is one.
pub fn respond(graph: &Graph, graph_json: &serde_json::Value, line: &str) -> (r: Option<String>)
    ensures
        line_replies(graph@, tree(*graph_json), line@, text_of(r)),
{
    if only_blanks(line) {
        return None;
    }
    match parse_json(line) {
        None => None,
        Some(req) => {
            let out = answer(graph, graph_json, &req);
            assert(request_replies(graph@, tree(*graph_json), json_read(line@)->0, tree_of(out)));
            match out {
                Some(v) => Some(line_of(&v)),
                None => None,
            }
        },
    }
}

} // verus!

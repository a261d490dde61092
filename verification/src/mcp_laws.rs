//! Laws of the Model Context Protocol server.
use crate::graph::{place, GraphView};
use crate::graph_laws::{ids_are_found_where_they_are, known_ids_have_nodes};
use crate::json::{entries, json_pretty, json_read, json_text, record, Tree};
use crate::json_laws::fields_are_read_back;
use crate::lexer::blank;
use crate::mcp::{
    empty_schema, envelope, line_replies, method_replies, part, pretty_text, request_replies, shows_answer,
    text_part, text_schema, tool_replies, tool_result, tool_tree, tools_tree, ReplyView,
};
use crate::model::known;
use crate::query::parsed;
use crate::reach::{in_escalation, lists};
use crate::run::{answered, asked, oql_asked, run_fault_text, targets_tree, Ask, RunFault};
use crate::run_laws::queries_have_one_answer;
use crate::server::http_replies;
use vstd::prelude::*;

verus! {

/// A request without an id is a notification and gets no answer.
pub proof fn notifications_get_no_answer(g: GraphView, doc: Tree, req: Tree, out: Option<Tree>)
    requires
        request_replies(g, doc, req, out),
        part(Some(req), "id"@) is None,
    ensures
        out is None,
{
}

/// The names of the members of a message differ.
proof fn lemma_names()
    ensures
        "jsonrpc"@ != "id"@,
        "jsonrpc"@ != "result"@,
        "jsonrpc"@ != "error"@,
        "id"@ != "result"@,
        "id"@ != "error"@,
        "code"@ != "message"@,
        "content"@ != "isError"@,
{
    reveal_strlit("jsonrpc");
    reveal_strlit("id");
    reveal_strlit("result");
    reveal_strlit("error");
    reveal_strlit("code");
    reveal_strlit("message");
    reveal_strlit("content");
    reveal_strlit("isError");
    assert("jsonrpc"@.len() == 7);
    assert("id"@.len() == 2);
    assert("result"@.len() == 6);
    assert("error"@.len() == 5);
    assert("code"@.len() == 4);
    assert("message"@.len() == 7);
    assert("content"@[0] == 'c');
    assert("isError"@[0] == 'i');
}

/// The members of an object of three fields.
proof fn lemma_three(a: (Seq<char>, Tree), b: (Seq<char>, Tree), c: (Seq<char>, Tree))
    ensures
        entries(seq![a, b, c]) == Map::<Seq<char>, Tree>::empty().insert(a.0, a.1).insert(b.0, b.1).insert(c.0, c.1),
{
    lemma_two(a, b);
    assert(seq![a, b, c].drop_last() =~= seq![a, b]);
}

/// The members of an object of two fields.
proof fn lemma_two(a: (Seq<char>, Tree), b: (Seq<char>, Tree))
    ensures
        entries(seq![a, b]) == Map::<Seq<char>, Tree>::empty().insert(a.0, a.1).insert(b.0, b.1),
{
    assert(seq![a, b].drop_last() =~= seq![a]);
    assert(seq![a].drop_last() =~= Seq::empty());
    assert(entries(seq![a]) == entries(seq![a].drop_last()).insert(a.0, a.1));
}

/// An answer is a JSON-RPC 2.0 message with the id of the request.
pub proof fn answers_carry_the_request_id(g: GraphView, doc: Tree, req: Tree, t: Tree)
    requires
        request_replies(g, doc, req, Some(t)),
    ensures
        part(Some(req), "id"@) is Some,
        part(Some(t), "id"@) == part(Some(req), "id"@),
        part(Some(t), "jsonrpc"@) == Some(Tree::Text("2.0"@)),
{
    lemma_names();
    let id = part(Some(req), "id"@);
    let r = choose|r: ReplyView| #[trigger]
        method_replies(g, doc, text_part(Some(req), "method"@), part(Some(req), "params"@), r) && Some(t) == envelope(
            id,
            r,
        );
    let a = ("jsonrpc"@, Tree::Text("2.0"@));
    let b = ("id"@, id->0);
    match r {
        ReplyView::Done(x) => {
            lemma_three(a, b, ("result"@, x));
        },
        ReplyView::Failed(code, message) => {
            lemma_three(
                a,
                b,
                (
                    "error"@,
                    record(seq![("code"@, Tree::Integer(code)), ("message"@, Tree::Text(message))]),
                ),
            );
        },
        ReplyView::Silent => {},
    }
}

/// The methods that the server knows.
pub open spec fn known_method(method: Seq<char>) -> bool {
    ||| method == "initialize"@
    ||| method == "notifications/initialized"@
    ||| method == "ping"@
    ||| method == "tools/list"@
    ||| method == "tools/call"@
}

/// A request for a method that the server does not know is answered with the protocol error for
/// that.
pub proof fn unknown_methods_are_refused(g: GraphView, doc: Tree, req: Tree, out: Option<Tree>)
    requires
        request_replies(g, doc, req, out),
        part(Some(req), "id"@) is Some,
        !known_method(text_part(Some(req), "method"@)),
    ensures
        part(part(out, "error"@), "code"@) == Some(Tree::Integer(-32601)),
        part(part(out, "error"@), "message"@) == Some(
            Tree::Text("method not found: "@ + text_part(Some(req), "method"@)),
        ),
{
    lemma_names();
    let message = "method not found: "@ + text_part(Some(req), "method"@);
    let error = record(seq![("code"@, Tree::Integer(-32601)), ("message"@, Tree::Text(message))]);
    lemma_two(("code"@, Tree::Integer(-32601)), ("message"@, Tree::Text(message)));
    lemma_three(
        ("jsonrpc"@, Tree::Text("2.0"@)),
        ("id"@, part(Some(req), "id"@)->0),
        ("error"@, error),
    );
}

/// Whether a reply is the result of a tool, and whether it reports a failure.
pub open spec fn reports(r: ReplyView, failure: bool) -> bool {
    r is Done && part(Some(r->Done_0), "isError"@) == Some(Tree::Bool(failure))
}

proof fn lemma_reports(text: Seq<char>, failure: bool)
    ensures
        reports(tool_result(text, failure), failure),
{
    lemma_names();
    lemma_two(
        (
            "content"@,
            Tree::Array(seq![record(seq![("type"@, Tree::Text("text"@)), ("text"@, Tree::Text(text))])]),
        ),
        ("isError"@, Tree::Bool(failure)),
    );
}

/// A tool call is never answered with a protocol error: whatever goes wrong is in its result.
pub proof fn tool_calls_have_results(g: GraphView, doc: Tree, params: Option<Tree>, r: ReplyView)
    requires
        tool_replies(g, doc, params, r),
    ensures
        reports(r, true) || reports(r, false),
{
    assert forall|text: Seq<char>, failure: bool| r == #[trigger] tool_result(text, failure) implies reports(r, failure) by {
        lemma_reports(text, failure);
    }
}

/// A query that cannot be read, or that names no node, is reported by the tool as a failure, with
/// what is wrong; every other query is answered.
pub proof fn bad_queries_are_tool_errors(g: GraphView, doc: Tree, params: Option<Tree>, r: ReplyView)
    requires
        tool_replies(g, doc, params, r),
        text_part(params, "name"@) == "oracle_query"@,
    ensures
        ({
            let oql = text_part(part(params, "arguments"@), "oql"@);
            match oql_asked(g, oql) {
                Err(f) => r == tool_result(run_fault_text(f), true) && reports(r, true),
                Ok(_) => reports(r, false),
            }
        }),
{
    assert forall|text: Seq<char>, failure: bool| r == #[trigger] tool_result(text, failure) implies reports(r, failure) by {
        lemma_reports(text, failure);
    }
}

/// The answers to what is asked are shown in the same way.
proof fn lemma_shown_once(g: GraphView, a: Ask, r: ReplyView, s: ReplyView)
    requires
        shows_answer(g, a, r),
        shows_answer(g, a, s),
    ensures
        r == s,
{
    let t = choose|t: Tree| #[trigger] answered(g, a, t) && r == tool_result(pretty_text(t), false);
    let u = choose|u: Tree| #[trigger] answered(g, a, u) && s == tool_result(pretty_text(u), false);
    queries_have_one_answer(g, a, t, u);
}

/// A request has one answer.
pub proof fn requests_have_one_answer(g: GraphView, doc: Tree, req: Tree, out: Option<Tree>, other: Option<Tree>)
    requires
        request_replies(g, doc, req, out),
        request_replies(g, doc, req, other),
    ensures
        out == other,
{
    let method = text_part(Some(req), "method"@);
    let params = part(Some(req), "params"@);
    let id = part(Some(req), "id"@);
    let r = choose|r: ReplyView| #[trigger] method_replies(g, doc, method, params, r) && out == envelope(id, r);
    let s = choose|s: ReplyView| #[trigger] method_replies(g, doc, method, params, s) && other == envelope(id, s);
    if method == "tools/call"@ && r != s {
        let args = part(params, "arguments"@);
        let name = text_part(params, "name"@);
        if name == "oracle_query"@ {
            let a = oql_asked(g, text_part(args, "oql"@));
            if a is Ok {
                lemma_shown_once(g, a->Ok_0, r, s);
            }
        } else if name == "oracle_escalate"@ {
            let who = text_part(args, "principal"@);
            if known(g.nodes, who) {
                lemma_shown_once(g, Ask::Escalate(place(g, who)), r, s);
            }
        }
    }
}

/// The reply is the result of a tool that says the text, as a failure or not.
pub open spec fn says(r: ReplyView, text: Seq<char>, failure: bool) -> bool {
    &&& reports(r, failure)
    &&& part(Some(r->Done_0), "content"@) is Some
    &&& part(Some(r->Done_0), "content"@)->0 is Array
    &&& part(Some(r->Done_0), "content"@)->0->Array_0.len() == 1
    &&& part(Some(part(Some(r->Done_0), "content"@)->0->Array_0[0]), "type"@) == Some(Tree::Text("text"@))
    &&& part(Some(part(Some(r->Done_0), "content"@)->0->Array_0[0]), "text"@) == Some(Tree::Text(text))
}

proof fn lemma_says(text: Seq<char>, failure: bool)
    ensures
        says(tool_result(text, failure), text, failure),
{
    lemma_names();
    lemma_reports(text, failure);
    let inner = seq![("type"@, Tree::Text("text"@)), ("text"@, Tree::Text(text))];
    let outer = seq![("content"@, Tree::Array(seq![record(inner)])), ("isError"@, Tree::Bool(failure))];
    assert("type"@ != "text"@) by {
        reveal_strlit("type");
        reveal_strlit("text");
        assert("type"@[1] == 'y');
        assert("text"@[1] == 'e');
    }
    fields_are_read_back(outer, 0);
    fields_are_read_back(inner, 0);
    fields_are_read_back(inner, 1);
}

/// The query tool says what answers the query, or what is wrong with it as a failure.
pub proof fn query_tool_says_the_answer(g: GraphView, doc: Tree, params: Option<Tree>, oql: Seq<char>, r: ReplyView)
    requires
        tool_replies(g, doc, params, r),
        part(params, "name"@) == Some(Tree::Text("oracle_query"@)),
        part(part(params, "arguments"@), "oql"@) == Some(Tree::Text(oql)),
    ensures
        match parsed(oql) {
            Err(f) => says(r, run_fault_text(RunFault::Oql(f)), true),
            Ok(q) => match asked(g, q) {
                Err(f) => says(r, run_fault_text(f), true),
                Ok(a) => exists|t: Tree| #[trigger] answered(g, a, t) && says(r, pretty_text(t), false),
            },
        },
{
    match oql_asked(g, oql) {
        Err(f) => lemma_says(run_fault_text(f), true),
        Ok(a) => {
            let t = choose|t: Tree| #[trigger] answered(g, a, t) && r == tool_result(pretty_text(t), false);
            lemma_says(pretty_text(t), false);
        },
    }
}

/// The escalation tool says the labels of the users, groups and roles that edges lead to from the node
/// with the id, or as a failure that there is no such node.
pub proof fn escalation_tool_says_the_targets(
    g: GraphView,
    doc: Tree,
    params: Option<Tree>,
    id: Seq<char>,
    r: ReplyView,
)
    requires
        g.wf(),
        tool_replies(g, doc, params, r),
        part(params, "name"@) == Some(Tree::Text("oracle_escalate"@)),
        part(part(params, "arguments"@), "principal"@) == Some(Tree::Text(id)),
    ensures
        (forall|i: int| 0 <= i < g.nodes.len() ==> (#[trigger] g.nodes[i]).id != id) ==> says(
            r,
            "no node with id "@ + id,
            true,
        ),
        forall|i: int| #![trigger g.nodes[i]]
            0 <= i < g.nodes.len() && g.nodes[i].id == id ==> exists|v: Seq<usize>| #[trigger]
                lists(v, g.nodes.len(), in_escalation(g, i)) && says(r, pretty_text(targets_tree(g, v)), false),
{
    lemma_tool_names();
    known_ids_have_nodes(g, id);
    if !known(g.nodes, id) {
        lemma_says("no node with id "@ + id, true);
    }
    assert forall|i: int| #![trigger g.nodes[i]] 0 <= i < g.nodes.len() && g.nodes[i].id == id implies exists|v: Seq<usize>|
     #[trigger]
        lists(v, g.nodes.len(), in_escalation(g, i)) && says(r, pretty_text(targets_tree(g, v)), false) by {
        ids_are_found_where_they_are(g, i);
        let a = Ask::Escalate(i);
        let t = choose|t: Tree| #[trigger] answered(g, a, t) && r == tool_result(pretty_text(t), false);
        lemma_says(pretty_text(t), false);
        let v = choose|v: Seq<usize>|
            lists(v, g.nodes.len(), in_escalation(g, i)) && t == #[trigger] targets_tree(g, v);
        assert(lists(v, g.nodes.len(), in_escalation(g, i)));
    }
}

/// The names of the tools differ.
proof fn lemma_tool_names()
    ensures
        "oracle_query"@ != "oracle_escalate"@,
        "oracle_query"@ != "oracle_graph"@,
        "oracle_escalate"@ != "oracle_graph"@,
{
    reveal_strlit("oracle_query");
    reveal_strlit("oracle_escalate");
    reveal_strlit("oracle_graph");
    assert("oracle_query"@[7] == 'q');
    assert("oracle_escalate"@[7] == 'e');
    assert("oracle_graph"@[7] == 'g');
}

/// The graph tool says the graph as it was given, whatever its arguments.
pub proof fn graph_tool_says_the_graph(g: GraphView, doc: Tree, params: Option<Tree>, r: ReplyView)
    requires
        tool_replies(g, doc, params, r),
        part(params, "name"@) == Some(Tree::Text("oracle_graph"@)),
    ensures
        says(r, pretty_text(doc), false),
{
    lemma_tool_names();
    lemma_says(pretty_text(doc), false);
}

/// A tool that is none of the three is named in a failure.
pub proof fn other_tools_are_unknown(g: GraphView, doc: Tree, params: Option<Tree>, name: Seq<char>, r: ReplyView)
    requires
        tool_replies(g, doc, params, r),
        part(params, "name"@) == Some(Tree::Text(name)),
        name != "oracle_query"@ && name != "oracle_escalate"@ && name != "oracle_graph"@,
    ensures
        says(r, "unknown tool: "@ + name, true),
{
    lemma_says("unknown tool: "@ + name, true);
}

/// The names of the methods differ.
proof fn lemma_method_names()
    ensures
        "initialize"@ != "ping"@,
        "initialize"@ != "tools/list"@,
        "initialize"@ != "tools/call"@,
        "notifications/initialized"@ != "ping"@,
        "notifications/initialized"@ != "tools/list"@,
        "notifications/initialized"@ != "tools/call"@,
        "notifications/initialized"@ != "initialize"@,
        "ping"@ != "tools/list"@,
        "ping"@ != "tools/call"@,
        "tools/list"@ != "tools/call"@,
{
    reveal_strlit("initialize");
    reveal_strlit("notifications/initialized");
    reveal_strlit("ping");
    reveal_strlit("tools/list");
    reveal_strlit("tools/call");
    assert("initialize"@[0] == 'i');
    assert("notifications/initialized"@[0] == 'n');
    assert("ping"@[0] == 'p');
    assert("tools/list"@[0] == 't' && "tools/list"@[6] == 'l');
    assert("tools/call"@[0] == 't' && "tools/call"@[6] == 'c');
}

/// Every request of a method that has a result is answered with it: a ping with an empty object, a
/// call of a tool with what the tool replies.
pub proof fn requests_get_the_result_of_their_method(g: GraphView, doc: Tree, req: Tree, out: Option<Tree>)
    requires
        request_replies(g, doc, req, out),
        part(Some(req), "id"@) is Some,
    ensures
        part(Some(req), "method"@) == Some(Tree::Text("ping"@)) ==> part(out, "result"@) == Some(
            Tree::Object(Map::empty()),
        ),
        part(Some(req), "method"@) == Some(Tree::Text("tools/call"@)) ==> exists|r: ReplyView| #[trigger]
            tool_replies(g, doc, part(Some(req), "params"@), r) && r is Done && part(out, "result"@) == Some(r->Done_0),
        part(Some(req), "method"@) == Some(Tree::Text("notifications/initialized"@)) ==> out is None,
{
    lemma_method_names();
    lemma_names();
    let id = part(Some(req), "id"@);
    let params = part(Some(req), "params"@);
    let method = text_part(Some(req), "method"@);
    let r = choose|r: ReplyView| #[trigger] method_replies(g, doc, method, params, r) && out == envelope(id, r);
    if method == "tools/call"@ {
        tool_calls_have_results(g, doc, params, r);
    }
    if r is Done {
        let fields = seq![("jsonrpc"@, Tree::Text("2.0"@)), ("id"@, id->0), ("result"@, r->Done_0)];
        fields_are_read_back(fields, 2);
    }
    assert(entries(seq![]) =~= Map::<Seq<char>, Tree>::empty());
}

/// Over HTTP, a query that can be answered gets its answer with the status 200, and every other one
/// what is wrong with it with the status 400.
pub proof fn http_tells_answers_from_errors(g: GraphView, oql: Seq<char>, status: int, body: Tree)
    requires
        http_replies(g, oql, status, body),
    ensures
        match parsed(oql) {
            Err(f) => status == 400 && part(Some(body), "error"@) == Some(Tree::Text(run_fault_text(RunFault::Oql(f)))),
            Ok(q) => match asked(g, q) {
                Err(f) => status == 400 && part(Some(body), "error"@) == Some(Tree::Text(run_fault_text(f))),
                Ok(a) => status == 200 && answered(g, a, body),
            },
        },
{
    if let Err(f) = oql_asked(g, oql) {
        fields_are_read_back(seq![("error"@, Tree::Text(run_fault_text(f)))], 0);
    }
}

/// A line of white space alone and a line that is no JSON get no line for an answer; every other line
/// gets the answer to the request that it is, on one line, where that has one.
pub proof fn lines_are_answered_as_requests(
    g: GraphView,
    doc: Tree,
    line: Seq<char>,
    out: Option<Seq<char>>,
    req: Tree,
    t: Option<Tree>,
)
    requires
        line_replies(g, doc, line, out),
    ensures
        (forall|i: int| 0 <= i < line.len() ==> blank(#[trigger] line[i])) ==> out is None,
        json_read(line) is None ==> out is None,
        json_read(line) == Some(req) && (exists|i: int| 0 <= i < line.len() && !blank(#[trigger] line[i]))
            && request_replies(g, doc, req, t) ==> {
            &&& t is None ==> out is None
            &&& t is Some ==> out == Some(json_text(t->0))
        },
{
    if json_read(line) == Some(req) && (exists|i: int| 0 <= i < line.len() && !blank(#[trigger] line[i]))
        && request_replies(g, doc, req, t) {
        let u = choose|u: Option<Tree>| #[trigger]
            request_replies(g, doc, req, u) && out == match u {
                Some(x) => Some(json_text(x)),
                None => None,
            };
        requests_have_one_answer(g, doc, req, t, u);
    }
}

/// The description of a tool has the name and the text, and the schema of its arguments: one text of
/// the given name that must be there, or nothing.
pub open spec fn describes(t: Tree, name: Seq<char>, text: Seq<char>, argument: Option<(Seq<char>, Seq<char>)>) -> bool {
    let schema = part(Some(t), "inputSchema"@);
    &&& part(Some(t), "name"@) == Some(Tree::Text(name))
    &&& part(Some(t), "description"@) == Some(Tree::Text(text))
    &&& part(schema, "type"@) == Some(Tree::Text("object"@))
    &&& match argument {
        Some((key, says)) => {
            &&& part(schema, "required"@) == Some(Tree::Array(seq![Tree::Text(key)]))
            &&& part(part(part(schema, "properties"@), key), "type"@) == Some(Tree::Text("string"@))
            &&& part(part(part(schema, "properties"@), key), "description"@) == Some(Tree::Text(says))
        },
        None => part(schema, "properties"@) == Some(Tree::Object(Map::empty())),
    }
}

/// The names of the members of the description of a tool differ.
proof fn lemma_description_names()
    ensures
        "name"@ != "description"@,
        "name"@ != "inputSchema"@,
        "description"@ != "inputSchema"@,
        "type"@ != "properties"@,
        "type"@ != "required"@,
        "type"@ != "description"@,
        "properties"@ != "required"@,
{
    reveal_strlit("name");
    reveal_strlit("description");
    reveal_strlit("inputSchema");
    reveal_strlit("type");
    reveal_strlit("properties");
    reveal_strlit("required");
    assert("name"@.len() == 4);
    assert("description"@.len() == 11 && "description"@[0] == 'd');
    assert("inputSchema"@.len() == 11 && "inputSchema"@[0] == 'i');
    assert("type"@.len() == 4);
    assert("properties"@.len() == 10);
    assert("required"@.len() == 8);
}

proof fn lemma_described(name: Seq<char>, text: Seq<char>, key: Seq<char>, says: Seq<char>)
    ensures
        describes(tool_tree(name, text, text_schema(key, says)), name, text, Some((key, says))),
        describes(tool_tree(name, text, empty_schema()), name, text, None),
{
    lemma_description_names();
    let one = seq![("type"@, Tree::Text("string"@)), ("description"@, Tree::Text(says))];
    let all = seq![(key, record(one))];
    let schema = seq![
        ("type"@, Tree::Text("object"@)),
        ("properties"@, record(all)),
        ("required"@, Tree::Array(seq![Tree::Text(key)])),
    ];
    let none = seq![("type"@, Tree::Text("object"@)), ("properties"@, record(seq![]))];
    let outer = seq![
        ("name"@, Tree::Text(name)),
        ("description"@, Tree::Text(text)),
        ("inputSchema"@, record(schema)),
    ];
    let other = seq![
        ("name"@, Tree::Text(name)),
        ("description"@, Tree::Text(text)),
        ("inputSchema"@, record(none)),
    ];
    fields_are_read_back(one, 0);
    fields_are_read_back(one, 1);
    fields_are_read_back(all, 0);
    fields_are_read_back(schema, 0);
    fields_are_read_back(schema, 1);
    fields_are_read_back(schema, 2);
    fields_are_read_back(none, 0);
    fields_are_read_back(none, 1);
    fields_are_read_back(outer, 0);
    fields_are_read_back(outer, 1);
    fields_are_read_back(outer, 2);
    fields_are_read_back(other, 0);
    fields_are_read_back(other, 1);
    fields_are_read_back(other, 2);
    assert(entries(seq![]) =~= Map::<Seq<char>, Tree>::empty());
}

/// A request for the tools is answered with three descriptions.
pub proof fn tools_are_described(g: GraphView, doc: Tree, req: Tree, out: Option<Tree>)
    requires
        request_replies(g, doc, req, out),
        part(Some(req), "id"@) is Some,
        part(Some(req), "method"@) == Some(Tree::Text("tools/list"@)),
    ensures
        ({
            let tools = part(part(out, "result"@), "tools"@);
            &&& tools is Some
            &&& tools->0 is Array
            &&& tools->0->Array_0.len() == 3
            &&& describes(
                tools->0->Array_0[0],
                "oracle_query"@,
                "Run an OQL query against the loaded identity/network graph and return the attack paths. OQL forms: PATHS FROM user(\"alice\") TO action(\"*\") | TO resource(\"x\") [VIA kind,...] [WITHIN n HOPS] [ON resource(\"arn\")]; ESCALATE FROM role(\"x\"); BLAST role(\"x\")."@,
                Some(("oql"@, "The OQL query."@)),
            )
            &&& describes(
                tools->0->Array_0[1],
                "oracle_escalate"@,
                "Privilege-escalation targets: identities this principal can reach by crossing a role-assumption or escalation-primitive boundary."@,
                Some(("principal"@, "Node id, e.g. \"ci-runner\"."@)),
            )
            &&& describes(
                tools->0->Array_0[2],
                "oracle_graph"@,
                "Return the full loaded identity/network graph (nodes and edges) as JSON."@,
                None,
            )
        }),
{
    lemma_method_names();
    lemma_names();
    let id = part(Some(req), "id"@);
    let r = ReplyView::Done(record(seq![("tools"@, tools_tree())]));
    assert(out == envelope(id, r));
    fields_are_read_back(seq![("jsonrpc"@, Tree::Text("2.0"@)), ("id"@, id->0), ("result"@, r->Done_0)], 2);
    fields_are_read_back(seq![("tools"@, tools_tree())], 0);
    lemma_described(
        "oracle_query"@,
        "Run an OQL query against the loaded identity/network graph and return the attack paths. OQL forms: PATHS FROM user(\"alice\") TO action(\"*\") | TO resource(\"x\") [VIA kind,...] [WITHIN n HOPS] [ON resource(\"arn\")]; ESCALATE FROM role(\"x\"); BLAST role(\"x\")."@,
        "oql"@,
        "The OQL query."@,
    );
    lemma_described(
        "oracle_escalate"@,
        "Privilege-escalation targets: identities this principal can reach by crossing a role-assumption or escalation-primitive boundary."@,
        "principal"@,
        "Node id, e.g. \"ci-runner\"."@,
    );
    lemma_described(
        "oracle_graph"@,
        "Return the full loaded identity/network graph (nodes and edges) as JSON."@,
        Seq::empty(),
        Seq::empty(),
    );
}

/// A value is shown indented, or on one line where it cannot be indented.
pub proof fn values_are_shown_indented(t: Tree, s: Seq<char>)
    ensures
        json_pretty(t) == Some(s) ==> pretty_text(t) == s,
        json_pretty(t) is None ==> pretty_text(t) == json_text(t),
{
}

} // verus!

//! What the HTTP API answers.
use crate::graph::{Graph, GraphView};
use crate::json::{
    field, field_views, json_read, object, parse_json, record, text_value, tree, Tree,
};
use crate::run::{answered, oql_asked, run_fault_text};
use vstd::prelude::*;

verus! {

/// The status and the body answer a query: the result with the status `200 OK`, or what is wrong
/// with the query with the status `400 Bad Request`.
pub open spec fn http_replies(g: GraphView, oql: Seq<char>, status: int, body: Tree) -> bool {
    match oql_asked(g, oql) {
        Ok(a) => status == 200 && answered(g, a, body),
        Err(f) => status == 400 && body == record(seq![("error"@, Tree::Text(run_fault_text(f)))]),
    }
}

/// The JSON value of the text of a graph, which is shown as it is; none where the text is no JSON.
pub fn graph_value(text: &str) -> (r: Option<serde_json::Value>)
    ensures
        match r {
            Some(v) => json_read(text@) == Some(tree(v)),
            None => json_read(text@) is None,
        },
{
    parse_json(text)
}

/// The status and the body of the answer to a query.
pub fn post_query(graph: &Graph, oql: &str) -> (r: (u16, serde_json::Value))
    ensures
        http_replies(graph@, oql@, r.0 as int, tree(r.1)),
{
    match graph.run_oql(oql) {
        Ok(v) => (200, v),
        Err(e) => {
            let fields = vec![field("error", text_value(e.message()))];
            assert(field_views(fields@) =~= seq![("error"@, Tree::Text(run_fault_text(e@)))]);
            (400, object(fields))
        },
    }
}

} // verus!

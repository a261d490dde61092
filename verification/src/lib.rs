//! Oracle answers attack-path questions over identity and network graphs.
use vstd::prelude::*;

pub mod glob;
pub mod graph;
pub mod graph_laws;
pub mod import_aws;
pub mod import_laws;
pub mod import_order_laws;
pub mod import_policy_laws;
pub mod json;
pub mod json_laws;
pub mod lexer;
pub mod lexer_laws;
pub mod mcp;
pub mod mcp_laws;
pub mod message;
pub mod message_laws;
pub mod model;
pub mod path_laws;
pub mod query;
pub mod query_fault_laws;
pub mod query_laws;
pub mod query_text_laws;
pub mod reach;
pub mod reach_laws;
pub mod render;
pub mod render_laws;
pub mod report;
pub mod run;
pub mod run_laws;
pub mod search;
pub mod search_laws;
pub mod server;
pub mod store;
pub mod technique;
pub mod technique_laws;
pub mod text;

verus! {

}

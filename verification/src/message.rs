//! What errors say.
use crate::graph::GraphError;
use crate::lexer::{LexError, Tok, TokView};
use crate::query::{tok_of, Fault, OqlError};
use vstd::prelude::*;

verus! {

/// A text as `Debug` prints it: in double quotes, with escapes.
pub uninterp spec fn debug_text(s: Seq<char>) -> Seq<char>;

/// `<str as Debug>::fmt` by way of `format!`. The claim is that the text alone decides what is
/// printed; how single characters are escaped is left unsaid.
#[verifier::external_body]
fn debug_of(s: &str) -> (r: String)
    ensures
        r@ == debug_text(s@),
{
    format!("{:?}", s)
}

/// A token as `Debug` prints it.
pub open spec fn token_text(t: TokView) -> Seq<char> {
    match t {
        TokView::Word(w) => "Word("@ + debug_text(w) + ")"@,
        TokView::Str(s) => "Str("@ + debug_text(s) + ")"@,
        TokView::LParen => "LParen"@,
        TokView::RParen => "RParen"@,
        TokView::Comma => "Comma"@,
    }
}

/// What was found in place of something else, as `Debug` prints it.
pub open spec fn found_text(t: Option<TokView>) -> Seq<char> {
    match t {
        Some(x) => "Some("@ + token_text(x) + ")"@,
        None => "None"@,
    }
}

/// What a parse error says.
pub open spec fn fault_text(f: Fault) -> Seq<char> {
    match f {
        Fault::Lex(LexError::Unterminated) => "unterminated string literal"@,
        Fault::Lex(LexError::Unexpected(c)) => "unexpected character '"@.push(c) + "'"@,
        Fault::ExpectedToken { due, found } => "expected "@ + token_text(due) + ", found "@ + found_text(found),
        Fault::ExpectedKeyword { due, found } => "expected `"@ + due + "`, found "@ + found_text(found),
        Fault::ExpectedWord { found } => "expected a keyword or identifier, found "@ + found_text(found),
        Fault::ExpectedString { found } => "expected a quoted string, found "@ + found_text(found),
        Fault::ExpectedNumber { found } => "expected a number of hops, found `"@ + found + "`"@,
        Fault::UnknownQuery(w) => "unknown query `"@ + w + "` (expected PATHS, ESCALATE, or BLAST)"@,
        Fault::ResourceWithoutAction => "ON needs an action(...) target"@,
        Fault::TrailingInput => "unexpected trailing input after query"@,
    }
}

/// What an error of the graph says.
pub open spec fn graph_error_text(e: GraphError) -> Seq<char> {
    match e {
        GraphError::DuplicateNode(id) => "duplicate node id "@ + id@,
        GraphError::UnknownNode(id) => "edge references unknown node "@ + id@,
        GraphError::NoSuchNode(id) => "no node with id "@ + id@,
    }
}

/// A text between two others.
pub(crate) fn around(front: &str, s: &str, back: &str) -> (r: String)
    ensures
        r@ == front@ + s@ + back@,
{
    let mut out = front.to_owned();
    out.append(s);
    out.append(back);
    out
}

/// One text behind another.
pub(crate) fn behind(front: &str, s: &str) -> (r: String)
    ensures
        r@ == front@ + s@,
{
    let mut out = front.to_owned();
    out.append(s);
    out
}

impl Tok {
    /// The token as `Debug` prints it.
    pub fn debug(&self) -> (r: String)
        ensures
            r@ == token_text(self@),
    {
        match self {
            Tok::Word(w) => around("Word(", debug_of(w.as_str()).as_str(), ")"),
            Tok::Str(s) => around("Str(", debug_of(s.as_str()).as_str(), ")"),
            Tok::LParen => "LParen".to_owned(),
            Tok::RParen => "RParen".to_owned(),
            Tok::Comma => "Comma".to_owned(),
        }
    }
}

fn debug_found(t: &Option<Tok>) -> (r: String)
    ensures
        r@ == found_text(tok_of(*t)),
{
    match t {
        Some(x) => around("Some(", x.debug().as_str(), ")"),
        None => "None".to_owned(),
    }
}

impl OqlError {
    /// What the error says.
    pub fn message(&self) -> (r: String)
        ensures
            r@ == fault_text(self@),
    {
        match self {
            OqlError::Lex(LexError::Unterminated) => "unterminated string literal".to_owned(),
            OqlError::Lex(LexError::Unexpected(c)) => {
                let mut out = "unexpected character '".to_owned();
                out.push(*c);
                out.append("'");
                out
            },
            OqlError::ExpectedToken { due, found } => {
                let mut out = behind("expected ", due.debug().as_str());
                out.append(", found ");
                out.append(debug_found(found).as_str());
                out
            },
            OqlError::ExpectedKeyword { due, found } => {
                let mut out = behind("expected `", due.as_str());
                out.append("`, found ");
                out.append(debug_found(found).as_str());
                out
            },
            OqlError::ExpectedWord { found } => behind(
                "expected a keyword or identifier, found ",
                debug_found(found).as_str(),
            ),
            OqlError::ExpectedString { found } => behind(
                "expected a quoted string, found ",
                debug_found(found).as_str(),
            ),
            OqlError::ExpectedNumber { found } => around("expected a number of hops, found `", found.as_str(), "`"),
            OqlError::UnknownQuery(w) => around(
                "unknown query `",
                w.as_str(),
                "` (expected PATHS, ESCALATE, or BLAST)",
            ),
            OqlError::ResourceWithoutAction => "ON needs an action(...) target".to_owned(),
            OqlError::TrailingInput => "unexpected trailing input after query".to_owned(),
        }
    }
}

impl GraphError {
    /// What the error says.
    pub fn message(&self) -> (r: String)
        ensures
            r@ == graph_error_text(*self),
    {
        match self {
            GraphError::DuplicateNode(id) => behind("duplicate node id ", id.as_str()),
            GraphError::UnknownNode(id) => behind("edge references unknown node ", id.as_str()),
            GraphError::NoSuchNode(id) => behind("no node with id ", id.as_str()),
        }
    }
}

} // verus!

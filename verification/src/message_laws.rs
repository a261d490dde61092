//! Laws of what errors say.
use crate::graph::GraphError;
use crate::lexer::{LexError, TokView};
use crate::message::{debug_text, fault_text, found_text, graph_error_text};
use crate::query::Fault;
use crate::run::{run_fault_text, RunFault};
use vstd::prelude::*;

verus! {

/// What is found is shown as the token that it is, with the text of a word or of a quoted text, or as
/// nothing at all.
pub proof fn tokens_found_are_shown(w: Seq<char>)
    ensures
        found_text(None) == "None"@,
        found_text(Some(TokView::Word(w))) == "Some(Word("@ + debug_text(w) + "))"@,
        found_text(Some(TokView::Str(w))) == "Some(Str("@ + debug_text(w) + "))"@,
        found_text(Some(TokView::LParen)) == "Some(LParen)"@,
        found_text(Some(TokView::RParen)) == "Some(RParen)"@,
        found_text(Some(TokView::Comma)) == "Some(Comma)"@,
{
    reveal_strlit("Some(");
    reveal_strlit("Word(");
    reveal_strlit("Str(");
    reveal_strlit(")");
    reveal_strlit("))");
    reveal_strlit("Some(Word(");
    reveal_strlit("Some(Str(");
    reveal_strlit("LParen");
    reveal_strlit("RParen");
    reveal_strlit("Comma");
    reveal_strlit("Some(LParen)");
    reveal_strlit("Some(RParen)");
    reveal_strlit("Some(Comma)");
    assert(found_text(Some(TokView::Word(w))) =~= "Some(Word("@ + debug_text(w) + "))"@);
    assert(found_text(Some(TokView::Str(w))) =~= "Some(Str("@ + debug_text(w) + "))"@);
    assert(found_text(Some(TokView::LParen)) =~= "Some(LParen)"@);
    assert(found_text(Some(TokView::RParen)) =~= "Some(RParen)"@);
    assert(found_text(Some(TokView::Comma)) =~= "Some(Comma)"@);
}

/// Whatever was due, the message ends with what was found in its place.
pub proof fn messages_end_with_what_was_found(found: Option<TokView>, due: Seq<char>, word: Seq<char>)
    ensures
        fault_text(Fault::ExpectedToken { due: TokView::LParen, found }) == "expected LParen, found "@ + found_text(found),
        fault_text(Fault::ExpectedToken { due: TokView::RParen, found }) == "expected RParen, found "@ + found_text(found),
        fault_text(Fault::ExpectedKeyword { due, found }) == "expected `"@ + due + "`, found "@ + found_text(found),
        fault_text(Fault::ExpectedWord { found }) == "expected a keyword or identifier, found "@ + found_text(found),
        fault_text(Fault::ExpectedString { found }) == "expected a quoted string, found "@ + found_text(found),
        fault_text(Fault::ExpectedNumber { found: word }) == "expected a number of hops, found `"@ + word + "`"@,
        fault_text(Fault::UnknownQuery(word)) == "unknown query `"@ + word
            + "` (expected PATHS, ESCALATE, or BLAST)"@,
{
    reveal_strlit("expected ");
    reveal_strlit(", found ");
    reveal_strlit("LParen");
    reveal_strlit("RParen");
    reveal_strlit("expected LParen, found ");
    reveal_strlit("expected RParen, found ");
    assert("expected "@ + "LParen"@ + ", found "@ =~= "expected LParen, found "@);
    assert("expected "@ + "RParen"@ + ", found "@ =~= "expected RParen, found "@);
}

/// A character that no token begins with is shown in quotes.
pub proof fn unexpected_characters_are_shown(c: char)
    ensures
        fault_text(Fault::Lex(LexError::Unexpected(c))) == "unexpected character '"@ + seq![c] + "'"@,
        fault_text(Fault::Lex(LexError::Unterminated)) == "unterminated string literal"@,
{
    assert(fault_text(Fault::Lex(LexError::Unexpected(c))) =~= "unexpected character '"@ + seq![c] + "'"@);
}

/// An error about an id ends with the id.
pub proof fn messages_name_the_id(e: GraphError, kind: Seq<char>, id: Seq<char>)
    ensures
        e matches GraphError::DuplicateNode(s) ==> graph_error_text(e) == "duplicate node id "@ + s@,
        e matches GraphError::UnknownNode(s) ==> graph_error_text(e) == "edge references unknown node "@ + s@,
        e matches GraphError::NoSuchNode(s) ==> graph_error_text(e) == "no node with id "@ + s@,
        run_fault_text(RunFault::NoSuchNode(id)) == "no node with id "@ + id,
        run_fault_text(RunFault::WrongKind { kind, id }) == "no "@ + kind + " with id "@ + id,
{
}

/// A query that cannot be read is refused with what the reader says.
pub proof fn faults_of_a_query_are_told(f: Fault)
    ensures
        run_fault_text(RunFault::Oql(f)) == fault_text(f),
{
}

} // verus!

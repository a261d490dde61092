//! Laws of OQL: what is said of tokens that are no query. The first token that does not fit is the one
//! that is blamed.
use crate::lexer::{lexed, LexError, TokView};
use crate::query::{
    at, decimal, is_keyword, is_number, node_at, parsed, parsed_tokens, query_stop, target_of, words_at,
    words_stop, Fault, QueryView, TargetView,
};
use crate::query_laws::{
    lemma_clause_heads, lemma_heads, lemma_node_at, lemma_on_at, lemma_target, lemma_target_is_ref, lemma_via_at,
    lemma_within_at, listed, writes_on, writes_paths, writes_via, writes_within,
};
use crate::text::{same_letters, upper};
use vstd::prelude::*;

verus! {

/// What is due at a place.
pub ghost enum Due {
    Word,
    Text,
    Number,
    Keyword(Seq<char>),
    Token(TokView),
}

/// What stands at a place is what is due there.
pub open spec fn fits(due: Due, found: Option<TokView>) -> bool {
    match due {
        Due::Word => found is Some && found->0 is Word,
        Due::Text => found is Some && found->0 is Str,
        Due::Number => found matches Some(TokView::Word(w)) && w.len() > 0 && (forall|i: int|
            0 <= i < w.len() ==> '0' <= #[trigger] w[i] && w[i] <= '9') && decimal(w) <= usize::MAX,
        Due::Keyword(k) => found matches Some(TokView::Word(w)) && same_letters(w, k),
        Due::Token(x) => found == Some(x),
    }
}

/// What is said of what stands in place of what is due.
pub open spec fn blamed(due: Due, found: Option<TokView>) -> Fault {
    match due {
        Due::Word => Fault::ExpectedWord { found },
        Due::Text => Fault::ExpectedString { found },
        Due::Number => match found {
            Some(TokView::Word(w)) => Fault::ExpectedNumber { found: w },
            _ => Fault::ExpectedWord { found },
        },
        Due::Keyword(k) => Fault::ExpectedKeyword { due: k, found },
        Due::Token(x) => Fault::ExpectedToken { due: x, found },
    }
}

/// What a node reference is made of.
pub open spec fn reference() -> Seq<Due> {
    seq![Due::Word, Due::Token(TokView::LParen), Due::Text, Due::Token(TokView::RParen)]
}

/// What a query is made of behind its first word.
pub open spec fn rest_of(head: Seq<char>) -> Seq<Due> {
    if same_letters(head, "BLAST"@) {
        reference()
    } else if same_letters(head, "ESCALATE"@) {
        seq![Due::Keyword("FROM"@)] + reference()
    } else {
        seq![Due::Keyword("FROM"@)] + reference() + seq![Due::Keyword("TO"@)] + reference()
    }
}

/// From a place on, what stands there fits up to the `k`th that is due, which does not.
pub open spec fn misfits(t: Seq<TokView>, from: int, due: Seq<Due>, k: int) -> bool {
    &&& 0 <= k < due.len()
    &&& forall|j: int| 0 <= j < k ==> #[trigger] fits(due[j], at(t, from + j))
    &&& !fits(due[k], at(t, from + k))
}

/// The place behind the token at a place, or the end of the tokens.
pub open spec fn behind(t: Seq<TokView>, i: int) -> int {
    if i < t.len() {
        i + 1
    } else {
        t.len() as int
    }
}

/// A query begins with one of three words.
pub proof fn queries_begin_with_one_of_three_words(t: Seq<TokView>)
    ensures
        t.len() == 0 ==> parsed_tokens(t) == Err::<QueryView, Fault>(Fault::ExpectedWord { found: None }),
        t.len() > 0 && !(t[0] is Word) ==> parsed_tokens(t) == Err::<QueryView, Fault>(
            Fault::ExpectedWord { found: Some(t[0]) },
        ),
        t.len() > 0 && t[0] is Word && !same_letters(t[0]->Word_0, "PATHS"@) && !same_letters(
            t[0]->Word_0,
            "ESCALATE"@,
        ) && !same_letters(t[0]->Word_0, "BLAST"@) ==> parsed_tokens(t) == Err::<QueryView, Fault>(
            Fault::UnknownQuery(upper(t[0]->Word_0)),
        ),
{
    lemma_heads();
}

/// The first token that does not fit is blamed, up to the end of the last node reference, and what
/// stands behind it is not read.
pub proof fn first_misfit_is_blamed(t: Seq<TokView>, head: Seq<char>, k: int)
    requires
        t.len() > 0,
        t[0] == TokView::Word(head),
        same_letters(head, "PATHS"@) || same_letters(head, "ESCALATE"@) || same_letters(head, "BLAST"@),
        misfits(t, 1, rest_of(head), k),
    ensures
        parsed_tokens(t) == Err::<QueryView, Fault>(blamed(rest_of(head)[k], at(t, 1 + k))),
        query_stop(t) == behind(t, 1 + k),
{
    lemma_heads();
    let due = rest_of(head);
    assert forall|j: int| 0 <= j < k implies fits(#[trigger] due[j], at(t, 1 + j)) by {
        assert(fits(due[j], at(t, 1 + j)));
    }
    assert(at(t, 0) == Some(TokView::Word(head)));
    let r = reference();
    assert(r[0] == Due::Word && r[1] == Due::Token(TokView::LParen) && r[2] == Due::Text && r[3] == Due::Token(
        TokView::RParen,
    ));
    if same_letters(head, "BLAST"@) {
        assert(k > 0 ==> fits(due[0], at(t, 1)));
        assert(k > 1 ==> fits(due[1], at(t, 2)));
        assert(k > 2 ==> fits(due[2], at(t, 3)));
    } else {
        assert(due[0] == Due::Keyword("FROM"@));
        assert(due[1] == r[0] && due[2] == r[1] && due[3] == r[2] && due[4] == r[3]);
        assert(k > 0 ==> fits(due[0], at(t, 1)));
        assert(k > 1 ==> fits(due[1], at(t, 2)));
        assert(k > 2 ==> fits(due[2], at(t, 3)));
        assert(k > 3 ==> fits(due[3], at(t, 4)));
        if same_letters(head, "PATHS"@) {
            assert(due[5] == Due::Keyword("TO"@));
            assert(due[6] == r[0] && due[7] == r[1] && due[8] == r[2] && due[9] == r[3]);
            assert(k > 4 ==> fits(due[4], at(t, 5)));
            assert(k > 5 ==> fits(due[5], at(t, 6)));
            assert(k > 6 ==> fits(due[6], at(t, 7)));
            assert(k > 7 ==> fits(due[7], at(t, 8)));
            assert(k > 8 ==> fits(due[8], at(t, 9)));
        }
    }
}

/// A `PATHS` query stands up to the clauses, and the `VIA` clause, where there is one, up to `j`.
pub open spec fn up_to_via(
    t: Seq<TokView>,
    kind: Seq<char>,
    id: Seq<char>,
    to: TargetView,
    via: Seq<Seq<char>>,
    j: int,
) -> bool {
    &&& writes_paths(t, kind, id, to)
    &&& 11 <= j <= t.len()
    &&& writes_via(t.subrange(11, j), via)
    &&& via.len() == 0 ==> !is_keyword(at(t, 11), "VIA"@)
    &&& via.len() > 0 ==> at(t, j) != Some(TokView::Comma)
}

/// The first eleven tokens are read.
proof fn lemma_eleven(t: Seq<TokView>, kind: Seq<char>, id: Seq<char>, to: TargetView)
    requires
        writes_paths(t, kind, id, to),
    ensures
        at(t, 0) == Some(t[0]),
        t[0] is Word,
        upper(t[0]->Word_0) == "PATHS"@,
        is_keyword(at(t, 1), "FROM"@),
        node_at(t, 2) == Ok::<(Seq<char>, Seq<char>), Fault>((kind, id)),
        is_keyword(at(t, 6), "TO"@),
        node_at(t, 7) is Ok,
        target_of(node_at(t, 7)->Ok_0.0, node_at(t, 7)->Ok_0.1) == to,
{
    lemma_heads();
    lemma_node_at(t, 2, kind, id);
    let (k, i) = lemma_target_is_ref(t.subrange(7, 11), to);
    lemma_node_at(t, 7, k, i);
    lemma_target(t.subrange(7, 11), k, i);
}

/// In a list of words, what stands behind a comma in place of a word is blamed.
proof fn lemma_words_misfit(t: Seq<TokView>, i: int, words: Seq<Seq<char>>, e: int)
    requires
        0 <= i <= e <= t.len(),
        words.len() == 0 ==> e == i,
        words.len() > 0 ==> t.subrange(i, e) == listed(words).push(TokView::Comma),
        !fits(Due::Word, at(t, e)),
    ensures
        words_at(t, i) == Err::<(Seq<Seq<char>>, int), Fault>(blamed(Due::Word, at(t, e))),
        words_stop(t, i) == behind(t, e),
    decreases words.len(),
{
    if words.len() > 0 {
        let s = t.subrange(i, e);
        let rest = words.drop_first();
        if words.len() == 1 {
            let l = seq![TokView::Word(words[0])].push(TokView::Comma);
            assert(s == l);
            assert(l.len() == 2 && l[0] == TokView::Word(words[0]) && l[1] == TokView::Comma);
        } else {
            let front = seq![TokView::Word(words[0]), TokView::Comma];
            let l = listed(rest).push(TokView::Comma);
            assert(s =~= front + l);
            assert(front[0] == TokView::Word(words[0]) && front[1] == TokView::Comma);
            assert(t.subrange(i + 2, e) =~= l) by {
                assert(s.skip(2) =~= l);
                assert(s.skip(2) =~= t.subrange(i + 2, e));
            }
        }
        assert(s.len() >= 2);
        assert(s[0] == t[i] && s[1] == t[i + 1]);
        lemma_words_misfit(t, i + 2, rest, e);
    }
}

/// In a `VIA` clause, what stands in place of an edge kind is blamed.
pub proof fn misfits_in_via_are_blamed(
    t: Seq<TokView>,
    kind: Seq<char>,
    id: Seq<char>,
    to: TargetView,
    words: Seq<Seq<char>>,
    e: int,
)
    requires
        writes_paths(t, kind, id, to),
        fits(Due::Keyword("VIA"@), at(t, 11)),
        12 <= e <= t.len(),
        words.len() == 0 ==> e == 12,
        words.len() > 0 ==> t.subrange(12, e) == listed(words).push(TokView::Comma),
        !fits(Due::Word, at(t, e)),
    ensures
        parsed_tokens(t) == Err::<QueryView, Fault>(blamed(Due::Word, at(t, e))),
        query_stop(t) == behind(t, e),
{
    lemma_eleven(t, kind, id, to);
    lemma_words_misfit(t, 12, words, e);
}

/// A list of words is read up to its end.
proof fn lemma_words_end(t: Seq<TokView>, i: int)
    requires
        0 <= i,
        words_at(t, i) is Ok,
    ensures
        words_stop(t, i) == words_at(t, i)->Ok_0.1,
    decreases t.len() - i,
{
    if at(t, i + 1) == Some(TokView::Comma) {
        lemma_words_end(t, i + 2);
    }
}

/// In a `WITHIN` clause, the first token that does not fit is blamed.
pub proof fn misfits_in_within_are_blamed(
    t: Seq<TokView>,
    kind: Seq<char>,
    id: Seq<char>,
    to: TargetView,
    via: Seq<Seq<char>>,
    j: int,
    k: int,
)
    requires
        up_to_via(t, kind, id, to, via, j),
        fits(Due::Keyword("WITHIN"@), at(t, j)),
        misfits(t, j + 1, seq![Due::Number, Due::Keyword("HOPS"@)], k),
    ensures
        parsed_tokens(t) == Err::<QueryView, Fault>(
            blamed(seq![Due::Number, Due::Keyword("HOPS"@)][k], at(t, j + 1 + k)),
        ),
        query_stop(t) == behind(t, j + 1 + k),
{
    lemma_eleven(t, kind, id, to);
    lemma_via_at(t, 11, via, j);
    let due = seq![Due::Number, Due::Keyword("HOPS"@)];
    assert(k > 0 ==> fits(due[0], at(t, j + 1 + 0)));
    if via.len() > 0 {
        assert(t.subrange(11, j)[0] == t[11]);
        lemma_words_end(t, 12);
    }
}

/// In an `ON` clause, the first token that does not fit is blamed.
pub proof fn misfits_in_on_are_blamed(
    t: Seq<TokView>,
    kind: Seq<char>,
    id: Seq<char>,
    to: TargetView,
    via: Seq<Seq<char>>,
    j: int,
    within: Option<usize>,
    i: int,
    k: int,
)
    requires
        up_to_via(t, kind, id, to, via, j),
        j <= i <= t.len(),
        writes_within(t.subrange(j, i), within),
        fits(Due::Keyword("ON"@), at(t, i)),
        misfits(
            t,
            i + 1,
            seq![Due::Keyword("resource"@), Due::Token(TokView::LParen), Due::Text, Due::Token(TokView::RParen)],
            k,
        ),
    ensures
        parsed_tokens(t) == Err::<QueryView, Fault>(
            blamed(
                seq![
                    Due::Keyword("resource"@),
                    Due::Token(TokView::LParen),
                    Due::Text,
                    Due::Token(TokView::RParen),
                ][k],
                at(t, i + 1 + k),
            ),
        ),
        query_stop(t) == behind(t, i + 1 + k),
{
    lemma_eleven(t, kind, id, to);
    lemma_clause_heads();
    lemma_via_at(t, 11, via, j);
    lemma_within_at(t, j, within, i);
    let due = seq![Due::Keyword("resource"@), Due::Token(TokView::LParen), Due::Text, Due::Token(TokView::RParen)];
    assert(k > 0 ==> fits(due[0], at(t, i + 1 + 0)));
    assert(k > 1 ==> fits(due[1], at(t, i + 1 + 1)));
    assert(k > 2 ==> fits(due[2], at(t, i + 1 + 2)));
    if via.len() > 0 {
        assert(t.subrange(11, j)[0] == t[11]);
        lemma_words_end(t, 12);
    }
    if within is Some {
        assert(t.subrange(j, i)[0] == t[j]);
    }
}

/// A query is read to its end.
pub proof fn queries_are_read_to_their_end(t: Seq<TokView>)
    requires
        parsed_tokens(t) is Ok,
    ensures
        query_stop(t) == t.len(),
{
    lemma_heads();
    let head = t[0]->Word_0;
    assert(at(t, 0) == Some(TokView::Word(head)));
    if upper(head) == "PATHS"@ && is_keyword(at(t, 11), "VIA"@) {
        lemma_words_end(t, 12);
    }
}

/// A resource goes with an action alone: an `ON` clause behind a node is refused, whatever follows.
pub proof fn resources_go_with_actions_alone(
    t: Seq<TokView>,
    kind: Seq<char>,
    id: Seq<char>,
    to: TargetView,
    via: Seq<Seq<char>>,
    j: int,
    within: Option<usize>,
    i: int,
    resource: Seq<char>,
)
    requires
        up_to_via(t, kind, id, to, via, j),
        to is Node,
        j <= i,
        i + 5 <= t.len(),
        writes_within(t.subrange(j, i), within),
        writes_on(t.subrange(i, i + 5), Some(resource)),
    ensures
        parsed_tokens(t) == Err::<QueryView, Fault>(Fault::ResourceWithoutAction),
{
    lemma_eleven(t, kind, id, to);
    lemma_clause_heads();
    assert(t.subrange(i, i + 5)[0] == t[i]);
    assert(is_keyword(at(t, i), "ON"@));
    lemma_via_at(t, 11, via, j);
    lemma_within_at(t, j, within, i);
    lemma_on_at(t, i, Some(resource), i + 5);
}

/// What has no tokens is refused for that, and every other text as its tokens are.
pub proof fn texts_are_refused_as_their_tokens_are(s: Seq<char>, e: LexError, t: Seq<TokView>)
    ensures
        lexed(s) == Err::<Seq<TokView>, LexError>(e) ==> parsed(s) == Err::<QueryView, Fault>(Fault::Lex(e)),
        lexed(s) == Ok::<Seq<TokView>, LexError>(t) ==> parsed(s) == parsed_tokens(t),
{
}

/// A token is a keyword if it is a word with the same letters, place by place, in whatever case.
pub proof fn keywords_are_words_with_the_same_letters(t: Option<TokView>, due: Seq<char>)
    ensures
        is_keyword(t, due) <==> t is Some && t->0 is Word && same_letters(t->0->Word_0, due),
{
}

/// A digit behind a number makes it ten times as large, and the digit more; a number is one as long as
/// a machine word holds it.
pub proof fn numbers_are_read_digit_by_digit(w: Seq<char>, c: char)
    requires
        '0' <= c && c <= '9',
        w.len() == 0 || is_number(w),
    ensures
        decimal(Seq::empty()) == 0,
        decimal(w.push(c)) == 10 * decimal(w) + (c as int - 48),
        is_number(w.push(c)) <==> 10 * decimal(w) + (c as int - 48) <= usize::MAX,
{
    assert(w.push(c).drop_last() =~= w);
    assert forall|i: int| 0 <= i < w.push(c).len() implies '0' <= #[trigger] w.push(c)[i] && w.push(c)[i] <= '9' by {
        if i < w.len() {
            assert(w.push(c)[i] == w[i]);
        }
    }
}

/// A word with a character that is no digit is no number.
pub proof fn numbers_are_made_of_digits(w: Seq<char>, i: int)
    requires
        0 <= i < w.len(),
        w[i] < '0' || w[i] > '9',
    ensures
        !is_number(w),
{
}

} // verus!

//! Laws of OQL as text: every query that can be written is read back from its text.
use crate::lexer::{lexed, wordy, LexError, TokView};
use crate::lexer_laws::{
    quote_for, quoted, texts_lex_one_behind_the_other, white_space_parts_texts, writable, written_token_lexes_back,
};
use crate::query::{decimal, parsed, ClausesView, Fault, QueryView, TargetView};
use crate::query_laws::{
    listed, node_ref, queries_are_what_the_grammar_writes, writes_clauses, writes_on, writes_paths,
    writes_target, writes_via, writes_within,
};
use crate::report::{digit, digits};
use crate::text::same_letters;
use vstd::prelude::*;

verus! {

/// The text can be written as a word.
pub open spec fn word_text(w: Seq<char>) -> bool {
    writable(TokView::Word(w))
}

/// The text can be put in quotes.
pub open spec fn quotable(s: Seq<char>) -> bool {
    writable(TokView::Str(s))
}

/// The text of a node reference.
pub open spec fn node_text(kind: Seq<char>, id: Seq<char>) -> Seq<char> {
    kind + seq!['('] + quoted(id) + seq![')']
}

/// The text of a target.
pub open spec fn target_text(to: TargetView) -> Seq<char> {
    match to {
        TargetView::Action(pattern) => node_text("action"@, pattern),
        TargetView::Node { kind, id } => node_text(kind, id),
    }
}

/// Words with commas between them.
pub open spec fn list_text(words: Seq<Seq<char>>) -> Seq<char>
    decreases words.len(),
{
    if words.len() == 0 {
        Seq::empty()
    } else if words.len() == 1 {
        words[0]
    } else {
        words[0] + seq![','] + seq![' '] + list_text(words.drop_first())
    }
}

/// The text of a `VIA` clause, behind a space; nothing where there is none.
pub open spec fn via_text(via: Seq<Seq<char>>) -> Seq<char> {
    if via.len() == 0 {
        Seq::empty()
    } else {
        seq![' '] + ("VIA"@ + seq![' '] + list_text(via))
    }
}

/// The text of a `WITHIN` clause, behind a space; nothing where there is none.
pub open spec fn within_text(within: Option<usize>) -> Seq<char> {
    match within {
        None => Seq::empty(),
        Some(n) => seq![' '] + ("WITHIN"@ + seq![' '] + (digits(n as nat) + seq![' '] + "HOPS"@)),
    }
}

/// The text of an `ON` clause, behind a space; nothing where there is none.
pub open spec fn on_text(on: Option<Seq<char>>) -> Seq<char> {
    match on {
        None => Seq::empty(),
        Some(s) => seq![' '] + ("ON"@ + seq![' '] + node_text("resource"@, s)),
    }
}

/// The text of a `PATHS` query without clauses.
pub open spec fn paths_text(kind: Seq<char>, id: Seq<char>, to: TargetView) -> Seq<char> {
    "PATHS"@ + seq![' '] + ("FROM"@ + seq![' '] + (node_text(kind, id) + seq![' '] + ("TO"@ + seq![' '] + target_text(
        to,
    ))))
}

/// The text of a query.
pub open spec fn query_text(q: QueryView) -> Seq<char> {
    match q {
        QueryView::Paths { from_kind, from_id, to } => paths_text(from_kind, from_id, to),
        QueryView::PathsWith { from_kind, from_id, to, clauses } => paths_text(from_kind, from_id, to) + (via_text(
            clauses.via,
        ) + (within_text(clauses.within) + on_text(clauses.on))),
        QueryView::Escalate { from_kind, from_id } => "ESCALATE"@ + seq![' '] + ("FROM"@ + seq![' '] + node_text(
            from_kind,
            from_id,
        )),
        QueryView::Blast { from_kind, from_id } => "BLAST"@ + seq![' '] + node_text(from_kind, from_id),
    }
}

/// The target can be written.
pub open spec fn target_expressible(to: TargetView) -> bool {
    match to {
        TargetView::Action(pattern) => quotable(pattern),
        TargetView::Node { kind, id } => word_text(kind) && quotable(id) && !same_letters(kind, "action"@),
    }
}

/// The clauses can be written, and there is at least one.
pub open spec fn clauses_expressible(c: ClausesView) -> bool {
    &&& c.via.len() > 0 || c.within is Some || c.on is Some
    &&& forall|i: int| 0 <= i < c.via.len() ==> word_text(#[trigger] c.via[i])
    &&& c.on is Some ==> quotable(c.on->0)
}

/// The query can be written: its kinds are words, its texts can be put in quotes, a node that is a
/// target is not of the kind `action`, and a resource is given for an action alone.
pub open spec fn expressible(q: QueryView) -> bool {
    match q {
        QueryView::Paths { from_kind, from_id, to } => word_text(from_kind) && quotable(from_id)
            && target_expressible(to),
        QueryView::PathsWith { from_kind, from_id, to, clauses } => word_text(from_kind) && quotable(from_id)
            && target_expressible(to) && clauses_expressible(clauses) && (clauses.on is Some ==> to is Action),
        QueryView::Escalate { from_kind, from_id } => word_text(from_kind) && quotable(from_id),
        QueryView::Blast { from_kind, from_id } => word_text(from_kind) && quotable(from_id),
    }
}

/// The text has the tokens.
pub open spec fn lexes(s: Seq<char>, t: Seq<TokView>) -> bool {
    lexed(s) == Ok::<Seq<TokView>, LexError>(t)
}

proof fn lemma_then(a: Seq<char>, x: Seq<TokView>, b: Seq<char>, y: Seq<TokView>)
    requires
        lexes(a, x),
        lexes(b, y),
        b.len() == 0 || !wordy(b[0]),
    ensures
        lexes(a + b, x + y),
{
    texts_lex_one_behind_the_other(a, b);
}

proof fn lemma_spaced(a: Seq<char>, x: Seq<TokView>, b: Seq<char>, y: Seq<TokView>)
    requires
        lexes(a, x),
        lexes(b, y),
    ensures
        lexes(a + seq![' '] + b, x + y),
{
    white_space_parts_texts(a, seq![' '], b);
}

proof fn lemma_behind_space(b: Seq<char>, y: Seq<TokView>)
    requires
        lexes(b, y),
    ensures
        lexes(seq![' '] + b, y),
{
    let none = Seq::<char>::empty();
    assert(lexes(none, Seq::empty()));
    lemma_spaced(none, Seq::empty(), b, y);
    assert(none + seq![' '] + b =~= seq![' '] + b);
    assert(Seq::<TokView>::empty() + y =~= y);
}

proof fn lemma_word(w: Seq<char>)
    requires
        word_text(w),
    ensures
        lexes(w, seq![TokView::Word(w)]),
{
    written_token_lexes_back(TokView::Word(w));
}

/// The keywords are words.
proof fn lemma_keywords()
    ensures
        word_text("PATHS"@),
        word_text("FROM"@),
        word_text("TO"@),
        word_text("ESCALATE"@),
        word_text("BLAST"@),
        word_text("VIA"@),
        word_text("WITHIN"@),
        word_text("HOPS"@),
        word_text("ON"@),
        word_text("action"@),
        word_text("resource"@),
{
    reveal_strlit("PATHS");
    reveal_strlit("FROM");
    reveal_strlit("TO");
    reveal_strlit("ESCALATE");
    reveal_strlit("BLAST");
    reveal_strlit("VIA");
    reveal_strlit("WITHIN");
    reveal_strlit("HOPS");
    reveal_strlit("ON");
    reveal_strlit("action");
    reveal_strlit("resource");
}

proof fn lemma_node_text(kind: Seq<char>, id: Seq<char>)
    requires
        word_text(kind),
        quotable(id),
    ensures
        lexes(node_text(kind, id), node_ref(kind, id)),
{
    let open = seq!['('];
    let shut = seq![')'];
    lemma_word(kind);
    written_token_lexes_back(TokView::LParen);
    written_token_lexes_back(TokView::RParen);
    written_token_lexes_back(TokView::Str(id));
    let k = seq![TokView::Word(kind)];
    let l = seq![TokView::LParen];
    let s = seq![TokView::Str(id)];
    let r = seq![TokView::RParen];
    assert(quoted(id)[0] == quote_for(id));
    lemma_then(kind, k, open, l);
    lemma_then(kind + open, k + l, quoted(id), s);
    lemma_then(kind + open + quoted(id), k + l + s, shut, r);
    assert(k + l + s + r =~= node_ref(kind, id));
}

/// The tokens of a target.
spec fn target_tokens(to: TargetView) -> Seq<TokView> {
    match to {
        TargetView::Action(pattern) => node_ref("action"@, pattern),
        TargetView::Node { kind, id } => node_ref(kind, id),
    }
}

/// The tokens of a `PATHS` query without clauses.
spec fn paths_tokens(kind: Seq<char>, id: Seq<char>, to: TargetView) -> Seq<TokView> {
    seq![TokView::Word("PATHS"@)] + (seq![TokView::Word("FROM"@)] + (node_ref(kind, id) + (seq![TokView::Word("TO"@)]
        + target_tokens(to))))
}

proof fn lemma_paths_text(kind: Seq<char>, id: Seq<char>, to: TargetView)
    requires
        word_text(kind),
        quotable(id),
        target_expressible(to),
    ensures
        lexes(paths_text(kind, id, to), paths_tokens(kind, id, to)),
        paths_tokens(kind, id, to).len() == 11,
{
    lemma_keywords();
    lemma_word("PATHS"@);
    lemma_word("FROM"@);
    lemma_word("TO"@);
    lemma_node_text(kind, id);
    match to {
        TargetView::Action(pattern) => lemma_node_text("action"@, pattern),
        TargetView::Node { kind, id } => lemma_node_text(kind, id),
    }
    let goal = target_tokens(to);
    let a = "TO"@ + seq![' '] + target_text(to);
    lemma_spaced("TO"@, seq![TokView::Word("TO"@)], target_text(to), goal);
    let x = seq![TokView::Word("TO"@)] + goal;
    let b = node_text(kind, id) + seq![' '] + a;
    lemma_spaced(node_text(kind, id), node_ref(kind, id), a, x);
    let y = node_ref(kind, id) + x;
    let c = "FROM"@ + seq![' '] + b;
    lemma_spaced("FROM"@, seq![TokView::Word("FROM"@)], b, y);
    lemma_spaced("PATHS"@, seq![TokView::Word("PATHS"@)], c, seq![TokView::Word("FROM"@)] + y);
}

/// The tokens of a `PATHS` query write it, whatever follows.
proof fn lemma_paths_tokens(kind: Seq<char>, id: Seq<char>, to: TargetView, more: Seq<TokView>)
    requires
        target_expressible(to),
    ensures
        writes_paths(paths_tokens(kind, id, to) + more, kind, id, to),
{
    let t = paths_tokens(kind, id, to) + more;
    let goal = target_tokens(to);
    assert(goal.len() == 4);
    assert(t[0] == TokView::Word("PATHS"@));
    assert(t[1] == TokView::Word("FROM"@));
    assert(t.subrange(2, 6) =~= node_ref(kind, id));
    assert(t[6] == TokView::Word("TO"@));
    assert(t.subrange(7, 11) =~= goal);
    match to {
        TargetView::Action(pattern) => {
            assert(goal[0] == TokView::Word("action"@));
            assert(goal.skip(1) =~= node_ref(Seq::empty(), pattern).skip(1));
        },
        TargetView::Node { kind, id } => {},
    }
    assert(writes_target(t.subrange(7, 11), to));
}

/// A number in digits is read as that number.
pub proof fn digits_read_back(n: nat)
    ensures
        digits(n).len() > 0,
        forall|i: int| 0 <= i < digits(n).len() ==> '0' <= #[trigger] digits(n)[i] && digits(n)[i] <= '9',
        decimal(digits(n)) == n,
    decreases n,
{
    if n < 10 {
        assert(digits(n).drop_last() =~= Seq::empty());
        assert(decimal(Seq::<char>::empty()) == 0);
        assert(digits(n).last() == digit(n));
    } else {
        digits_read_back(n / 10);
        assert(digits(n).drop_last() =~= digits(n / 10));
        assert(digits(n).last() == digit(n % 10));
    }
}

proof fn lemma_list_text(words: Seq<Seq<char>>)
    requires
        words.len() > 0,
        forall|i: int| 0 <= i < words.len() ==> word_text(#[trigger] words[i]),
    ensures
        lexes(list_text(words), listed(words)),
    decreases words.len(),
{
    assert(word_text(words[0]));
    lemma_word(words[0]);
    if words.len() > 1 {
        let rest = words.drop_first();
        assert forall|i: int| 0 <= i < rest.len() implies word_text(#[trigger] rest[i]) by {
            assert(rest[i] == words[i + 1]);
        }
        lemma_list_text(rest);
        written_token_lexes_back(TokView::Comma);
        let w = seq![TokView::Word(words[0])];
        let c = seq![TokView::Comma];
        lemma_then(words[0], w, seq![','], c);
        lemma_spaced(words[0] + seq![','], w + c, list_text(rest), listed(rest));
        assert(w + c =~= seq![TokView::Word(words[0]), TokView::Comma]);
    }
}

/// The tokens of a `VIA` clause.
spec fn via_tokens(via: Seq<Seq<char>>) -> Seq<TokView> {
    if via.len() == 0 {
        Seq::empty()
    } else {
        seq![TokView::Word("VIA"@)] + listed(via)
    }
}

/// The tokens of a `WITHIN` clause.
spec fn within_tokens(within: Option<usize>) -> Seq<TokView> {
    match within {
        None => Seq::empty(),
        Some(n) => seq![TokView::Word("WITHIN"@)] + (seq![TokView::Word(digits(n as nat))] + seq![TokView::Word("HOPS"@)]),
    }
}

/// The tokens of an `ON` clause.
spec fn on_tokens(on: Option<Seq<char>>) -> Seq<TokView> {
    match on {
        None => Seq::empty(),
        Some(s) => seq![TokView::Word("ON"@)] + node_ref("resource"@, s),
    }
}

proof fn lemma_via_text(via: Seq<Seq<char>>)
    requires
        forall|i: int| 0 <= i < via.len() ==> word_text(#[trigger] via[i]),
    ensures
        lexes(via_text(via), via_tokens(via)),
        via_text(via).len() == 0 || via_text(via)[0] == ' ',
        writes_via(via_tokens(via), via),
{
    if via.len() > 0 {
        lemma_keywords();
        lemma_word("VIA"@);
        lemma_list_text(via);
        lemma_spaced("VIA"@, seq![TokView::Word("VIA"@)], list_text(via), listed(via));
        lemma_behind_space("VIA"@ + seq![' '] + list_text(via), via_tokens(via));
        assert(via_tokens(via)[0] == TokView::Word("VIA"@));
        assert(via_tokens(via).skip(1) =~= listed(via));
    }
}

proof fn lemma_within_text(within: Option<usize>)
    ensures
        lexes(within_text(within), within_tokens(within)),
        within_text(within).len() == 0 || within_text(within)[0] == ' ',
        writes_within(within_tokens(within), within),
{
    if within is Some {
        let n = within->0 as nat;
        let d = digits(n);
        lemma_keywords();
        lemma_word("WITHIN"@);
        lemma_word("HOPS"@);
        digits_read_back(n);
        assert('0' <= d[0] && d[0] <= '9');
        lemma_word(d);
        let t = within_tokens(within);
        lemma_spaced(d, seq![TokView::Word(d)], "HOPS"@, seq![TokView::Word("HOPS"@)]);
        lemma_spaced(
            "WITHIN"@,
            seq![TokView::Word("WITHIN"@)],
            d + seq![' '] + "HOPS"@,
            seq![TokView::Word(d)] + seq![TokView::Word("HOPS"@)],
        );
        lemma_behind_space("WITHIN"@ + seq![' '] + (d + seq![' '] + "HOPS"@), t);
        assert(t[0] == TokView::Word("WITHIN"@) && t[1] == TokView::Word(d) && t[2] == TokView::Word("HOPS"@));
    }
}

proof fn lemma_on_text(on: Option<Seq<char>>)
    requires
        on is Some ==> quotable(on->0),
    ensures
        lexes(on_text(on), on_tokens(on)),
        on_text(on).len() == 0 || on_text(on)[0] == ' ',
        writes_on(on_tokens(on), on),
{
    if on is Some {
        let s = on->0;
        lemma_keywords();
        lemma_word("ON"@);
        lemma_node_text("resource"@, s);
        let t = on_tokens(on);
        lemma_spaced("ON"@, seq![TokView::Word("ON"@)], node_text("resource"@, s), node_ref("resource"@, s));
        lemma_behind_space("ON"@ + seq![' '] + node_text("resource"@, s), t);
        assert(t[0] == TokView::Word("ON"@) && t[1] == TokView::Word("resource"@) && t[2] == TokView::LParen && t[3]
            == TokView::Str(s) && t[4] == TokView::RParen);
    }
}

proof fn lemma_escalate(from_kind: Seq<char>, from_id: Seq<char>)
    requires
        expressible((QueryView::Escalate { from_kind, from_id })),
    ensures
        parsed(query_text((QueryView::Escalate { from_kind, from_id }))) == Ok::<QueryView, Fault>((QueryView::Escalate { from_kind, from_id })),
{
    let q = (QueryView::Escalate { from_kind, from_id });
    lemma_keywords();
    lemma_word("ESCALATE"@);
    lemma_word("FROM"@);
    lemma_node_text(from_kind, from_id);
    let f = seq![TokView::Word("FROM"@)];
    let e = seq![TokView::Word("ESCALATE"@)];
    let n = node_ref(from_kind, from_id);
    lemma_spaced("FROM"@, f, node_text(from_kind, from_id), n);
    lemma_spaced("ESCALATE"@, e, "FROM"@ + seq![' '] + node_text(from_kind, from_id), f + n);
    let t = e + (f + n);
    assert(t[0] == TokView::Word("ESCALATE"@) && t[1] == TokView::Word("FROM"@));
    assert(t.skip(2) =~= n);
    queries_are_what_the_grammar_writes(t, q);
}

proof fn lemma_blast(from_kind: Seq<char>, from_id: Seq<char>)
    requires
        expressible((QueryView::Blast { from_kind, from_id })),
    ensures
        parsed(query_text((QueryView::Blast { from_kind, from_id }))) == Ok::<QueryView, Fault>((QueryView::Blast { from_kind, from_id })),
{
    let q = (QueryView::Blast { from_kind, from_id });
    lemma_keywords();
    lemma_word("BLAST"@);
    lemma_node_text(from_kind, from_id);
    let b = seq![TokView::Word("BLAST"@)];
    let n = node_ref(from_kind, from_id);
    lemma_spaced("BLAST"@, b, node_text(from_kind, from_id), n);
    let t = b + n;
    assert(t[0] == TokView::Word("BLAST"@));
    assert(t.skip(1) =~= n);
    queries_are_what_the_grammar_writes(t, q);
}

proof fn lemma_paths(from_kind: Seq<char>, from_id: Seq<char>, to: TargetView)
    requires
        expressible((QueryView::Paths { from_kind, from_id, to })),
    ensures
        parsed(query_text((QueryView::Paths { from_kind, from_id, to }))) == Ok::<QueryView, Fault>((QueryView::Paths { from_kind, from_id, to })),
{
    let q = (QueryView::Paths { from_kind, from_id, to });
    lemma_keywords();
    lemma_paths_text(from_kind, from_id, to);
    let t = paths_tokens(from_kind, from_id, to);
    lemma_paths_tokens(from_kind, from_id, to, Seq::empty());
    assert(t + Seq::<TokView>::empty() =~= t);
    queries_are_what_the_grammar_writes(t, q);
}

proof fn lemma_paths_with(from_kind: Seq<char>, from_id: Seq<char>, to: TargetView, clauses: ClausesView)
    requires
        expressible((QueryView::PathsWith { from_kind, from_id, to, clauses })),
    ensures
        parsed(query_text((QueryView::PathsWith { from_kind, from_id, to, clauses }))) == Ok::<QueryView, Fault>((QueryView::PathsWith { from_kind, from_id, to, clauses })),
{
    let q = (QueryView::PathsWith { from_kind, from_id, to, clauses });
    lemma_keywords();
    lemma_paths_text(from_kind, from_id, to);
    lemma_via_text(clauses.via);
    lemma_within_text(clauses.within);
    lemma_on_text(clauses.on);
    let v = via_tokens(clauses.via);
    let w = within_tokens(clauses.within);
    let o = on_tokens(clauses.on);
    let wt = within_text(clauses.within);
    let ot = on_text(clauses.on);
    let vt = via_text(clauses.via);
    lemma_then(wt, w, ot, o);
    assert((wt + ot).len() == 0 || (wt + ot)[0] == ' ');
    lemma_then(vt, v, wt + ot, w + o);
    assert((vt + (wt + ot)).len() == 0 || (vt + (wt + ot))[0] == ' ');
    let p = paths_tokens(from_kind, from_id, to);
    let more = v + (w + o);
    lemma_then(paths_text(from_kind, from_id, to), p, vt + (wt + ot), more);
    let t = p + more;
    lemma_paths_tokens(from_kind, from_id, to, more);
    assert(t.skip(11) =~= more);
    let a = v.len() as int;
    let b = a + w.len();
    assert(more.subrange(0, a) =~= v);
    assert(more.subrange(a, b) =~= w);
    assert(more.skip(b) =~= o);
    assert(writes_clauses(t.skip(11), clauses, a, b));
    assert(t.len() > 11);
    queries_are_what_the_grammar_writes(t, q);
}

/// Every query that can be written is read back from its text, with kinds and ids as they are.
pub proof fn written_queries_parse_back(q: QueryView)
    requires
        expressible(q),
    ensures
        parsed(query_text(q)) == Ok::<QueryView, Fault>(q),
{
    match q {
        QueryView::Escalate { from_kind, from_id } => lemma_escalate(from_kind, from_id),
        QueryView::Blast { from_kind, from_id } => lemma_blast(from_kind, from_id),
        QueryView::Paths { from_kind, from_id, to } => lemma_paths(from_kind, from_id, to),
        QueryView::PathsWith { from_kind, from_id, to, clauses } => lemma_paths_with(from_kind, from_id, to, clauses),
    }
}

} // verus!

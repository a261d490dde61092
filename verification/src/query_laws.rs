//! Laws of OQL: a text is read as a query exactly if its tokens are those that the grammar writes
//! for the query.
use crate::lexer::{blank, lexed, TokView};
use crate::lexer_laws::{texts_without_tokens_are_blank, white_space_parts_texts};
use crate::query::{
    at, clauses_at, decimal, is_keyword, is_number, node_at, on_at, parsed, parsed_tokens,
    target_of, via_at, within_at, words_at, words_behind, ClausesView, Fault, QueryView, TargetView,
};
use crate::text::{same_letters, upper};
use vstd::prelude::*;

verus! {

/// The tokens of a node reference.
pub open spec fn node_ref(kind: Seq<char>, id: Seq<char>) -> Seq<TokView> {
    seq![TokView::Word(kind), TokView::LParen, TokView::Str(id), TokView::RParen]
}

/// The tokens of one or more words with commas between them.
pub open spec fn listed(words: Seq<Seq<char>>) -> Seq<TokView>
    decreases words.len(),
{
    if words.len() == 0 {
        Seq::empty()
    } else if words.len() == 1 {
        seq![TokView::Word(words[0])]
    } else {
        seq![TokView::Word(words[0]), TokView::Comma] + listed(words.drop_first())
    }
}

/// The tokens write a target.
pub open spec fn writes_target(t: Seq<TokView>, to: TargetView) -> bool {
    match to {
        TargetView::Action(pattern) => t.len() == 4 && is_keyword(at(t, 0), "action"@) && t.skip(1) == node_ref(
            Seq::empty(),
            pattern,
        ).skip(1),
        TargetView::Node { kind, id } => t == node_ref(kind, id) && !same_letters(kind, "action"@),
    }
}

/// The tokens write a `VIA` clause with the given edge kinds; no tokens write none.
pub open spec fn writes_via(t: Seq<TokView>, via: Seq<Seq<char>>) -> bool {
    if via.len() == 0 {
        t.len() == 0
    } else {
        t.len() > 0 && is_keyword(at(t, 0), "VIA"@) && t.skip(1) == listed(via)
    }
}

/// The tokens write a `WITHIN` clause with the given number of hops; no tokens write none.
pub open spec fn writes_within(t: Seq<TokView>, within: Option<usize>) -> bool {
    match within {
        None => t.len() == 0,
        Some(n) => {
            &&& t.len() == 3
            &&& is_keyword(at(t, 0), "WITHIN"@)
            &&& t[1] is Word && is_number(t[1]->Word_0) && decimal(t[1]->Word_0) == n
            &&& is_keyword(at(t, 2), "HOPS"@)
        },
    }
}

/// The tokens write an `ON` clause with the given resource; no tokens write none.
pub open spec fn writes_on(t: Seq<TokView>, on: Option<Seq<char>>) -> bool {
    match on {
        None => t.len() == 0,
        Some(s) => {
            &&& t.len() == 5
            &&& is_keyword(at(t, 0), "ON"@)
            &&& is_keyword(at(t, 1), "resource"@)
            &&& t[2] == TokView::LParen
            &&& t[3] == TokView::Str(s)
            &&& t[4] == TokView::RParen
        },
    }
}

/// The tokens, parted at `a` and `b`, write the clauses in their order.
pub open spec fn writes_clauses(t: Seq<TokView>, c: ClausesView, a: int, b: int) -> bool {
    &&& 0 <= a <= b <= t.len()
    &&& writes_via(t.subrange(0, a), c.via)
    &&& writes_within(t.subrange(a, b), c.within)
    &&& writes_on(t.skip(b), c.on)
}

/// The first eleven tokens write a `PATHS` query without clauses.
pub open spec fn writes_paths(t: Seq<TokView>, kind: Seq<char>, id: Seq<char>, to: TargetView) -> bool {
    &&& t.len() >= 11
    &&& is_keyword(at(t, 0), "PATHS"@)
    &&& is_keyword(at(t, 1), "FROM"@)
    &&& t.subrange(2, 6) == node_ref(kind, id)
    &&& is_keyword(at(t, 6), "TO"@)
    &&& writes_target(t.subrange(7, 11), to)
}

/// The tokens write a query.
pub open spec fn writes(t: Seq<TokView>, q: QueryView) -> bool {
    match q {
        QueryView::Paths { from_kind, from_id, to } => t.len() == 11 && writes_paths(t, from_kind, from_id, to),
        QueryView::PathsWith { from_kind, from_id, to, clauses } => {
            &&& t.len() > 11
            &&& writes_paths(t, from_kind, from_id, to)
            &&& exists|a: int, b: int| #[trigger] writes_clauses(t.skip(11), clauses, a, b)
            &&& clauses.on is Some ==> to is Action
        },
        QueryView::Escalate { from_kind, from_id } => {
            &&& t.len() == 6
            &&& is_keyword(at(t, 0), "ESCALATE"@)
            &&& is_keyword(at(t, 1), "FROM"@)
            &&& t.skip(2) == node_ref(from_kind, from_id)
        },
        QueryView::Blast { from_kind, from_id } => {
            &&& t.len() == 5
            &&& is_keyword(at(t, 0), "BLAST"@)
            &&& t.skip(1) == node_ref(from_kind, from_id)
        },
    }
}

/// The keywords that a query may begin with are in upper case, and differ.
pub proof fn lemma_heads()
    ensures
        upper("PATHS"@) == "PATHS"@,
        upper("ESCALATE"@) == "ESCALATE"@,
        upper("BLAST"@) == "BLAST"@,
        "PATHS"@ != "ESCALATE"@,
        "PATHS"@ != "BLAST"@,
        "ESCALATE"@ != "BLAST"@,
{
    reveal_strlit("PATHS");
    reveal_strlit("ESCALATE");
    reveal_strlit("BLAST");
    assert("PATHS"@.len() == 5);
    assert("ESCALATE"@.len() == 8);
    assert("BLAST"@.len() == 5);
    assert("PATHS"@[0] == 'P');
    assert("BLAST"@[0] == 'B');
    assert(upper("PATHS"@) =~= "PATHS"@);
    assert(upper("ESCALATE"@) =~= "ESCALATE"@);
    assert(upper("BLAST"@) =~= "BLAST"@);
}

/// The keywords of the clauses differ.
pub proof fn lemma_clause_heads()
    ensures
        upper("VIA"@) != upper("WITHIN"@),
        upper("VIA"@) != upper("ON"@),
        upper("WITHIN"@) != upper("ON"@),
{
    reveal_strlit("VIA");
    reveal_strlit("WITHIN");
    reveal_strlit("ON");
    assert("VIA"@.len() == 3);
    assert("WITHIN"@.len() == 6);
    assert("ON"@.len() == 2);
    assert(upper("VIA"@).len() == 3);
    assert(upper("WITHIN"@).len() == 6);
    assert(upper("ON"@).len() == 2);
}

pub proof fn lemma_node_at(t: Seq<TokView>, i: int, kind: Seq<char>, id: Seq<char>)
    requires
        0 <= i,
    ensures
        node_at(t, i) == Ok::<(Seq<char>, Seq<char>), Fault>((kind, id)) <==> i + 4 <= t.len() && t.subrange(i, i + 4)
            == node_ref(kind, id),
{
    if i + 4 <= t.len() {
        let s = t.subrange(i, i + 4);
        assert(s[0] == t[i] && s[1] == t[i + 1] && s[2] == t[i + 2] && s[3] == t[i + 3]);
        if node_at(t, i) == Ok::<(Seq<char>, Seq<char>), Fault>((kind, id)) {
            assert(s =~= node_ref(kind, id));
        }
        if s == node_ref(kind, id) {
            assert(node_ref(kind, id)[0] == TokView::Word(kind));
            assert(node_ref(kind, id)[1] == TokView::LParen);
            assert(node_ref(kind, id)[2] == TokView::Str(id));
            assert(node_ref(kind, id)[3] == TokView::RParen);
        }
    }
}

/// The words at a place are a list, with no comma behind it.
pub proof fn lemma_words_at(t: Seq<TokView>, i: int, words: Seq<Seq<char>>, end: int)
    requires
        0 <= i,
    ensures
        words_at(t, i) == Ok::<(Seq<Seq<char>>, int), Fault>((words, end)) <==> {
            &&& words.len() > 0
            &&& i <= end <= t.len()
            &&& t.subrange(i, end) == listed(words)
            &&& at(t, end) != Some(TokView::Comma)
        },
    decreases words.len(),
{
    if words_at(t, i) == Ok::<(Seq<Seq<char>>, int), Fault>((words, end)) {
        let w = t[i]->Word_0;
        assert(at(t, i) == Some(TokView::Word(w)));
        if at(t, i + 1) == Some(TokView::Comma) {
            let rest = words_at(t, i + 2)->Ok_0.0;
            assert(words == seq![w] + rest);
            assert(words.drop_first() =~= rest);
            lemma_words_at(t, i + 2, rest, end);
            assert(words[0] == w);
            assert(t.subrange(i, end) =~= seq![TokView::Word(w), TokView::Comma] + t.subrange(i + 2, end));
        } else {
            assert(words == seq![w]);
            assert(t.subrange(i, end) =~= seq![TokView::Word(w)]);
        }
    }
    if words.len() > 0 && i <= end <= t.len() && t.subrange(i, end) == listed(words) && at(t, end) != Some(
        TokView::Comma,
    ) {
        let l = listed(words);
        let w = words[0];
        if words.len() == 1 {
            assert(l.len() == 1 && l[0] == TokView::Word(w));
            assert(t.subrange(i, end)[0] == t[i]);
            assert(words =~= seq![w]);
        } else {
            let rest = words.drop_first();
            assert(l == seq![TokView::Word(w), TokView::Comma] + listed(rest));
            assert(l[0] == TokView::Word(w) && l[1] == TokView::Comma);
            assert(t.subrange(i, end)[0] == t[i] && t.subrange(i, end)[1] == t[i + 1]);
            assert(t.subrange(i + 2, end) =~= t.subrange(i, end).skip(2));
            assert(l.skip(2) =~= listed(rest));
            lemma_words_at(t, i + 2, rest, end);
            assert(seq![w] + rest =~= words);
        }
    }
}

pub proof fn lemma_via_at(t: Seq<TokView>, i: int, via: Seq<Seq<char>>, end: int)
    requires
        0 <= i <= t.len(),
    ensures
        via_at(t, i) == Ok::<(Seq<Seq<char>>, int), Fault>((via, end)) <==> {
            &&& i <= end <= t.len()
            &&& writes_via(t.subrange(i, end), via)
            &&& via.len() == 0 ==> !is_keyword(at(t, i), "VIA"@)
            &&& via.len() > 0 ==> at(t, end) != Some(TokView::Comma)
        },
{
    lemma_words_at(t, i + 1, via, end);
    if via.len() == 0 {
        assert(via =~= Seq::empty());
    }
    if i < end <= t.len() {
        assert(t.subrange(i, end)[0] == t[i]);
        assert(t.subrange(i, end).skip(1) =~= t.subrange(i + 1, end));
    }
    if via.len() > 0 && i <= end <= t.len() {
        reveal_with_fuel(listed, 2);
    }
}

/// A number is not negative.
proof fn lemma_decimal(w: Seq<char>)
    requires
        forall|i: int| 0 <= i < w.len() ==> '0' <= #[trigger] w[i] && w[i] <= '9',
    ensures
        decimal(w) >= 0,
    decreases w.len(),
{
    if w.len() > 0 {
        assert('0' <= w[w.len() - 1]);
        assert forall|i: int| 0 <= i < w.len() - 1 implies '0' <= #[trigger] w.drop_last()[i] && w.drop_last()[i] <= '9' by {
            assert(w.drop_last()[i] == w[i]);
        }
        lemma_decimal(w.drop_last());
    }
}

pub proof fn lemma_within_at(t: Seq<TokView>, i: int, within: Option<usize>, end: int)
    requires
        0 <= i <= t.len(),
    ensures
        within_at(t, i) == Ok::<(Option<usize>, int), Fault>((within, end)) <==> {
            &&& i <= end <= t.len()
            &&& writes_within(t.subrange(i, end), within)
            &&& within is None ==> !is_keyword(at(t, i), "WITHIN"@)
        },
{
    if i + 3 == end <= t.len() {
        let s = t.subrange(i, end);
        assert(s[0] == t[i] && s[1] == t[i + 1] && s[2] == t[i + 2]);
        if t[i + 1] is Word && is_number(t[i + 1]->Word_0) {
            lemma_decimal(t[i + 1]->Word_0);
        }
    }
}

pub proof fn lemma_on_at(t: Seq<TokView>, i: int, on: Option<Seq<char>>, end: int)
    requires
        0 <= i <= t.len(),
    ensures
        on_at(t, i) == Ok::<(Option<Seq<char>>, int), Fault>((on, end)) <==> {
            &&& i <= end <= t.len()
            &&& writes_on(t.subrange(i, end), on)
            &&& on is None ==> !is_keyword(at(t, i), "ON"@)
        },
{
    if i + 5 == end <= t.len() {
        let s = t.subrange(i, end);
        assert(s[0] == t[i] && s[1] == t[i + 1] && s[2] == t[i + 2] && s[3] == t[i + 3] && s[4] == t[i + 4]);
    }
}

/// The clauses that fill the rest of the tokens are those that it writes.
proof fn lemma_clauses_at(t: Seq<TokView>, i: int, c: ClausesView)
    requires
        0 <= i <= t.len(),
    ensures
        clauses_at(t, i) == Ok::<(ClausesView, int), Fault>((c, t.len() as int)) <==> exists|a: int, b: int|
            #[trigger] writes_clauses(t.skip(i), c, a, b),
{
    let n = t.len() as int;
    let s = t.skip(i);
    if clauses_at(t, i) == Ok::<(ClausesView, int), Fault>((c, n)) {
        let j = via_at(t, i)->Ok_0.1;
        lemma_via_at(t, i, c.via, j);
        let k = within_at(t, j)->Ok_0.1;
        lemma_within_at(t, j, c.within, k);
        lemma_on_at(t, k, c.on, n);
        assert(s.subrange(0, j - i) =~= t.subrange(i, j));
        assert(s.subrange(j - i, k - i) =~= t.subrange(j, k));
        assert(s.skip(k - i) =~= t.subrange(k, n));
        assert(writes_clauses(s, c, j - i, k - i));
    }
    if exists|a: int, b: int| #[trigger] writes_clauses(s, c, a, b) {
        let (a, b) = choose|a: int, b: int| #[trigger] writes_clauses(s, c, a, b);
        let j = i + a;
        let k = i + b;
        lemma_clause_heads();
        assert(s.subrange(0, a) =~= t.subrange(i, j));
        assert(s.subrange(a, b) =~= t.subrange(j, k));
        assert(s.skip(b) =~= t.subrange(k, n));
        if c.on is Some {
            assert(t.subrange(k, n)[0] == t[k]);
            assert(is_keyword(at(t, k), "ON"@));
        } else {
            assert(k == n);
        }
        if c.within is Some {
            assert(t.subrange(j, k)[0] == t[j]);
            assert(is_keyword(at(t, j), "WITHIN"@));
        } else {
            assert(j == k);
        }
        if c.via.len() == 0 {
            assert(i == j);
        }
        assert(at(t, j) is Some ==> at(t, j)->0 is Word);
        lemma_via_at(t, i, c.via, j);
        lemma_within_at(t, j, c.within, k);
        lemma_on_at(t, k, c.on, n);
    }
}

/// The target of a reference is what the tokens of the reference write.
pub proof fn lemma_target(t: Seq<TokView>, kind: Seq<char>, id: Seq<char>)
    requires
        t == node_ref(kind, id),
    ensures
        writes_target(t, target_of(kind, id)),
        forall|to: TargetView| writes_target(t, to) ==> to == target_of(kind, id),
{
    assert(t[0] == TokView::Word(kind) && t[1] == TokView::LParen && t[2] == TokView::Str(id) && t[3]
        == TokView::RParen);
    assert(t.skip(1) =~= node_ref(Seq::empty(), id).skip(1));
    assert forall|to: TargetView| writes_target(t, to) implies to == target_of(kind, id) by {
        match to {
            TargetView::Action(pattern) => {
                assert(t.skip(1)[1] == TokView::Str(id));
                assert(node_ref(Seq::empty(), pattern).skip(1)[1] == TokView::Str(pattern));
            },
            TargetView::Node { kind: k, id: j } => {
                assert(node_ref(k, j)[0] == TokView::Word(k));
                assert(node_ref(k, j)[2] == TokView::Str(j));
            },
        }
    }
}

/// Tokens that write a target are a node reference.
pub proof fn lemma_target_is_ref(t: Seq<TokView>, to: TargetView) -> (r: (Seq<char>, Seq<char>))
    requires
        writes_target(t, to),
    ensures
        t == node_ref(r.0, r.1),
{
    match to {
        TargetView::Action(pattern) => {
            let kind = t[0]->Word_0;
            let p = node_ref(Seq::empty(), pattern).skip(1);
            assert(t[1] == t.skip(1)[0] && t[2] == t.skip(1)[1] && t[3] == t.skip(1)[2]);
            assert(p[0] == TokView::LParen && p[1] == TokView::Str(pattern) && p[2] == TokView::RParen);
            assert(t =~= node_ref(kind, pattern));
            (kind, pattern)
        },
        TargetView::Node { kind, id } => (kind, id),
    }
}

/// The tokens that are read as a query are exactly those that the grammar writes for it, whatever
/// the case of the keywords.
pub proof fn queries_are_what_the_grammar_writes(t: Seq<TokView>, q: QueryView)
    ensures
        parsed_tokens(t) == Ok::<QueryView, Fault>(q) <==> writes(t, q),
{
    lemma_heads();
    if parsed_tokens(t) == Ok::<QueryView, Fault>(q) {
        let head = t[0]->Word_0;
        assert(at(t, 0) == Some(TokView::Word(head)));
        match q {
            QueryView::Escalate { from_kind, from_id } => {
                lemma_node_at(t, 2, from_kind, from_id);
                assert(t.skip(2) =~= t.subrange(2, 6));
            },
            QueryView::Blast { from_kind, from_id } => {
                lemma_node_at(t, 1, from_kind, from_id);
                assert(t.skip(1) =~= t.subrange(1, 5));
            },
            QueryView::Paths { from_kind, from_id, to } => {
                lemma_node_at(t, 2, from_kind, from_id);
                let (kind, id) = node_at(t, 7)->Ok_0;
                lemma_node_at(t, 7, kind, id);
                lemma_target(t.subrange(7, 11), kind, id);
            },
            QueryView::PathsWith { from_kind, from_id, to, clauses } => {
                lemma_node_at(t, 2, from_kind, from_id);
                let (kind, id) = node_at(t, 7)->Ok_0;
                lemma_node_at(t, 7, kind, id);
                lemma_target(t.subrange(7, 11), kind, id);
                lemma_clauses_at(t, 11, clauses);
                assert(clauses_at(t, 11) == Ok::<(ClausesView, int), Fault>((clauses, t.len() as int)));
                assert(t.len() > 11) by {
                    let (a, b) = choose|a: int, b: int| #[trigger] writes_clauses(t.skip(11), clauses, a, b);
                    assert(writes_clauses(t.skip(11), clauses, a, b));
                }
            },
        }
    }
    if writes(t, q) {
        let head = t[0]->Word_0;
        assert(at(t, 0) == Some(TokView::Word(head)));
        match q {
            QueryView::Escalate { from_kind, from_id } => {
                assert(t.skip(2) =~= t.subrange(2, 6));
                lemma_node_at(t, 2, from_kind, from_id);
            },
            QueryView::Blast { from_kind, from_id } => {
                assert(t.skip(1) =~= t.subrange(1, 5));
                lemma_node_at(t, 1, from_kind, from_id);
            },
            QueryView::Paths { from_kind, from_id, to } => {
                lemma_node_at(t, 2, from_kind, from_id);
                let (kind, id) = lemma_target_is_ref(t.subrange(7, 11), to);
                lemma_node_at(t, 7, kind, id);
                lemma_target(t.subrange(7, 11), kind, id);
            },
            QueryView::PathsWith { from_kind, from_id, to, clauses } => {
                lemma_node_at(t, 2, from_kind, from_id);
                let (kind, id) = lemma_target_is_ref(t.subrange(7, 11), to);
                lemma_node_at(t, 7, kind, id);
                lemma_target(t.subrange(7, 11), kind, id);
                lemma_clauses_at(t, 11, clauses);
            },
        }
    }
}

/// White space before a query does not change it.
pub proof fn space_before_is_skipped(c: char, s: Seq<char>)
    requires
        blank(c),
    ensures
        parsed(seq![c] + s) == parsed(s),
{
    let t = seq![c] + s;
    assert(t[0] == c);
    assert(t.drop_first() =~= s);
}

// ---- What follows a query ----

/// The tokens write more words of a list: each behind a comma; no tokens write none.
pub open spec fn writes_more_words(t: Seq<TokView>, words: Seq<Seq<char>>) -> bool {
    if words.len() == 0 {
        t.len() == 0
    } else {
        t.len() > 0 && t[0] == TokView::Comma && t.skip(1) == listed(words)
    }
}

/// The tokens, parted at `a` and `b`, write what may follow a `VIA` list: more words of the list, a
/// `WITHIN` clause and an `ON` clause.
pub open spec fn writes_rest(
    t: Seq<TokView>,
    words: Seq<Seq<char>>,
    within: Option<usize>,
    on: Option<Seq<char>>,
    a: int,
    b: int,
) -> bool {
    &&& 0 <= a <= b <= t.len()
    &&& writes_more_words(t.subrange(0, a), words)
    &&& writes_within(t.subrange(a, b), within)
    &&& writes_on(t.skip(b), on)
}

/// The tokens go on with the query to another one: they write clauses that are yet to come, or more
/// kinds of a `VIA` list at its end.
pub open spec fn extends(q: QueryView, u: Seq<TokView>) -> bool {
    match q {
        QueryView::Escalate { .. } => false,
        QueryView::Blast { .. } => false,
        QueryView::Paths { to, .. } => exists|c: ClausesView, a: int, b: int| #[trigger]
            writes_clauses(u, c, a, b) && (c.on is Some ==> to is Action),
        QueryView::PathsWith { to, clauses, .. } => if clauses.on is Some {
            false
        } else if clauses.within is Some {
            to is Action && exists|s: Seq<char>| #[trigger] writes_on(u, Some(s))
        } else {
            exists|words: Seq<Seq<char>>, within: Option<usize>, on: Option<Seq<char>>, a: int, b: int| #[trigger]
                writes_rest(u, words, within, on, a, b) && (on is Some ==> to is Action)
        },
    }
}

proof fn lemma_node_prefix(t: Seq<TokView>, u: Seq<TokView>, i: int)
    requires
        0 <= i,
        node_at(t, i) is Ok,
    ensures
        i + 4 <= t.len(),
        node_at(t + u, i) == node_at(t, i),
{
    let (kind, id) = node_at(t, i)->Ok_0;
    lemma_node_at(t, i, kind, id);
    assert((t + u).subrange(i, i + 4) =~= t.subrange(i, i + 4));
    lemma_node_at(t + u, i, kind, id);
}

/// A list at the end of tokens goes on over a comma behind them.
proof fn lemma_words_go_on(t: Seq<TokView>, u: Seq<TokView>, i: int, words: Seq<Seq<char>>)
    requires
        0 <= i,
        words_at(t, i) == Ok::<(Seq<Seq<char>>, int), Fault>((words, t.len() as int)),
        u.len() > 0,
        u[0] == TokView::Comma,
    ensures
        words_at(t + u, i) == words_behind(words, words_at(t + u, t.len() as int + 1)),
    decreases t.len() - i,
{
    let x = t + u;
    let n = t.len() as int;
    let w = t[i]->Word_0;
    assert(at(t, i) == Some(TokView::Word(w)));
    assert(x[i] == t[i]);
    if at(t, i + 1) == Some(TokView::Comma) {
        assert(x[i + 1] == t[i + 1]);
        let rest = words_at(t, i + 2)->Ok_0.0;
        lemma_words_go_on(t, u, i + 2, rest);
        if let Ok((more, end)) = words_at(x, n + 1) {
            assert(seq![w] + (rest + more) =~= (seq![w] + rest) + more);
        }
    } else {
        assert(n == i + 1);
        assert(x[n] == u[0]);
    }
}

/// The tokens from a place on to the end are a `WITHIN` clause and an `ON` clause, as far as there
/// are such.
proof fn lemma_tail_at(x: Seq<TokView>, i: int, within: Option<usize>, on: Option<Seq<char>>)
    requires
        0 <= i <= x.len(),
    ensures
        (exists|k: int|
            within_at(x, i) == Ok::<(Option<usize>, int), Fault>((within, k)) && #[trigger] on_at(x, k) == Ok::<
                (Option<Seq<char>>, int),
                Fault,
            >((on, x.len() as int))) <==> exists|b: int|
            i <= b <= x.len() && #[trigger] writes_within(x.subrange(i, b), within) && writes_on(x.skip(b), on),
{
    let n = x.len() as int;
    if exists|k: int|
        within_at(x, i) == Ok::<(Option<usize>, int), Fault>((within, k)) && #[trigger] on_at(x, k) == Ok::<
            (Option<Seq<char>>, int),
            Fault,
        >((on, n)) {
        let k = choose|k: int|
            within_at(x, i) == Ok::<(Option<usize>, int), Fault>((within, k)) && #[trigger] on_at(x, k) == Ok::<
                (Option<Seq<char>>, int),
                Fault,
            >((on, n));
        lemma_within_at(x, i, within, k);
        lemma_on_at(x, k, on, n);
        assert(x.skip(k) =~= x.subrange(k, n));
        assert(writes_within(x.subrange(i, k), within));
    }
    if exists|b: int| i <= b <= n && #[trigger] writes_within(x.subrange(i, b), within) && writes_on(x.skip(b), on) {
        let b = choose|b: int|
            i <= b <= n && #[trigger] writes_within(x.subrange(i, b), within) && writes_on(x.skip(b), on);
        lemma_clause_heads();
        assert(x.skip(b) =~= x.subrange(b, n));
        if on is Some {
            assert(x.subrange(b, n)[0] == x[b]);
        }
        if within is Some {
            assert(x.subrange(i, b)[0] == x[i]);
        }
        lemma_within_at(x, i, within, b);
        lemma_on_at(x, b, on, n);
        assert(on_at(x, b) == Ok::<(Option<Seq<char>>, int), Fault>((on, n)));
    }
}

/// A query with tokens behind it is read by its clauses.
proof fn lemma_longer(t: Seq<TokView>, u: Seq<TokView>, q: QueryView, to: TargetView)
    requires
        parsed_tokens(t) == Ok::<QueryView, Fault>(q),
        u.len() > 0,
        match q {
            QueryView::Paths { to: goal, .. } => goal == to,
            QueryView::PathsWith { to: goal, .. } => goal == to,
            _ => false,
        },
    ensures
        t.len() >= 11,
        clauses_at(t, 11) is Ok,
        clauses_at(t, 11)->Ok_0.1 == t.len(),
        q is Paths ==> t.len() == 11,
        q is PathsWith ==> t.len() > 11 && q->clauses == clauses_at(t, 11)->Ok_0.0,
        parsed_tokens(t + u) is Ok <==> clauses_at(t + u, 11) is Ok && clauses_at(t + u, 11)->Ok_0.1 == (t + u).len() && (
        clauses_at(t + u, 11)->Ok_0.0.on is Some ==> to is Action),
{
    let x = t + u;
    lemma_heads();
    let head = t[0]->Word_0;
    assert(at(t, 0) == Some(TokView::Word(head)));
    assert(x[0] == t[0]);
    lemma_node_prefix(t, u, 2);
    lemma_node_prefix(t, u, 7);
    assert(x[1] == t[1] && x[6] == t[6]);
    let (c, end) = clauses_at(t, 11)->Ok_0;
    if q is PathsWith {
        queries_are_what_the_grammar_writes(t, q);
    }
}

/// The tokens behind a `PATHS` query whose clauses end in a `VIA` list go on with it or are at
/// fault.
proof fn lemma_behind_list(t: Seq<TokView>, u: Seq<TokView>, c: ClausesView, d: ClausesView)
    requires
        t.len() > 11,
        u.len() > 0,
        clauses_at(t, 11) == Ok::<(ClausesView, int), Fault>((c, t.len() as int)),
        c.within is None,
        c.on is None,
    ensures
        clauses_at(t + u, 11) == Ok::<(ClausesView, int), Fault>((d, (t + u).len() as int)) ==> exists|
            words: Seq<Seq<char>>,
            a: int,
            b: int,
        | #[trigger] writes_rest(u, words, d.within, d.on, a, b),
        forall|words: Seq<Seq<char>>, within: Option<usize>, on: Option<Seq<char>>, a: int, b: int| #[trigger]
            writes_rest(u, words, within, on, a, b) ==> clauses_at(t + u, 11) == Ok::<(ClausesView, int), Fault>(
                (ClausesView { via: c.via + words, within, on }, (t + u).len() as int),
            ),
{
    let x = t + u;
    let n = t.len() as int;
    let m = x.len() as int;
    let j = via_at(t, 11)->Ok_0.1;
    lemma_via_at(t, 11, c.via, j);
    lemma_within_at(t, j, c.within, within_at(t, j)->Ok_0.1);
    assert(j == n);
    assert(c.via.len() > 0);
    lemma_words_at(t, 12, c.via, n);
    assert(x[11] == t[11]);
    assert(x[n] == u[0]);
    lemma_clause_heads();
    if u[0] == TokView::Comma {
        lemma_words_go_on(t, u, 12, c.via);
        let after = words_at(x, n + 1);
        assert(via_at(x, 11) == words_behind(c.via, after));
        if clauses_at(x, 11) == Ok::<(ClausesView, int), Fault>((d, m)) {
            let (words, e) = after->Ok_0;
            lemma_words_at(x, n + 1, words, e);
            let k = within_at(x, e)->Ok_0.1;
            assert(on_at(x, k) == Ok::<(Option<Seq<char>>, int), Fault>((d.on, m)));
            lemma_tail_at(x, e, d.within, d.on);
            let b = choose|b: int|
                e <= b <= m && #[trigger] writes_within(x.subrange(e, b), d.within) && writes_on(x.skip(b), d.on);
            assert(u.subrange(0, e - n).skip(1) =~= x.subrange(n + 1, e));
            assert(u.subrange(e - n, b - n) =~= x.subrange(e, b));
            assert(u.skip(b - n) =~= x.skip(b));
            assert(writes_rest(u, words, d.within, d.on, e - n, b - n));
        }
    } else {
        assert(x.subrange(12, n) =~= t.subrange(12, n));
        lemma_words_at(x, 12, c.via, n);
        assert(via_at(x, 11) == Ok::<(Seq<Seq<char>>, int), Fault>((c.via, n)));
        if clauses_at(x, 11) == Ok::<(ClausesView, int), Fault>((d, m)) {
            let k = within_at(x, n)->Ok_0.1;
            assert(on_at(x, k) == Ok::<(Option<Seq<char>>, int), Fault>((d.on, m)));
            lemma_tail_at(x, n, d.within, d.on);
            let b = choose|b: int|
                n <= b <= m && #[trigger] writes_within(x.subrange(n, b), d.within) && writes_on(x.skip(b), d.on);
            assert(u.subrange(0, b - n) =~= x.subrange(n, b));
            assert(u.skip(b - n) =~= x.skip(b));
            assert(writes_more_words(u.subrange(0, 0), Seq::empty()));
            assert(writes_rest(u, Seq::empty(), d.within, d.on, 0, b - n));
        }
    }
    assert forall|words: Seq<Seq<char>>, within: Option<usize>, on: Option<Seq<char>>, a: int, b: int| #[trigger]
        writes_rest(u, words, within, on, a, b) implies clauses_at(x, 11) == Ok::<(ClausesView, int), Fault>(
        (ClausesView { via: c.via + words, within, on }, m),
    ) by {
        let e = n + a;
        assert(u.subrange(a, b) =~= x.subrange(e, n + b));
        assert(u.skip(b) =~= x.skip(n + b));
        assert(writes_within(x.subrange(e, n + b), within));
        lemma_tail_at(x, e, within, on);
        let k = choose|k: int|
            within_at(x, e) == Ok::<(Option<usize>, int), Fault>((within, k)) && #[trigger] on_at(x, k) == Ok::<
                (Option<Seq<char>>, int),
                Fault,
            >((on, m));
        if within is Some {
            assert(x.subrange(e, n + b)[0] == x[e]);
        } else if on is Some {
            assert(x.skip(n + b)[0] == x[e]);
        } else {
            assert(e == m);
        }
        assert(at(x, e) != Some(TokView::Comma));
        if words.len() > 0 {
            assert(u.subrange(0, a)[0] == u[0]);
            assert(u.subrange(0, a).skip(1) =~= x.subrange(n + 1, e));
            lemma_words_at(x, n + 1, words, e);
        } else {
            assert(a == 0);
            assert(c.via + words =~= c.via);
        }
    }
}

/// Tokens behind a query make a query exactly if they go on with it.
proof fn lemma_extended(t: Seq<TokView>, u: Seq<TokView>, q: QueryView)
    requires
        parsed_tokens(t) == Ok::<QueryView, Fault>(q),
        u.len() > 0,
    ensures
        parsed_tokens(t + u) is Ok <==> extends(q, u),
{
    let x = t + u;
    let n = t.len() as int;
    let m = x.len() as int;
    match q {
        QueryView::Escalate { .. } => {
            lemma_heads();
            let head = t[0]->Word_0;
            assert(at(t, 0) == Some(TokView::Word(head)));
            assert(x[0] == t[0]);
            lemma_node_prefix(t, u, 2);
            assert(x[1] == t[1]);
        },
        QueryView::Blast { .. } => {
            lemma_heads();
            let head = t[0]->Word_0;
            assert(at(t, 0) == Some(TokView::Word(head)));
            assert(x[0] == t[0]);
            lemma_node_prefix(t, u, 1);
        },
        QueryView::Paths { to, .. } => {
            lemma_longer(t, u, q, to);
            assert(x.skip(11) =~= u);
            if parsed_tokens(x) is Ok {
                let c = clauses_at(x, 11)->Ok_0.0;
                lemma_clauses_at(x, 11, c);
                let (a, b) = choose|a: int, b: int| #[trigger] writes_clauses(x.skip(11), c, a, b);
                assert(writes_clauses(u, c, a, b));
            }
            if extends(q, u) {
                let (c, a, b) = choose|c: ClausesView, a: int, b: int| #[trigger]
                    writes_clauses(u, c, a, b) && (c.on is Some ==> to is Action);
                assert(writes_clauses(x.skip(11), c, a, b));
                lemma_clauses_at(x, 11, c);
            }
        },
        QueryView::PathsWith { to, clauses, .. } => {
            lemma_longer(t, u, q, to);
            let c = clauses;
            if c.within is None && c.on is None {
                if parsed_tokens(x) is Ok {
                    let d = clauses_at(x, 11)->Ok_0.0;
                    lemma_behind_list(t, u, c, d);
                    let (words, a, b) = choose|words: Seq<Seq<char>>, a: int, b: int| #[trigger]
                        writes_rest(u, words, d.within, d.on, a, b);
                    assert(writes_rest(u, words, d.within, d.on, a, b) && (d.on is Some ==> to is Action));
                }
                if extends(q, u) {
                    let (words, within, on, a, b) = choose|
                        words: Seq<Seq<char>>,
                        within: Option<usize>,
                        on: Option<Seq<char>>,
                        a: int,
                        b: int,
                    | #[trigger]
                        writes_rest(u, words, within, on, a, b) && (on is Some ==> to is Action);
                    lemma_behind_list(t, u, c, c);
                }
            } else {
                let j = via_at(t, 11)->Ok_0.1;
                lemma_via_at(t, 11, c.via, j);
                let k = within_at(t, j)->Ok_0.1;
                lemma_within_at(t, j, c.within, k);
                lemma_on_at(t, k, c.on, n);
                lemma_clause_heads();
                assert(x[n] == u[0]);
                assert(x.subrange(11, j) =~= t.subrange(11, j));
                assert(x.subrange(j, k) =~= t.subrange(j, k));
                assert(x.subrange(k, n) =~= t.subrange(k, n));
                assert(j < n);
                assert(x[11] == t[11] && x[j] == t[j]);
                if c.within is Some {
                    assert(t.subrange(j, k)[0] == t[j]);
                } else {
                    assert(t.subrange(k, n)[0] == t[k]);
                }
                lemma_via_at(x, 11, c.via, j);
                assert(via_at(x, 11) == Ok::<(Seq<Seq<char>>, int), Fault>((c.via, j)));
                if k < n {
                    assert(x[k] == t[k]);
                }
                lemma_within_at(x, j, c.within, k);
                assert(within_at(x, j) == Ok::<(Option<usize>, int), Fault>((c.within, k)));
                if c.on is Some {
                    lemma_on_at(x, k, c.on, n);
                } else {
                    assert(k == n);
                    assert(x.subrange(n, m) =~= u);
                    if parsed_tokens(x) is Ok {
                        let on = on_at(x, n)->Ok_0.0;
                        lemma_on_at(x, n, on, m);
                        assert(on is Some);
                        assert(writes_on(u, Some(on->0)));
                    }
                    if extends(q, u) {
                        let s = choose|s: Seq<char>| #[trigger] writes_on(u, Some(s));
                        lemma_on_at(x, n, Some(s), m);
                        assert(on_at(x, n) == Ok::<(Option<Seq<char>>, int), Fault>((Some(s), m)));
                    }
                }
            }
        },
    }
}

/// Input after a complete query is never ignored: with more behind it, a query is a query exactly if
/// that is white space, and it is the same query then, or goes on with it.
pub proof fn trailing_input_is_never_ignored(s: Seq<char>, x: Seq<char>)
    requires
        parsed(s) is Ok,
    ensures
        parsed(s + seq![' '] + x) is Ok <==> (forall|i: int| 0 <= i < x.len() ==> blank(#[trigger] x[i])) || (lexed(x) is Ok
            && lexed(x)->Ok_0.len() > 0 && extends(parsed(s)->Ok_0, lexed(x)->Ok_0)),
        (forall|i: int| 0 <= i < x.len() ==> blank(#[trigger] x[i])) ==> parsed(s + seq![' '] + x) == parsed(s),
{
    white_space_parts_texts(s, seq![' '], x);
    texts_without_tokens_are_blank(x);
    let t = lexed(s)->Ok_0;
    if lexed(x) is Ok {
        let u = lexed(x)->Ok_0;
        if u.len() > 0 {
            lemma_extended(t, u, parsed(s)->Ok_0);
        } else {
            assert(u =~= Seq::empty());
            assert(t + u =~= t);
        }
    }
}

/// The query ends in a `VIA` list.
pub open spec fn ends_in_list(q: QueryView) -> bool {
    match q {
        QueryView::PathsWith { clauses, .. } => clauses.within is None && clauses.on is None,
        _ => false,
    }
}

/// No token is a keyword that a clause begins with.
pub open spec fn without_clauses(t: Seq<TokView>) -> bool {
    forall|i: int| #![trigger t[i]]
        0 <= i < t.len() ==> !is_keyword(Some(t[i]), "VIA"@) && !is_keyword(Some(t[i]), "WITHIN"@) && !is_keyword(
            Some(t[i]),
            "ON"@,
        )
}

/// With more behind it that holds no keyword of a clause, a query is a query exactly if that is white
/// space, or if the query ends in a `VIA` list and more kinds follow, each behind a comma.
pub proof fn input_without_clauses_is_at_most_more_kinds(s: Seq<char>, x: Seq<char>)
    requires
        parsed(s) is Ok,
        lexed(x) is Ok ==> without_clauses(lexed(x)->Ok_0),
    ensures
        parsed(s + seq![' '] + x) is Ok <==> (forall|i: int| 0 <= i < x.len() ==> blank(#[trigger] x[i])) || (lexed(x) is Ok
            && ends_in_list(parsed(s)->Ok_0) && exists|words: Seq<Seq<char>>|
            words.len() > 0 && #[trigger] writes_more_words(lexed(x)->Ok_0, words)),
{
    trailing_input_is_never_ignored(s, x);
    let q = parsed(s)->Ok_0;
    if lexed(x) is Ok && lexed(x)->Ok_0.len() > 0 {
        let u = lexed(x)->Ok_0;
        lemma_without_clauses(u, q);
    }
}

proof fn lemma_without_clauses(u: Seq<TokView>, q: QueryView)
    requires
        u.len() > 0,
        without_clauses(u),
    ensures
        extends(q, u) <==> ends_in_list(q) && exists|words: Seq<Seq<char>>|
            words.len() > 0 && #[trigger] writes_more_words(u, words),
{
    match q {
        QueryView::Paths { to, .. } => {
            assert forall|c: ClausesView, a: int, b: int| !#[trigger] writes_clauses(u, c, a, b) by {
                if writes_clauses(u, c, a, b) {
                    if c.via.len() > 0 {
                        assert(u.subrange(0, a)[0] == u[0]);
                    } else if c.within is Some {
                        assert(u.subrange(a, b)[0] == u[a]);
                    } else if c.on is Some {
                        assert(u.skip(b)[0] == u[b]);
                    }
                }
            }
        },
        QueryView::PathsWith { to, clauses, .. } => {
            assert forall|r: Seq<char>| !#[trigger] writes_on(u, Some(r)) by {
                assert(at(u, 0) == Some(u[0]));
            }
            if ends_in_list(q) {
                if extends(q, u) {
                    let (words, within, on, a, b) = choose|
                        words: Seq<Seq<char>>,
                        within: Option<usize>,
                        on: Option<Seq<char>>,
                        a: int,
                        b: int,
                    | #[trigger]
                        writes_rest(u, words, within, on, a, b) && (on is Some ==> to is Action);
                    if within is Some {
                        assert(u.subrange(a, b)[0] == u[a]);
                    }
                    if on is Some {
                        assert(u.skip(b)[0] == u[b]);
                    }
                    assert(a == u.len());
                    assert(u.subrange(0, a) =~= u);
                    assert(writes_more_words(u, words));
                }
                if exists|words: Seq<Seq<char>>| words.len() > 0 && #[trigger] writes_more_words(u, words) {
                    let words = choose|words: Seq<Seq<char>>| words.len() > 0 && #[trigger] writes_more_words(u, words);
                    let n = u.len() as int;
                    assert(u.subrange(0, n) =~= u);
                    assert(u.subrange(n, n).len() == 0);
                    assert(u.skip(n).len() == 0);
                    assert(writes_rest(u, words, None, None, n, n));
                }
            }
        },
        _ => {},
    }
}

/// Tokens that write a query are as many as the query takes.
proof fn lemma_same_length(t: Seq<TokView>, u: Seq<TokView>, q: QueryView)
    requires
        writes(t, q),
        writes(u, q),
    ensures
        t.len() == u.len(),
{
    if let QueryView::PathsWith { clauses, .. } = q {
        let (a, b) = choose|a: int, b: int| #[trigger] writes_clauses(t.skip(11), clauses, a, b);
        let (c, d) = choose|c: int, d: int| #[trigger] writes_clauses(u.skip(11), clauses, c, d);
        let x = t.skip(11);
        let y = u.skip(11);
        assert(writes_clauses(x, clauses, a, b));
        assert(writes_clauses(y, clauses, c, d));
        if clauses.via.len() > 0 {
            assert(x.subrange(0, a).skip(1).len() == a - 1);
            assert(y.subrange(0, c).skip(1).len() == c - 1);
        }
        assert(a == c);
        assert(b - a == d - c);
        assert(x.skip(b).len() == y.skip(d).len());
    }
}

/// Whatever is put behind a query, unless it is white space, makes it another query or none.
pub proof fn more_input_is_never_the_same_query(s: Seq<char>, x: Seq<char>)
    requires
        parsed(s) is Ok,
        !(forall|i: int| 0 <= i < x.len() ==> blank(#[trigger] x[i])),
    ensures
        parsed(s + seq![' '] + x) != parsed(s),
{
    white_space_parts_texts(s, seq![' '], x);
    texts_without_tokens_are_blank(x);
    let t = lexed(s)->Ok_0;
    let q = parsed(s)->Ok_0;
    if lexed(x) is Ok {
        let u = lexed(x)->Ok_0;
        if u.len() == 0 {
            assert(u =~= Seq::empty());
        }
        if parsed_tokens(t + u) == Ok::<QueryView, Fault>(q) {
            queries_are_what_the_grammar_writes(t, q);
            queries_are_what_the_grammar_writes(t + u, q);
            lemma_same_length(t, t + u, q);
        }
    }
}

// ---- The case of keywords ----

/// A place behind the eleventh token at which a keyword of a clause is due.
pub open spec fn clause_place(t: Seq<TokView>, i: int) -> bool {
    ||| i == 11
    ||| via_at(t, 11) is Ok && ({
        let j = via_at(t, 11)->Ok_0.1;
        let k = if is_keyword(at(t, j), "WITHIN"@) {
            j + 3
        } else {
            j
        };
        ||| i == j
        ||| is_keyword(at(t, j), "WITHIN"@) && i == j + 2
        ||| i == k
        ||| is_keyword(at(t, k), "ON"@) && i == k + 1
    })
}

/// A place at which a keyword is due: the head, `FROM`, `TO`, `action` as the kind of a target, and
/// the keywords of the clauses.
pub open spec fn keyword_place(t: Seq<TokView>, i: int) -> bool {
    ||| i == 0
    ||| i == 1 && !is_keyword(at(t, 0), "BLAST"@)
    ||| is_keyword(at(t, 0), "PATHS"@) && (i == 6 || (i == 7 && is_keyword(at(t, 7), "action"@)) || clause_place(t, i))
}

/// Two tokens are words with the same letters.
pub open spec fn same_word(x: TokView, y: TokView) -> bool {
    x is Word && y is Word && same_letters(x->Word_0, y->Word_0)
}

/// The tokens differ at most in the case of keywords.
pub open spec fn alike(t: Seq<TokView>, u: Seq<TokView>) -> bool {
    &&& t.len() == u.len()
    &&& forall|i: int| #![trigger t[i]] #![trigger u[i]]
        0 <= i < t.len() ==> t[i] == u[i] || (keyword_place(t, i) && same_word(t[i], u[i]))
}

/// Tokens that differ in the case of keywords are the same keywords.
proof fn lemma_alike_keyword(t: Seq<TokView>, u: Seq<TokView>, i: int, kw: Seq<char>)
    requires
        alike(t, u),
    ensures
        is_keyword(at(t, i), kw) == is_keyword(at(u, i), kw),
        at(t, i) is Some == at(u, i) is Some,
        at(t, i) == Some(TokView::Comma) <==> at(u, i) == Some(TokView::Comma),
{
    if 0 <= i < t.len() {
        assert(t[i] == u[i] || same_word(t[i], u[i]));
    }
}

proof fn lemma_via_bounds(t: Seq<TokView>)
    requires
        t.len() >= 11,
        via_at(t, 11) is Ok,
    ensures
        11 <= via_at(t, 11)->Ok_0.1 <= t.len(),
{
    let (via, j) = via_at(t, 11)->Ok_0;
    lemma_via_at(t, 11, via, j);
}

/// The `VIA` clauses of tokens that differ in the case of keywords are the same.
proof fn lemma_alike_via(t: Seq<TokView>, u: Seq<TokView>)
    requires
        alike(t, u),
        t.len() >= 11,
        is_keyword(at(t, 0), "PATHS"@),
    ensures
        via_at(t, 11) is Ok ==> via_at(u, 11) == via_at(t, 11),
        via_at(t, 11) is Err ==> via_at(u, 11) is Err,
{
    lemma_alike_keyword(t, u, 11, "VIA"@);
    if is_keyword(at(t, 11), "VIA"@) {
        if via_at(t, 11) is Ok {
            let (via, j) = via_at(t, 11)->Ok_0;
            lemma_words_at(t, 12, via, j);
            assert forall|i: int| 12 <= i < j implies t[i] == u[i] by {
                assert(!keyword_place(t, i));
            }
            assert(t.subrange(12, j) =~= u.subrange(12, j));
            lemma_alike_keyword(t, u, j, "VIA"@);
            lemma_words_at(u, 12, via, j);
        } else if via_at(u, 11) is Ok {
            let (via, j) = via_at(u, 11)->Ok_0;
            lemma_words_at(u, 12, via, j);
            assert forall|i: int| 12 <= i < t.len() implies t[i] == u[i] by {
                assert(!keyword_place(t, i));
            }
            assert(t.subrange(12, j) =~= u.subrange(12, j));
            lemma_alike_keyword(t, u, j, "VIA"@);
            lemma_words_at(t, 12, via, j);
        }
    }
}

/// Being alike goes both ways.
proof fn lemma_alike_back(t: Seq<TokView>, u: Seq<TokView>)
    requires
        alike(t, u),
    ensures
        alike(u, t),
{
    lemma_alike_keyword(t, u, 0, "BLAST"@);
    lemma_alike_keyword(t, u, 0, "PATHS"@);
    lemma_alike_keyword(t, u, 7, "action"@);
    if t.len() >= 11 && is_keyword(at(t, 0), "PATHS"@) {
        lemma_alike_via(t, u);
        if via_at(t, 11) is Ok {
            let j = via_at(t, 11)->Ok_0.1;
            let k = if is_keyword(at(t, j), "WITHIN"@) {
                j + 3
            } else {
                j
            };
            lemma_alike_keyword(t, u, j, "WITHIN"@);
            lemma_alike_keyword(t, u, k, "ON"@);
        }
    }
    assert forall|i: int| #![trigger u[i]] 0 <= i < u.len() implies u[i] == t[i] || (keyword_place(u, i) && same_word(
        u[i],
        t[i],
    )) by {
        if t[i] != u[i] {
            assert(keyword_place(t, i) && same_word(t[i], u[i]));
            if i >= 11 {
                assert(t.len() >= 11);
            }
        }
    }
}

/// The clauses of tokens that differ in the case of keywords are the same.
proof fn lemma_alike_clauses(t: Seq<TokView>, u: Seq<TokView>)
    requires
        alike(t, u),
        t.len() >= 11,
        is_keyword(at(t, 0), "PATHS"@),
        clauses_at(t, 11) is Ok,
    ensures
        clauses_at(u, 11) == clauses_at(t, 11),
{
    lemma_alike_via(t, u);
    lemma_via_bounds(t);
    let (via, j) = via_at(t, 11)->Ok_0;
    let (within, k) = within_at(t, j)->Ok_0;
    lemma_clause_heads();
    lemma_alike_keyword(t, u, j, "WITHIN"@);
    lemma_alike_keyword(t, u, j + 2, "HOPS"@);
    lemma_alike_keyword(t, u, k, "ON"@);
    lemma_alike_keyword(t, u, k + 1, "resource"@);
    if is_keyword(at(t, j), "WITHIN"@) {
        assert(k == j + 3);
        assert(!keyword_place(t, j + 1));
        assert(t[j + 1] == u[j + 1]);
    } else {
        assert(k == j);
    }
    assert(within_at(u, j) == within_at(t, j));
    if is_keyword(at(t, k), "ON"@) {
        assert(!keyword_place(t, k + 2) && !keyword_place(t, k + 3) && !keyword_place(t, k + 4));
        assert(t[k + 2] == u[k + 2] && t[k + 3] == u[k + 3] && t[k + 4] == u[k + 4]);
    }
    assert(on_at(u, k) == on_at(t, k));
}

proof fn lemma_alike_parse(t: Seq<TokView>, u: Seq<TokView>, q: QueryView)
    requires
        alike(t, u),
        parsed_tokens(t) == Ok::<QueryView, Fault>(q),
    ensures
        parsed_tokens(u) == Ok::<QueryView, Fault>(q),
{
    lemma_heads();
    let head = t[0]->Word_0;
    assert(at(t, 0) == Some(TokView::Word(head)));
    assert(t[0] == u[0] || same_word(t[0], u[0]));
    lemma_alike_keyword(t, u, 1, "FROM"@);
    match q {
        QueryView::Escalate { from_kind, from_id } => {
            lemma_node_at(t, 2, from_kind, from_id);
            assert forall|i: int| 2 <= i < 6 implies t[i] == u[i] by {
                assert(!keyword_place(t, i));
            }
            assert(t.subrange(2, 6) =~= u.subrange(2, 6));
            lemma_node_at(u, 2, from_kind, from_id);
        },
        QueryView::Blast { from_kind, from_id } => {
            lemma_node_at(t, 1, from_kind, from_id);
            assert forall|i: int| 1 <= i < 5 implies t[i] == u[i] by {
                assert(!keyword_place(t, i));
            }
            assert(t.subrange(1, 5) =~= u.subrange(1, 5));
            lemma_node_at(u, 1, from_kind, from_id);
        },
        _ => {
            let (from_kind, from_id) = node_at(t, 2)->Ok_0;
            let (kind, id) = node_at(t, 7)->Ok_0;
            lemma_node_at(t, 2, from_kind, from_id);
            lemma_node_at(t, 7, kind, id);
            if via_at(t, 11) is Ok {
                lemma_via_bounds(t);
            }
            assert forall|i: int| 2 <= i < 6 || 8 <= i < 11 implies t[i] == u[i] by {
                assert(!keyword_place(t, i));
            }
            assert(t.subrange(2, 6) =~= u.subrange(2, 6));
            lemma_node_at(u, 2, from_kind, from_id);
            lemma_alike_keyword(t, u, 6, "TO"@);
            let s = t.subrange(7, 11);
            assert(s[0] == t[7] && s[1] == t[8] && s[2] == t[9] && s[3] == t[10]);
            assert(t[7] == TokView::Word(kind));
            assert(t[7] == u[7] || (keyword_place(t, 7) && same_word(t[7], u[7])));
            let other = u[7]->Word_0;
            assert(u[7] == TokView::Word(other));
            assert(u.subrange(7, 11) =~= node_ref(other, id));
            lemma_node_at(u, 7, other, id);
            assert(target_of(other, id) == target_of(kind, id));
            lemma_alike_clauses(t, u);
        },
    }
}

/// Texts whose tokens differ at most in the case of keywords are read alike: both are queries, and
/// then the same query, or neither is.
pub proof fn keywords_are_read_in_any_case(s: Seq<char>, r: Seq<char>)
    requires
        lexed(s) is Ok,
        lexed(r) is Ok,
        alike(lexed(s)->Ok_0, lexed(r)->Ok_0),
    ensures
        parsed(s) is Ok <==> parsed(r) is Ok,
        parsed(s) is Ok ==> parsed(s) == parsed(r),
{
    let t = lexed(s)->Ok_0;
    let u = lexed(r)->Ok_0;
    lemma_alike_back(t, u);
    if parsed(s) is Ok {
        lemma_alike_parse(t, u, parsed(s)->Ok_0);
    }
    if parsed(r) is Ok {
        lemma_alike_parse(u, t, parsed(r)->Ok_0);
    }
}

} // verus!

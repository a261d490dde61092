//! OQL, the Oracle Query Language: a recursive-descent parser over tokens.
//!
//! Grammar:
//!   query     := paths | escalate | blast
//!   paths     := "PATHS" "FROM" node_ref "TO" target [via] [within] [on]
//!   escalate  := "ESCALATE" "FROM" node_ref
//!   blast     := "BLAST" node_ref
//!   node_ref  := WORD "(" STRING ")"           e.g. user("alice")
//!   target    := node_ref | action_ref
//!   action_ref:= "action" "(" STRING ")"       e.g. action("*")
//!   via       := "VIA" WORD { "," WORD }
//!   within    := "WITHIN" NUMBER "HOPS"
//!   on        := "ON" "resource" "(" STRING ")"
//!
//! Keywords are read without regard to the case of their letters.
use crate::lexer::{lex, lexed, tok_views, LexError, Tok, TokView};
use crate::model::text_of;
use crate::text::{chars_of, same, same_ignoring_case, same_letters, texts, to_upper, upper};
use vstd::prelude::*;

verus! {

/// What a `PATHS` query asks to reach.
#[derive(Debug, Clone, PartialEq)]
pub enum Target {
    Node { kind: String, id: String },
    Action(String),
}

/// A query.
#[derive(Debug, Clone, PartialEq)]
pub enum Query {
    /// The paths to a target.
    Paths { from_kind: String, from_id: String, to: Target },
    /// The paths to a target that keep to at least one clause.
    PathsWith { from_kind: String, from_id: String, to: Target, clauses: Clauses },
    /// The identities that a node can reach.
    Escalate { from_kind: String, from_id: String },
    /// Everything that a node can reach.
    Blast { from_kind: String, from_id: String },
}

/// The clauses of a `PATHS` query.
#[derive(Debug, Clone, PartialEq)]
pub struct Clauses {
    /// The edge kinds that a path may use; all kinds where the list is empty.
    pub via: Vec<String>,
    /// The most hops that a path may have.
    pub within: Option<usize>,
    /// The resource that the action is to be granted on.
    pub on: Option<String>,
}

/// Why a text is not a query.
#[derive(Debug, Clone, PartialEq)]
#[allow(inconsistent_fields)]
pub enum OqlError {
    /// The text has no tokens.
    Lex(LexError),
    /// Another token was due.
    ExpectedToken { due: Tok, found: Option<Tok> },
    /// A keyword was due.
    ExpectedKeyword { due: String, found: Option<Tok> },
    /// A word was due.
    ExpectedWord { found: Option<Tok> },
    /// A quoted text was due.
    ExpectedString { found: Option<Tok> },
    /// A number of hops was due.
    ExpectedNumber { found: String },
    /// The first word names no query.
    UnknownQuery(String),
    /// A resource is given for a target that is not an action.
    ResourceWithoutAction,
    /// Something follows the query.
    TrailingInput,
}

/// What a target is.
pub ghost enum TargetView {
    Node { kind: Seq<char>, id: Seq<char> },
    Action(Seq<char>),
}

/// What the clauses of a query are.
pub ghost struct ClausesView {
    pub via: Seq<Seq<char>>,
    pub within: Option<usize>,
    pub on: Option<Seq<char>>,
}

/// What a query is.
pub ghost enum QueryView {
    Paths { from_kind: Seq<char>, from_id: Seq<char>, to: TargetView },
    PathsWith { from_kind: Seq<char>, from_id: Seq<char>, to: TargetView, clauses: ClausesView },
    Escalate { from_kind: Seq<char>, from_id: Seq<char> },
    Blast { from_kind: Seq<char>, from_id: Seq<char> },
}

/// What a parse error is.
#[allow(inconsistent_fields)]
pub ghost enum Fault {
    Lex(LexError),
    ExpectedToken { due: TokView, found: Option<TokView> },
    ExpectedKeyword { due: Seq<char>, found: Option<TokView> },
    ExpectedWord { found: Option<TokView> },
    ExpectedString { found: Option<TokView> },
    ExpectedNumber { found: Seq<char> },
    UnknownQuery(Seq<char>),
    ResourceWithoutAction,
    TrailingInput,
}

impl View for Target {
    type V = TargetView;

    open spec fn view(&self) -> TargetView {
        match self {
            Target::Node { kind, id } => TargetView::Node { kind: kind@, id: id@ },
            Target::Action(p) => TargetView::Action(p@),
        }
    }
}

impl View for Clauses {
    type V = ClausesView;

    open spec fn view(&self) -> ClausesView {
        ClausesView { via: texts(self.via@), within: self.within, on: text_of(self.on) }
    }
}

impl View for Query {
    type V = QueryView;

    open spec fn view(&self) -> QueryView {
        match self {
            Query::Paths { from_kind, from_id, to } => QueryView::Paths {
                from_kind: from_kind@,
                from_id: from_id@,
                to: to@,
            },
            Query::PathsWith { from_kind, from_id, to, clauses } => QueryView::PathsWith {
                from_kind: from_kind@,
                from_id: from_id@,
                to: to@,
                clauses: clauses@,
            },
            Query::Escalate { from_kind, from_id } => QueryView::Escalate {
                from_kind: from_kind@,
                from_id: from_id@,
            },
            Query::Blast { from_kind, from_id } => QueryView::Blast {
                from_kind: from_kind@,
                from_id: from_id@,
            },
        }
    }
}

/// What an optional token is.
pub open spec fn tok_of(t: Option<Tok>) -> Option<TokView> {
    match t {
        Some(x) => Some(x@),
        None => None,
    }
}

impl View for OqlError {
    type V = Fault;

    open spec fn view(&self) -> Fault {
        match self {
            OqlError::Lex(e) => Fault::Lex(*e),
            OqlError::ExpectedToken { due, found } => Fault::ExpectedToken {
                due: due@,
                found: tok_of(*found),
            },
            OqlError::ExpectedKeyword { due, found } => Fault::ExpectedKeyword {
                due: due@,
                found: tok_of(*found),
            },
            OqlError::ExpectedWord { found } => Fault::ExpectedWord { found: tok_of(*found) },
            OqlError::ExpectedString { found } => Fault::ExpectedString { found: tok_of(*found) },
            OqlError::ExpectedNumber { found } => Fault::ExpectedNumber { found: found@ },
            OqlError::UnknownQuery(w) => Fault::UnknownQuery(w@),
            OqlError::ResourceWithoutAction => Fault::ResourceWithoutAction,
            OqlError::TrailingInput => Fault::TrailingInput,
        }
    }
}

/// The token at a place, where there is one.
pub open spec fn at(t: Seq<TokView>, i: int) -> Option<TokView> {
    if 0 <= i < t.len() {
        Some(t[i])
    } else {
        None
    }
}

/// The word at a place.
pub open spec fn word_at(t: Seq<TokView>, i: int) -> Result<Seq<char>, Fault> {
    match at(t, i) {
        Some(TokView::Word(w)) => Ok(w),
        found => Err(Fault::ExpectedWord { found }),
    }
}

/// The quoted text at a place.
pub open spec fn string_at(t: Seq<TokView>, i: int) -> Result<Seq<char>, Fault> {
    match at(t, i) {
        Some(TokView::Str(s)) => Ok(s),
        found => Err(Fault::ExpectedString { found }),
    }
}

/// Whether a given token stands at a place.
pub open spec fn token_at(t: Seq<TokView>, i: int, due: TokView) -> Result<(), Fault> {
    if at(t, i) == Some(due) {
        Ok(())
    } else {
        Err(Fault::ExpectedToken { due, found: at(t, i) })
    }
}

/// The token is the keyword, in whatever case.
pub open spec fn is_keyword(t: Option<TokView>, due: Seq<char>) -> bool {
    match t {
        Some(TokView::Word(w)) => same_letters(w, due),
        _ => false,
    }
}

/// Whether a given keyword stands at a place.
pub open spec fn keyword_at(t: Seq<TokView>, i: int, due: Seq<char>) -> Result<(), Fault> {
    if is_keyword(at(t, i), due) {
        Ok(())
    } else {
        Err(Fault::ExpectedKeyword { due, found: at(t, i) })
    }
}

/// The quoted text in brackets from a place on.
pub open spec fn bracketed_at(t: Seq<TokView>, i: int) -> Result<Seq<char>, Fault> {
    match token_at(t, i, TokView::LParen) {
        Err(e) => Err(e),
        Ok(_) => match string_at(t, i + 1) {
            Err(e) => Err(e),
            Ok(s) => match token_at(t, i + 2, TokView::RParen) {
                Err(e) => Err(e),
                Ok(_) => Ok(s),
            },
        },
    }
}

/// The kind and the id of the node reference from a place on, which takes four tokens.
pub open spec fn node_at(t: Seq<TokView>, i: int) -> Result<(Seq<char>, Seq<char>), Fault> {
    match word_at(t, i) {
        Err(e) => Err(e),
        Ok(kind) => match bracketed_at(t, i + 1) {
            Err(e) => Err(e),
            Ok(id) => Ok((kind, id)),
        },
    }
}

/// The words from a place on that commas part, and the place behind them.
pub open spec fn words_at(t: Seq<TokView>, i: int) -> Result<(Seq<Seq<char>>, int), Fault>
    decreases t.len() - i,
{
    match word_at(t, i) {
        Err(e) => Err(e),
        Ok(w) => if i >= 0 && at(t, i + 1) == Some(TokView::Comma) {
            match words_at(t, i + 2) {
                Err(e) => Err(e),
                Ok((rest, end)) => Ok((seq![w] + rest, end)),
            }
        } else {
            Ok((seq![w], i + 1))
        },
    }
}

/// The edge kinds of a `VIA` clause at a place, none where there is no such clause, and the place
/// behind.
pub open spec fn via_at(t: Seq<TokView>, i: int) -> Result<(Seq<Seq<char>>, int), Fault> {
    if is_keyword(at(t, i), "VIA"@) {
        words_at(t, i + 1)
    } else {
        Ok((Seq::empty(), i))
    }
}

/// The number that a text of decimal digits is.
pub open spec fn decimal(w: Seq<char>) -> int
    decreases w.len(),
{
    if w.len() == 0 {
        0
    } else {
        decimal(w.drop_last()) * 10 + (w.last() as int - '0' as int)
    }
}

/// The text is a number that a machine word holds, in decimal digits.
pub open spec fn is_number(w: Seq<char>) -> bool {
    &&& w.len() > 0
    &&& forall|i: int| 0 <= i < w.len() ==> '0' <= #[trigger] w[i] && w[i] <= '9'
    &&& decimal(w) <= usize::MAX
}

/// The number of hops of a `WITHIN` clause at a place, where there is such a clause, and the place
/// behind.
pub open spec fn within_at(t: Seq<TokView>, i: int) -> Result<(Option<usize>, int), Fault> {
    if is_keyword(at(t, i), "WITHIN"@) {
        match word_at(t, i + 1) {
            Err(e) => Err(e),
            Ok(w) => if !is_number(w) {
                Err(Fault::ExpectedNumber { found: w })
            } else {
                match keyword_at(t, i + 2, "HOPS"@) {
                    Err(e) => Err(e),
                    Ok(_) => Ok((Some(decimal(w) as usize), i + 3)),
                }
            },
        }
    } else {
        Ok((None, i))
    }
}

/// The resource of an `ON` clause at a place, where there is such a clause, and the place behind.
pub open spec fn on_at(t: Seq<TokView>, i: int) -> Result<(Option<Seq<char>>, int), Fault> {
    if is_keyword(at(t, i), "ON"@) {
        match keyword_at(t, i + 1, "resource"@) {
            Err(e) => Err(e),
            Ok(_) => match bracketed_at(t, i + 2) {
                Err(e) => Err(e),
                Ok(s) => Ok((Some(s), i + 5)),
            },
        }
    } else {
        Ok((None, i))
    }
}

/// The clauses from a place on, and the place behind them.
pub open spec fn clauses_at(t: Seq<TokView>, i: int) -> Result<(ClausesView, int), Fault> {
    match via_at(t, i) {
        Err(e) => Err(e),
        Ok((via, j)) => match within_at(t, j) {
            Err(e) => Err(e),
            Ok((within, k)) => match on_at(t, k) {
                Err(e) => Err(e),
                Ok((on, end)) => Ok((ClausesView { via, within, on }, end)),
            },
        },
    }
}

/// The target that a node reference names: an action where its kind says so.
pub open spec fn target_of(kind: Seq<char>, id: Seq<char>) -> TargetView {
    if same_letters(kind, "action"@) {
        TargetView::Action(id)
    } else {
        TargetView::Node { kind, id }
    }
}

/// The `PATHS` query from the second token on, and the place behind it.
pub open spec fn paths_at(t: Seq<TokView>) -> Result<(QueryView, int), Fault> {
    match keyword_at(t, 1, "FROM"@) {
        Err(e) => Err(e),
        Ok(_) => match node_at(t, 2) {
            Err(e) => Err(e),
            Ok((from_kind, from_id)) => match keyword_at(t, 6, "TO"@) {
                Err(e) => Err(e),
                Ok(_) => match node_at(t, 7) {
                    Err(e) => Err(e),
                    Ok((kind, id)) => {
                        let to = target_of(kind, id);
                        match clauses_at(t, 11) {
                            Err(e) => Err(e),
                            Ok((clauses, end)) => if clauses.on is Some && to is Node {
                                Err(Fault::ResourceWithoutAction)
                            } else if end == 11 {
                                Ok((QueryView::Paths { from_kind, from_id, to }, end))
                            } else {
                                Ok((QueryView::PathsWith { from_kind, from_id, to, clauses }, end))
                            },
                        }
                    },
                },
            },
        },
    }
}

/// The query that tokens begin with, and the place behind it.
pub open spec fn query_at(t: Seq<TokView>) -> Result<(QueryView, int), Fault> {
    match word_at(t, 0) {
        Err(e) => Err(e),
        Ok(head) => if upper(head) == "PATHS"@ {
            paths_at(t)
        } else if upper(head) == "ESCALATE"@ {
            match keyword_at(t, 1, "FROM"@) {
                Err(e) => Err(e),
                Ok(_) => match node_at(t, 2) {
                    Err(e) => Err(e),
                    Ok((from_kind, from_id)) => Ok((QueryView::Escalate { from_kind, from_id }, 6)),
                },
            }
        } else if upper(head) == "BLAST"@ {
            match node_at(t, 1) {
                Err(e) => Err(e),
                Ok((from_kind, from_id)) => Ok((QueryView::Blast { from_kind, from_id }, 5)),
            }
        } else {
            Err(Fault::UnknownQuery(upper(head)))
        },
    }
}

/// The query that tokens are, or the first fault in them.
pub open spec fn parsed_tokens(t: Seq<TokView>) -> Result<QueryView, Fault> {
    match query_at(t) {
        Err(e) => Err(e),
        Ok((q, end)) => if end == t.len() {
            Ok(q)
        } else {
            Err(Fault::TrailingInput)
        },
    }
}

/// The query that a text is, or the first fault in it.
pub open spec fn parsed(s: Seq<char>) -> Result<QueryView, Fault> {
    match lexed(s) {
        Err(e) => Err(Fault::Lex(e)),
        Ok(t) => parsed_tokens(t),
    }
}

/// The place behind the token at a place; the end where there is none.
pub open spec fn past(t: Seq<TokView>, i: int) -> int {
    if 0 <= i < t.len() {
        i + 1
    } else {
        i
    }
}

/// How far a quoted text in brackets is read from a place on: to the end of it, or past the token
/// at fault.
pub open spec fn bracketed_stop(t: Seq<TokView>, i: int) -> int {
    if token_at(t, i, TokView::LParen) is Err {
        past(t, i)
    } else if string_at(t, i + 1) is Err {
        past(t, i + 1)
    } else {
        past(t, i + 2)
    }
}

/// How far a node reference is read from a place on.
pub open spec fn node_stop(t: Seq<TokView>, i: int) -> int {
    if word_at(t, i) is Err {
        past(t, i)
    } else {
        bracketed_stop(t, i + 1)
    }
}

/// How far words that commas part are read from a place on.
pub open spec fn words_stop(t: Seq<TokView>, i: int) -> int
    decreases t.len() - i,
{
    if word_at(t, i) is Ok && i >= 0 && at(t, i + 1) == Some(TokView::Comma) {
        words_stop(t, i + 2)
    } else {
        past(t, i)
    }
}

/// Words in front of those that are read next.
pub open spec fn words_behind(front: Seq<Seq<char>>, rest: Result<(Seq<Seq<char>>, int), Fault>) -> Result<
    (Seq<Seq<char>>, int),
    Fault,
> {
    match rest {
        Ok((words, end)) => Ok((front + words, end)),
        Err(e) => Err(e),
    }
}

proof fn lemma_behind_none(rest: Result<(Seq<Seq<char>>, int), Fault>)
    ensures
        words_behind(Seq::empty(), rest) == rest,
{
    if let Ok((words, end)) = rest {
        assert(Seq::<Seq<char>>::empty() + words =~= words);
    }
}

proof fn lemma_behind_one(front: Seq<Seq<char>>, w: Seq<char>, rest: Result<(Seq<Seq<char>>, int), Fault>)
    ensures
        words_behind(front, words_behind(seq![w], rest)) == words_behind(front.push(w), rest),
{
    if let Ok((words, end)) = rest {
        assert(front + (seq![w] + words) =~= front.push(w) + words);
    }
}

/// How far a `VIA` clause is read from a place on.
pub open spec fn via_stop(t: Seq<TokView>, i: int) -> int {
    if is_keyword(at(t, i), "VIA"@) {
        words_stop(t, i + 1)
    } else {
        i
    }
}

/// How far a `WITHIN` clause is read from a place on.
pub open spec fn within_stop(t: Seq<TokView>, i: int) -> int {
    if !is_keyword(at(t, i), "WITHIN"@) {
        i
    } else if word_at(t, i + 1) is Ok && is_number(word_at(t, i + 1)->Ok_0) {
        past(t, i + 2)
    } else {
        past(t, i + 1)
    }
}

/// How far an `ON` clause is read from a place on.
pub open spec fn on_stop(t: Seq<TokView>, i: int) -> int {
    if !is_keyword(at(t, i), "ON"@) {
        i
    } else if keyword_at(t, i + 1, "resource"@) is Err {
        past(t, i + 1)
    } else {
        bracketed_stop(t, i + 2)
    }
}

/// How far the clauses are read from a place on.
pub open spec fn clauses_stop(t: Seq<TokView>, i: int) -> int {
    if via_at(t, i) is Err {
        via_stop(t, i)
    } else if within_at(t, via_stop(t, i)) is Err {
        within_stop(t, via_stop(t, i))
    } else {
        on_stop(t, within_stop(t, via_stop(t, i)))
    }
}

/// How far a `PATHS` query is read.
pub open spec fn paths_stop(t: Seq<TokView>) -> int {
    if keyword_at(t, 1, "FROM"@) is Err {
        past(t, 1)
    } else if node_at(t, 2) is Err {
        node_stop(t, 2)
    } else if keyword_at(t, 6, "TO"@) is Err {
        past(t, 6)
    } else if node_at(t, 7) is Err {
        node_stop(t, 7)
    } else {
        clauses_stop(t, 11)
    }
}

/// How far a query is read.
pub open spec fn query_stop(t: Seq<TokView>) -> int {
    match word_at(t, 0) {
        Err(_) => past(t, 0),
        Ok(head) => if upper(head) == "PATHS"@ {
            paths_stop(t)
        } else if upper(head) == "ESCALATE"@ {
            if keyword_at(t, 1, "FROM"@) is Err {
                past(t, 1)
            } else {
                node_stop(t, 2)
            }
        } else if upper(head) == "BLAST"@ {
            node_stop(t, 1)
        } else {
            1
        },
    }
}

/// Tokens and how far they have been read.
pub struct Parser {
    pub toks: Vec<Tok>,
    pub pos: usize,
}

impl Parser {
    /// Nothing beyond the last token has been read.
    pub open spec fn wf(self) -> bool {
        self.pos <= self.toks@.len()
    }

    /// The tokens.
    pub open spec fn view(&self) -> Seq<TokView> {
        tok_views(self.toks@)
    }

    /// Only the place has changed, by `n` tokens.
    pub open spec fn moved(self, before: Parser, n: int) -> bool {
        &&& self.wf()
        &&& self.toks == before.toks
        &&& self.pos == before.pos + n
    }

    /// Only the place has changed, to another.
    pub open spec fn moved_to(self, before: Parser, place: int) -> bool {
        &&& self.wf()
        &&& self.toks == before.toks
        &&& self.pos == place
    }

    /// Reads the next token, where there is one.
    pub fn next(&mut self) -> (r: Option<Tok>)
        requires
            old(self).wf(),
        ensures
            tok_of(r) == at(old(self)@, old(self).pos as int),
            r is Some ==> final(self).moved(*old(self), 1),
            r is None ==> final(self).moved(*old(self), 0),
    {
        if self.pos < self.toks.len() {
            let t = self.toks[self.pos].copy();
            self.pos = self.pos + 1;
            Some(t)
        } else {
            None
        }
    }

    /// Reads the keyword, where it is the next token.
    pub fn accept_word(&mut self, kw: &str) -> (r: bool)
        requires
            old(self).wf(),
        ensures
            r == is_keyword(at(old(self)@, old(self).pos as int), kw@),
            r ==> final(self).moved(*old(self), 1),
            !r ==> final(self).moved(*old(self), 0),
    {
        if self.pos < self.toks.len() {
            let fits: bool = match &self.toks[self.pos] {
                Tok::Word(w) => same_ignoring_case(w.as_str(), kw),
                _ => false,
            };
            if fits {
                self.pos = self.pos + 1;
            }
            fits
        } else {
            false
        }
    }

    /// Reads a given token.
    pub fn expect(&mut self, t: Tok) -> (r: Result<(), OqlError>)
        requires
            old(self).wf(),
        ensures
            final(self).moved_to(*old(self), past(old(self)@, old(self).pos as int)),
            match r {
                Ok(_) => token_at(old(self)@, old(self).pos as int, t@) is Ok && final(self).moved(*old(self), 1),
                Err(e) => token_at(old(self)@, old(self).pos as int, t@) == Err::<(), Fault>(e@),
            },
    {
        let found = self.next();
        let fits: bool = match &found {
            Some(x) => x.matches(&t),
            None => false,
        };
        if fits {
            Ok(())
        } else {
            Err(OqlError::ExpectedToken { due: t, found })
        }
    }

    /// Reads a given keyword.
    pub fn expect_word(&mut self, kw: &str) -> (r: Result<(), OqlError>)
        requires
            old(self).wf(),
        ensures
            final(self).moved_to(*old(self), past(old(self)@, old(self).pos as int)),
            match r {
                Ok(_) => keyword_at(old(self)@, old(self).pos as int, kw@) is Ok && final(self).moved(*old(self), 1),
                Err(e) => keyword_at(old(self)@, old(self).pos as int, kw@) == Err::<(), Fault>(e@),
            },
    {
        let found = self.next();
        let fits: bool = match &found {
            Some(Tok::Word(w)) => same_ignoring_case(w.as_str(), kw),
            _ => false,
        };
        if fits {
            Ok(())
        } else {
            Err(OqlError::ExpectedKeyword { due: kw.to_owned(), found })
        }
    }

    /// Reads a word.
    pub fn word(&mut self) -> (r: Result<String, OqlError>)
        requires
            old(self).wf(),
        ensures
            final(self).moved_to(*old(self), past(old(self)@, old(self).pos as int)),
            match r {
                Ok(w) => word_at(old(self)@, old(self).pos as int) == Ok::<Seq<char>, Fault>(w@)
                    && final(self).moved(*old(self), 1),
                Err(e) => word_at(old(self)@, old(self).pos as int) == Err::<Seq<char>, Fault>(e@),
            },
    {
        match self.next() {
            Some(Tok::Word(w)) => Ok(w),
            found => Err(OqlError::ExpectedWord { found }),
        }
    }

    /// Reads a quoted text.
    pub fn string(&mut self) -> (r: Result<String, OqlError>)
        requires
            old(self).wf(),
        ensures
            final(self).moved_to(*old(self), past(old(self)@, old(self).pos as int)),
            match r {
                Ok(s) => string_at(old(self)@, old(self).pos as int) == Ok::<Seq<char>, Fault>(s@)
                    && final(self).moved(*old(self), 1),
                Err(e) => string_at(old(self)@, old(self).pos as int) == Err::<Seq<char>, Fault>(e@),
            },
    {
        match self.next() {
            Some(Tok::Str(s)) => Ok(s),
            found => Err(OqlError::ExpectedString { found }),
        }
    }

    /// Reads a quoted text in brackets.
    pub fn bracketed(&mut self) -> (r: Result<String, OqlError>)
        requires
            old(self).wf(),
        ensures
            final(self).moved_to(*old(self), bracketed_stop(old(self)@, old(self).pos as int)),
            match r {
                Ok(s) => bracketed_at(old(self)@, old(self).pos as int) == Ok::<Seq<char>, Fault>(s@)
                    && final(self).moved(*old(self), 3),
                Err(e) => bracketed_at(old(self)@, old(self).pos as int) == Err::<Seq<char>, Fault>(e@),
            },
    {
        self.expect(Tok::LParen)?;
        let s = self.string()?;
        self.expect(Tok::RParen)?;
        Ok(s)
    }

    /// Reads a node reference: its kind and its id.
    pub fn node_ref(&mut self) -> (r: Result<(String, String), OqlError>)
        requires
            old(self).wf(),
        ensures
            final(self).moved_to(*old(self), node_stop(old(self)@, old(self).pos as int)),
            match r {
                Ok(p) => node_at(old(self)@, old(self).pos as int) == Ok::<(Seq<char>, Seq<char>), Fault>(
                    (p.0@, p.1@),
                ) && final(self).moved(*old(self), 4),
                Err(e) => node_at(old(self)@, old(self).pos as int) == Err::<(Seq<char>, Seq<char>), Fault>(e@),
            },
    {
        let kind = self.word()?;
        let id = self.bracketed()?;
        Ok((kind, id))
    }

    /// Reads words that commas part.
    pub fn words(&mut self) -> (r: Result<Vec<String>, OqlError>)
        requires
            old(self).wf(),
        ensures
            final(self).moved_to(*old(self), words_stop(old(self)@, old(self).pos as int)),
            match r {
                Ok(v) => words_at(old(self)@, old(self).pos as int) == Ok::<(Seq<Seq<char>>, int), Fault>(
                    (texts(v@), final(self).pos as int),
                ),
                Err(e) => words_at(old(self)@, old(self).pos as int) == Err::<(Seq<Seq<char>>, int), Fault>(e@),
            },
    {
        let ghost t = self@;
        let ghost start = self.pos as int;
        let mut out: Vec<String> = Vec::new();
        proof {
            assert(texts(out@) =~= Seq::empty());
            lemma_behind_none(words_at(t, start));
        }
        while self.pos < self.toks.len()
            invariant
                self.wf(),
                self.toks == old(self).toks,
                t == old(self)@,
                start == old(self).pos,
                words_at(t, start) == words_behind(texts(out@), words_at(t, self.pos as int)),
                words_stop(t, start) == words_stop(t, self.pos as int),
            decreases self.toks@.len() - self.pos,
        {
            let w = self.word()?;
            let ghost was = texts(out@);
            let ghost one = w@;
            out.push(w);
            assert(texts(out@) =~= was.push(one));
            if self.pos < self.toks.len() && self.toks[self.pos].matches(&Tok::Comma) {
                self.pos = self.pos + 1;
                proof {
                    lemma_behind_one(was, one, words_at(t, self.pos as int));
                }
            } else {
                assert(was + seq![one] =~= was.push(one));
                return Ok(out);
            }
        }
        Err(OqlError::ExpectedWord { found: None })
    }

    /// Reads a `VIA` clause, where there is one.
    pub fn via(&mut self) -> (r: Result<Vec<String>, OqlError>)
        requires
            old(self).wf(),
        ensures
            final(self).moved_to(*old(self), via_stop(old(self)@, old(self).pos as int)),
            match r {
                Ok(v) => via_at(old(self)@, old(self).pos as int) == Ok::<(Seq<Seq<char>>, int), Fault>(
                    (texts(v@), final(self).pos as int),
                ),
                Err(e) => via_at(old(self)@, old(self).pos as int) == Err::<(Seq<Seq<char>>, int), Fault>(e@),
            },
    {
        if self.accept_word("VIA") {
            self.words()
        } else {
            let v: Vec<String> = Vec::new();
            assert(texts(v@) =~= Seq::empty());
            Ok(v)
        }
    }

    /// Reads a `WITHIN` clause, where there is one.
    pub fn within(&mut self) -> (r: Result<Option<usize>, OqlError>)
        requires
            old(self).wf(),
        ensures
            final(self).moved_to(*old(self), within_stop(old(self)@, old(self).pos as int)),
            match r {
                Ok(n) => within_at(old(self)@, old(self).pos as int) == Ok::<(Option<usize>, int), Fault>(
                    (n, final(self).pos as int),
                ),
                Err(e) => within_at(old(self)@, old(self).pos as int) == Err::<(Option<usize>, int), Fault>(e@),
            },
    {
        if self.accept_word("WITHIN") {
            let w = self.word()?;
            match number_of(w.as_str()) {
                None => Err(OqlError::ExpectedNumber { found: w }),
                Some(n) => {
                    self.expect_word("HOPS")?;
                    Ok(Some(n))
                },
            }
        } else {
            Ok(None)
        }
    }

    /// Reads an `ON` clause, where there is one.
    pub fn on(&mut self) -> (r: Result<Option<String>, OqlError>)
        requires
            old(self).wf(),
        ensures
            final(self).moved_to(*old(self), on_stop(old(self)@, old(self).pos as int)),
            match r {
                Ok(s) => on_at(old(self)@, old(self).pos as int) == Ok::<(Option<Seq<char>>, int), Fault>(
                    (text_of(s), final(self).pos as int),
                ),
                Err(e) => on_at(old(self)@, old(self).pos as int) == Err::<(Option<Seq<char>>, int), Fault>(e@),
            },
    {
        if self.accept_word("ON") {
            self.expect_word("resource")?;
            let s = self.bracketed()?;
            Ok(Some(s))
        } else {
            Ok(None)
        }
    }

    /// Reads the clauses of a `PATHS` query.
    pub fn clauses(&mut self) -> (r: Result<Clauses, OqlError>)
        requires
            old(self).wf(),
        ensures
            final(self).moved_to(*old(self), clauses_stop(old(self)@, old(self).pos as int)),
            match r {
                Ok(c) => clauses_at(old(self)@, old(self).pos as int) == Ok::<(ClausesView, int), Fault>(
                    (c@, final(self).pos as int),
                ),
                Err(e) => clauses_at(old(self)@, old(self).pos as int) == Err::<(ClausesView, int), Fault>(e@),
            },
    {
        let via = self.via()?;
        let within = self.within()?;
        let on = self.on()?;
        Ok(Clauses { via, within, on })
    }

    /// Reads the rest of a `PATHS` query behind its first word.
    pub fn paths(&mut self) -> (r: Result<Query, OqlError>)
        requires
            old(self).wf(),
            old(self).pos == 1,
        ensures
            final(self).moved_to(*old(self), paths_stop(old(self)@)),
            match r {
                Ok(q) => paths_at(old(self)@) == Ok::<(QueryView, int), Fault>((q@, final(self).pos as int))
                   ,
                Err(e) => paths_at(old(self)@) == Err::<(QueryView, int), Fault>(e@),
            },
    {
        self.expect_word("FROM")?;
        let (from_kind, from_id) = self.node_ref()?;
        self.expect_word("TO")?;
        let (kind, id) = self.node_ref()?;
        let to = if same_ignoring_case(kind.as_str(), "action") {
            Target::Action(id)
        } else {
            Target::Node { kind, id }
        };
        let clauses = self.clauses()?;
        let is_node: bool = match &to {
            Target::Node { .. } => true,
            Target::Action(_) => false,
        };
        if clauses.on.is_some() && is_node {
            return Err(OqlError::ResourceWithoutAction);
        }
        if self.pos == 11 {
            Ok(Query::Paths { from_kind, from_id, to })
        } else {
            Ok(Query::PathsWith { from_kind, from_id, to, clauses })
        }
    }

    /// Reads a query.
    pub fn query(&mut self) -> (r: Result<Query, OqlError>)
        requires
            old(self).wf(),
            old(self).pos == 0,
        ensures
            final(self).moved_to(*old(self), query_stop(old(self)@)),
            match r {
                Ok(q) => query_at(old(self)@) == Ok::<(QueryView, int), Fault>((q@, final(self).pos as int))
                   ,
                Err(e) => query_at(old(self)@) == Err::<(QueryView, int), Fault>(e@),
            },
    {
        let word = self.word()?;
        let head = to_upper(word.as_str());
        if same(head.as_str(), "PATHS") {
            self.paths()
        } else if same(head.as_str(), "ESCALATE") {
            self.expect_word("FROM")?;
            let (from_kind, from_id) = self.node_ref()?;
            Ok(Query::Escalate { from_kind, from_id })
        } else if same(head.as_str(), "BLAST") {
            let (from_kind, from_id) = self.node_ref()?;
            Ok(Query::Blast { from_kind, from_id })
        } else {
            Err(OqlError::UnknownQuery(head))
        }
    }
}

/// The number that a word of decimal digits is, where a machine word holds it.
fn number_of(w: &str) -> (r: Option<usize>)
    ensures
        match r {
            Some(n) => is_number(w@) && n == decimal(w@),
            None => !is_number(w@),
        },
{
    let s = chars_of(w);
    if s.len() == 0 {
        return None;
    }
    let mut n: usize = 0;
    for i in 0..s.len()
        invariant
            s@ == w@,
            n == decimal(w@.take(i as int)),
            forall|j: int| 0 <= j < i ==> '0' <= #[trigger] w@[j] && w@[j] <= '9',
    {
        let c: char = s[i];
        if !('0' <= c && c <= '9') {
            assert(!('0' <= w@[i as int] && w@[i as int] <= '9'));
            return None;
        }
        let digit: usize = (c as u8 - 48) as usize;
        let ghost step = w@.take(i + 1);
        proof {
            assert(step.drop_last() =~= w@.take(i as int));
            assert(step.last() == c);
            if is_number(w@) {
                lemma_decimal_grows(w@, i + 1);
            }
        }
        if n > (usize::MAX - digit) / 10 {
            assert(n * 10 + digit > usize::MAX);
            return None;
        }
        assert(n * 10 + digit <= usize::MAX);
        n = n * 10 + digit;
    }
    assert(w@.take(s.len() as int) =~= w@);
    Some(n)
}

/// The number that a text of digits is, is at least the one that a part from its start is.
proof fn lemma_decimal_grows(w: Seq<char>, k: int)
    requires
        0 <= k <= w.len(),
        forall|i: int| 0 <= i < w.len() ==> '0' <= #[trigger] w[i] && w[i] <= '9',
    ensures
        0 <= decimal(w.take(k)) <= decimal(w),
    decreases w.len(),
{
    if k == w.len() {
        assert(w.take(k) =~= w);
        if k > 0 {
            lemma_decimal_grows(w.drop_last(), k - 1);
        }
    } else {
        lemma_decimal_grows(w.drop_last(), k);
        assert(w.drop_last().take(k) =~= w.take(k));
    }
}

/// Reads the tokens of a query.
pub fn parse_tokens(toks: Vec<Tok>) -> (r: Result<Query, OqlError>)
    ensures
        match r {
            Ok(q) => parsed_tokens(tok_views(toks@)) == Ok::<QueryView, Fault>(q@),
            Err(e) => parsed_tokens(tok_views(toks@)) == Err::<QueryView, Fault>(e@),
        },
{
    let mut p = Parser { toks, pos: 0 };
    let query = p.query()?;
    if p.pos != p.toks.len() {
        return Err(OqlError::TrailingInput);
    }
    Ok(query)
}

/// Reads a query text.
pub fn parse(src: &str) -> (r: Result<Query, OqlError>)
    ensures
        match r {
            Ok(q) => parsed(src@) == Ok::<QueryView, Fault>(q@),
            Err(e) => parsed(src@) == Err::<QueryView, Fault>(e@),
        },
{
    match lex(src) {
        Ok(toks) => parse_tokens(toks),
        Err(e) => Err(OqlError::Lex(e)),
    }
}

} // verus!

//! The tokens of OQL, the Oracle Query Language.
use crate::text::{chars_of, same};
use vstd::prelude::*;

verus! {

/// One token.
#[derive(Debug, Clone, PartialEq)]
pub enum Tok {
    Word(String),
    Str(String),
    LParen,
    RParen,
    Comma,
}

/// What a token is.
pub ghost enum TokView {
    Word(Seq<char>),
    Str(Seq<char>),
    LParen,
    RParen,
    Comma,
}

impl View for Tok {
    type V = TokView;

    open spec fn view(&self) -> TokView {
        match self {
            Tok::Word(w) => TokView::Word(w@),
            Tok::Str(s) => TokView::Str(s@),
            Tok::LParen => TokView::LParen,
            Tok::RParen => TokView::RParen,
            Tok::Comma => TokView::Comma,
        }
    }
}

impl Tok {
    /// A token that is the same.
    pub fn copy(&self) -> (r: Tok)
        ensures
            r@ == self@,
    {
        match self {
            Tok::Word(w) => Tok::Word(w.clone()),
            Tok::Str(s) => Tok::Str(s.clone()),
            Tok::LParen => Tok::LParen,
            Tok::RParen => Tok::RParen,
            Tok::Comma => Tok::Comma,
        }
    }

    /// Whether two tokens are the same.
    pub fn matches(&self, other: &Tok) -> (r: bool)
        ensures
            r == (self@ == other@),
    {
        match (self, other) {
            (Tok::Word(a), Tok::Word(b)) => same(a.as_str(), b.as_str()),
            (Tok::Str(a), Tok::Str(b)) => same(a.as_str(), b.as_str()),
            (Tok::LParen, Tok::LParen) => true,
            (Tok::RParen, Tok::RParen) => true,
            (Tok::Comma, Tok::Comma) => true,
            _ => false,
        }
    }
}

/// What each of a sequence of tokens is.
pub open spec fn tok_views(toks: Seq<Tok>) -> Seq<TokView> {
    toks.map_values(|t: Tok| t@)
}

/// Why a text has no tokens.
#[derive(Debug, Clone, PartialEq)]
pub enum LexError {
    /// A quoted text has no closing quote.
    Unterminated,
    /// A character that no token begins with.
    Unexpected(char),
}

/// The character is white space: it has the property `White_Space` of Unicode.
pub open spec fn blank(c: char) -> bool {
    ||| '\t' <= c && c <= '\r'
    ||| c == ' '
    ||| c == '\u{85}'
    ||| c == '\u{a0}'
    ||| c == '\u{1680}'
    ||| '\u{2000}' <= c && c <= '\u{200a}'
    ||| c == '\u{2028}'
    ||| c == '\u{2029}'
    ||| c == '\u{202f}'
    ||| c == '\u{205f}'
    ||| c == '\u{3000}'
}

/// `char::is_whitespace`: whether the character has the property `White_Space` of Unicode, which is
/// the one list of characters that `blank` holds.
pub assume_specification[ char::is_whitespace ](c: char) -> (r: bool)
    ensures
        r == blank(c),
;

/// What `char::is_alphanumeric` says of a character.
pub uninterp spec fn letter_or_digit(c: char) -> bool;

/// `char::is_alphanumeric`: whether the character is alphabetic or numeric. The character alone
/// decides; among the ASCII characters it is true of the letters and the digits, and it is true of no
/// white space. Of which other characters it is true is left unsaid.
pub assume_specification[ char::is_alphanumeric ](c: char) -> (r: bool)
    ensures
        r == letter_or_digit(c),
        c <= '\x7f' ==> r == (('a' <= c && c <= 'z') || ('A' <= c && c <= 'Z') || ('0' <= c && c <= '9')),
        blank(c) ==> !r,
;

/// The character is a letter or a digit of some script.
pub open spec fn alphanumeric(c: char) -> bool {
    if c <= '\x7f' {
        ('a' <= c && c <= 'z') || ('A' <= c && c <= 'Z') || ('0' <= c && c <= '9')
    } else {
        letter_or_digit(c) && !blank(c)
    }
}

/// The character is one that a word is made of.
pub open spec fn wordy(c: char) -> bool {
    alphanumeric(c) || c == '_' || c == '-' || c == ':' || c == '*' || c == '.' || c == '/'
}

/// The length of the longest run of word characters that the text begins with.
pub open spec fn word_len(s: Seq<char>) -> int
    decreases s.len(),
{
    if s.len() > 0 && wordy(s[0]) {
        1 + word_len(s.drop_first())
    } else {
        0
    }
}

/// The place of the first occurrence of a character in the text, or the length of the text.
pub open spec fn first_of(s: Seq<char>, c: char) -> int
    decreases s.len(),
{
    if s.len() == 0 || s[0] == c {
        0
    } else {
        1 + first_of(s.drop_first(), c)
    }
}

/// The tokens in front of what comes of the rest.
pub open spec fn ahead(front: Seq<TokView>, rest: Result<Seq<TokView>, LexError>) -> Result<
    Seq<TokView>,
    LexError,
> {
    match rest {
        Ok(t) => Ok(front + t),
        Err(e) => Err(e),
    }
}

/// The tokens of a text, or its first fault. White space parts tokens; a quoted text runs to the
/// next quote of its sort; a word is as long as it can be.
pub open spec fn lexed(s: Seq<char>) -> Result<Seq<TokView>, LexError>
    decreases s.len(),
{
    if s.len() == 0 {
        Ok(Seq::empty())
    } else if blank(s[0]) {
        lexed(s.drop_first())
    } else if s[0] == '(' {
        ahead(seq![TokView::LParen], lexed(s.drop_first()))
    } else if s[0] == ')' {
        ahead(seq![TokView::RParen], lexed(s.drop_first()))
    } else if s[0] == ',' {
        ahead(seq![TokView::Comma], lexed(s.drop_first()))
    } else if s[0] == '"' || s[0] == '\'' {
        let n = first_of(s.drop_first(), s[0]);
        proof {
            lemma_first_of(s.drop_first(), s[0]);
        }
        if n >= s.len() - 1 {
            Err(LexError::Unterminated)
        } else {
            ahead(seq![TokView::Str(s.subrange(1, 1 + n))], lexed(s.skip(n + 2)))
        }
    } else if wordy(s[0]) {
        let n = word_len(s.drop_first()) + 1;
        proof {
            lemma_word_len(s.drop_first());
        }
        ahead(seq![TokView::Word(s.take(n))], lexed(s.skip(n)))
    } else {
        Err(LexError::Unexpected(s[0]))
    }
}

/// A run of word characters is no longer than the text.
pub proof fn lemma_word_len(s: Seq<char>)
    ensures
        0 <= word_len(s) <= s.len(),
    decreases s.len(),
{
    if s.len() > 0 {
        lemma_word_len(s.drop_first());
    }
}

/// The place of a first occurrence is no further than the length.
pub proof fn lemma_first_of(s: Seq<char>, c: char)
    ensures
        0 <= first_of(s, c) <= s.len(),
    decreases s.len(),
{
    if s.len() > 0 {
        lemma_first_of(s.drop_first(), c);
    }
}

fn is_word(c: char) -> (r: bool)
    ensures
        r == wordy(c),
{
    c.is_alphanumeric() || c == '_' || c == '-' || c == ':' || c == '*' || c == '.' || c == '/'
}

/// The part of a text between two places.
fn part(s: &Vec<char>, a: usize, b: usize) -> (r: String)
    requires
        a <= b <= s.len(),
    ensures
        r@ == s@.subrange(a as int, b as int),
{
    let mut out = String::new();
    for i in a..b
        invariant
            a <= b <= s.len(),
            out@ == s@.subrange(a as int, i as int),
    {
        out.push(s[i]);
        assert(s@.subrange(a as int, i + 1) =~= s@.subrange(a as int, i as int).push(s@[i as int]));
    }
    out
}

/// The tokens of a query text.
pub fn lex(src: &str) -> (r: Result<Vec<Tok>, LexError>)
    ensures
        match r {
            Ok(toks) => lexed(src@) == Ok::<Seq<TokView>, LexError>(tok_views(toks@)),
            Err(e) => lexed(src@) == Err::<Seq<TokView>, LexError>(e),
        },
{
    let s = chars_of(src);
    let mut toks: Vec<Tok> = Vec::new();
    let mut i: usize = 0;
    proof {
        assert(s@.skip(0) =~= s@);
        assert(tok_views(toks@) =~= Seq::empty());
        assert(lexed(s@) == ahead(tok_views(toks@), lexed(s@))) by {
            match lexed(s@) {
                Ok(t) => {
                    assert(Seq::<TokView>::empty() + t =~= t);
                },
                Err(_) => {},
            }
        }
    }
    while i < s.len()
        invariant
            s@ == src@,
            i <= s.len(),
            lexed(s@) == ahead(tok_views(toks@), lexed(s@.skip(i as int))),
        decreases s.len() - i,
    {
        let c: char = s[i];
        let ghost rest = s@.skip(i as int);
        let ghost front = tok_views(toks@);
        assert(rest[0] == c);
        assert(rest.drop_first() =~= s@.skip(i + 1));
        if c.is_whitespace() {
            i = i + 1;
        } else if c == '(' {
            toks.push(Tok::LParen);
            i = i + 1;
            proof {
                lemma_ahead(front, TokView::LParen, lexed(s@.skip(i as int)));
                assert(tok_views(toks@) =~= front.push(TokView::LParen));
            }
        } else if c == ')' {
            toks.push(Tok::RParen);
            i = i + 1;
            proof {
                lemma_ahead(front, TokView::RParen, lexed(s@.skip(i as int)));
                assert(tok_views(toks@) =~= front.push(TokView::RParen));
            }
        } else if c == ',' {
            toks.push(Tok::Comma);
            i = i + 1;
            proof {
                lemma_ahead(front, TokView::Comma, lexed(s@.skip(i as int)));
                assert(tok_views(toks@) =~= front.push(TokView::Comma));
            }
        } else if c == '"' || c == '\'' {
            let start: usize = i + 1;
            let mut j: usize = start;
            let ghost tail = s@.skip(start as int);
            while j < s.len() && s[j] != c
                invariant
                    start <= j <= s.len(),
                    tail == s@.skip(start as int),
                    first_of(tail, c) == (j - start) + first_of(s@.skip(j as int), c),
                decreases s.len() - j,
            {
                assert(s@.skip(j as int).drop_first() =~= s@.skip(j + 1));
                j = j + 1;
            }
            assert(first_of(tail, c) == j - start);
            if j >= s.len() {
                return Err(LexError::Unterminated);
            }
            let text = part(&s, start, j);
            let ghost view = TokView::Str(text@);
            toks.push(Tok::Str(text));
            i = j + 1;
            proof {
                let n = first_of(tail, c);
                assert(rest.subrange(1, 1 + n) =~= s@.subrange(start as int, j as int));
                assert(rest.skip(n + 2) =~= s@.skip(i as int));
                lemma_ahead(front, view, lexed(s@.skip(i as int)));
                assert(tok_views(toks@) =~= front.push(view));
            }
        } else if is_word(c) {
            let start: usize = i;
            let mut j: usize = i + 1;
            while j < s.len() && is_word(s[j])
                invariant
                    start + 1 <= j <= s.len(),
                    word_len(s@.skip(start + 1)) == (j - start - 1) + word_len(s@.skip(j as int)),
                decreases s.len() - j,
            {
                assert(s@.skip(j as int).drop_first() =~= s@.skip(j + 1));
                j = j + 1;
            }
            assert(word_len(s@.skip(j as int)) == 0);
            let text = part(&s, start, j);
            let ghost view = TokView::Word(text@);
            toks.push(Tok::Word(text));
            i = j;
            proof {
                let n = word_len(rest.drop_first()) + 1;
                assert(n == j - start);
                assert(rest.take(n) =~= s@.subrange(start as int, j as int));
                assert(rest.skip(n) =~= s@.skip(i as int));
                lemma_ahead(front, view, lexed(s@.skip(i as int)));
                assert(tok_views(toks@) =~= front.push(view));
            }
        } else {
            return Err(LexError::Unexpected(c));
        }
    }
    proof {
        assert(s@.skip(i as int).len() == 0);
        assert(tok_views(toks@) + Seq::empty() =~= tok_views(toks@));
    }
    Ok(toks)
}

/// Tokens can be moved in front one at a time.
proof fn lemma_ahead(front: Seq<TokView>, t: TokView, rest: Result<Seq<TokView>, LexError>)
    ensures
        ahead(front, ahead(seq![t], rest)) == ahead(front.push(t), rest),
{
    match rest {
        Ok(r) => {
            assert(front + (seq![t] + r) =~= front.push(t) + r);
        },
        Err(_) => {},
    }
}

} // verus!

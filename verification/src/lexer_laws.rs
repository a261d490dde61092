//! Laws of the tokens of OQL.
use crate::lexer::{
    ahead, blank, first_of, lemma_first_of, lemma_word_len, lexed, word_len, wordy, LexError, TokView,
};
use crate::text::joined;
use vstd::prelude::*;

verus! {

/// What follows a word without a word character leaves the word as long as it is.
proof fn lemma_word_join(s: Seq<char>, r: Seq<char>)
    requires
        r.len() == 0 || !wordy(r[0]),
    ensures
        word_len(s + r) == word_len(s),
    decreases s.len(),
{
    if s.len() > 0 {
        assert((s + r)[0] == s[0]);
        assert((s + r).drop_first() =~= s.drop_first() + r);
        lemma_word_join(s.drop_first(), r);
    } else {
        assert(s + r =~= r);
    }
}

/// What follows a quote that is found leaves it where it is.
proof fn lemma_first_join(s: Seq<char>, r: Seq<char>, c: char)
    requires
        first_of(s, c) < s.len(),
    ensures
        first_of(s + r, c) == first_of(s, c),
    decreases s.len(),
{
    assert((s + r)[0] == s[0]);
    if s[0] != c {
        assert((s + r).drop_first() =~= s.drop_first() + r);
        lemma_first_join(s.drop_first(), r, c);
    }
}

proof fn lemma_ahead_twice(a: Seq<TokView>, b: Seq<TokView>, rest: Result<Seq<TokView>, LexError>)
    ensures
        ahead(a, ahead(b, rest)) == ahead(a + b, rest),
{
    match rest {
        Ok(r) => {
            assert(a + (b + r) =~= (a + b) + r);
        },
        Err(_) => {},
    }
}

/// A text that has tokens keeps them when another text follows, and those of the other text come
/// behind, unless its first character would go on with the last word.
pub proof fn texts_lex_one_behind_the_other(a: Seq<char>, b: Seq<char>)
    requires
        lexed(a) is Ok,
        b.len() == 0 || !wordy(b[0]),
    ensures
        lexed(a + b) == ahead(lexed(a)->Ok_0, lexed(b)),
    decreases a.len(),
{
    let s = a + b;
    if a.len() == 0 {
        assert(s =~= b);
        match lexed(b) {
            Ok(t) => {
                assert(Seq::<TokView>::empty() + t =~= t);
            },
            Err(_) => {},
        }
    } else {
        let c = a[0];
        let rest = a.drop_first();
        assert(s[0] == c);
        assert(s.drop_first() =~= rest + b);
        if blank(c) {
            texts_lex_one_behind_the_other(rest, b);
        } else if c == '(' {
            texts_lex_one_behind_the_other(rest, b);
            lemma_ahead_twice(seq![TokView::LParen], lexed(rest)->Ok_0, lexed(b));
        } else if c == ')' {
            texts_lex_one_behind_the_other(rest, b);
            lemma_ahead_twice(seq![TokView::RParen], lexed(rest)->Ok_0, lexed(b));
        } else if c == ',' {
            texts_lex_one_behind_the_other(rest, b);
            lemma_ahead_twice(seq![TokView::Comma], lexed(rest)->Ok_0, lexed(b));
        } else if c == '"' || c == '\'' {
            let n = first_of(rest, c);
            lemma_first_of(rest, c);
            lemma_first_join(rest, b, c);
            assert(s.subrange(1, 1 + n) =~= a.subrange(1, 1 + n));
            assert(s.skip(n + 2) =~= a.skip(n + 2) + b);
            texts_lex_one_behind_the_other(a.skip(n + 2), b);
            lemma_ahead_twice(seq![TokView::Str(a.subrange(1, 1 + n))], lexed(a.skip(n + 2))->Ok_0, lexed(b));
        } else {
            let n = word_len(rest) + 1;
            lemma_word_len(rest);
            lemma_word_join(rest, b);
            assert(s.take(n) =~= a.take(n));
            assert(s.skip(n) =~= a.skip(n) + b);
            texts_lex_one_behind_the_other(a.skip(n), b);
            lemma_ahead_twice(seq![TokView::Word(a.take(n))], lexed(a.skip(n))->Ok_0, lexed(b));
        }
    }
}

/// White space before a text is passed over.
pub proof fn blanks_before_are_skipped(w: Seq<char>, s: Seq<char>)
    requires
        forall|i: int| 0 <= i < w.len() ==> blank(#[trigger] w[i]),
    ensures
        lexed(w + s) == lexed(s),
    decreases w.len(),
{
    if w.len() == 0 {
        assert(w + s =~= s);
    } else {
        assert(blank(w[0]));
        assert((w + s)[0] == w[0]);
        assert((w + s).drop_first() =~= w.drop_first() + s);
        blanks_before_are_skipped(w.drop_first(), s);
    }
}

/// Two texts with white space between them have the tokens of the one and then those of the other;
/// the second may be at fault, and the fault is then that of the whole.
pub proof fn white_space_parts_texts(a: Seq<char>, w: Seq<char>, b: Seq<char>)
    requires
        lexed(a) is Ok,
        w.len() > 0,
        forall|i: int| 0 <= i < w.len() ==> blank(#[trigger] w[i]),
    ensures
        lexed(a + w + b) == ahead(lexed(a)->Ok_0, lexed(b)),
        lexed(b) is Ok ==> lexed(a + w + b) == Ok::<Seq<TokView>, LexError>(lexed(a)->Ok_0 + lexed(b)->Ok_0),
{
    assert(blank(w[0]));
    assert((w + b)[0] == w[0]);
    assert(a + w + b =~= a + (w + b));
    texts_lex_one_behind_the_other(a, w + b);
    blanks_before_are_skipped(w, b);
}

/// A text without tokens is white space alone, and the other way round.
pub proof fn texts_without_tokens_are_blank(s: Seq<char>)
    ensures
        lexed(s) == Ok::<Seq<TokView>, LexError>(Seq::empty()) <==> forall|i: int|
            0 <= i < s.len() ==> blank(#[trigger] s[i]),
    decreases s.len(),
{
    if s.len() > 0 {
        texts_without_tokens_are_blank(s.drop_first());
        if blank(s[0]) {
            if lexed(s) == Ok::<Seq<TokView>, LexError>(Seq::empty()) {
                assert forall|i: int| 0 <= i < s.len() implies blank(#[trigger] s[i]) by {
                    if i > 0 {
                        assert(s.drop_first()[i - 1] == s[i]);
                    }
                }
            }
            if forall|i: int| 0 <= i < s.len() ==> blank(#[trigger] s[i]) {
                assert forall|i: int| 0 <= i < s.len() - 1 implies blank(#[trigger] s.drop_first()[i]) by {
                    assert(s.drop_first()[i] == s[i + 1]);
                }
            }
        } else {
            lemma_word_len(s.drop_first());
            lemma_first_of(s.drop_first(), s[0]);
            if lexed(s) is Ok {
                assert(lexed(s)->Ok_0.len() > 0);
            }
        }
    }
}

/// The token can be written: a word is made of word characters, and a quoted text leaves a quote to
/// put it in.
pub open spec fn writable(t: TokView) -> bool {
    match t {
        TokView::Word(w) => {
            &&& w.len() > 0
            &&& forall|i: int| 0 <= i < w.len() ==> wordy(#[trigger] w[i])
        },
        TokView::Str(s) => !s.contains('"') || !s.contains('\''),
        _ => true,
    }
}

/// The quote to put a text in.
pub open spec fn quote_for(s: Seq<char>) -> char {
    if s.contains('"') {
        '\''
    } else {
        '"'
    }
}

/// A text in quotes.
pub open spec fn quoted(s: Seq<char>) -> Seq<char> {
    seq![quote_for(s)] + s + seq![quote_for(s)]
}

/// The text of a token.
pub open spec fn token_shown(t: TokView) -> Seq<char> {
    match t {
        TokView::Word(w) => w,
        TokView::Str(s) => quoted(s),
        TokView::LParen => seq!['('],
        TokView::RParen => seq![')'],
        TokView::Comma => seq![','],
    }
}

/// The texts of tokens with a space between each two.
pub open spec fn tokens_shown(t: Seq<TokView>) -> Seq<char> {
    joined(t.map_values(|x: TokView| token_shown(x)), seq![' '])
}

/// A run of word characters is as long as it is.
proof fn lemma_all_wordy(s: Seq<char>)
    requires
        forall|i: int| 0 <= i < s.len() ==> wordy(#[trigger] s[i]),
    ensures
        word_len(s) == s.len(),
    decreases s.len(),
{
    if s.len() > 0 {
        assert(wordy(s[0]));
        assert forall|i: int| 0 <= i < s.len() - 1 implies wordy(#[trigger] s.drop_first()[i]) by {
            assert(s.drop_first()[i] == s[i + 1]);
        }
        lemma_all_wordy(s.drop_first());
    }
}

/// A quote behind a text that lacks it is found at the end.
proof fn lemma_first_at_end(s: Seq<char>, c: char)
    requires
        !s.contains(c),
    ensures
        first_of(s + seq![c], c) == s.len(),
    decreases s.len(),
{
    let t = s + seq![c];
    if s.len() > 0 {
        assert(t[0] == s[0]);
        assert(s.contains(s[0]));
        assert(t.drop_first() =~= s.drop_first() + seq![c]);
        assert(!s.drop_first().contains(c)) by {
            if s.drop_first().contains(c) {
                let i = choose|i: int| 0 <= i < s.drop_first().len() && s.drop_first()[i] == c;
                assert(s[i + 1] == c);
            }
        }
        lemma_first_at_end(s.drop_first(), c);
    } else {
        assert(t[0] == c);
    }
}

/// The text of a token that can be written is read as that token.
pub proof fn written_token_lexes_back(t: TokView)
    requires
        writable(t),
    ensures
        lexed(token_shown(t)) == Ok::<Seq<TokView>, LexError>(seq![t]),
{
    let s = token_shown(t);
    let none = Seq::<char>::empty();
    assert(lexed(none) == Ok::<Seq<TokView>, LexError>(Seq::empty()));
    assert(seq![t] + Seq::<TokView>::empty() =~= seq![t]);
    match t {
        TokView::Word(w) => {
            assert(wordy(w[0]));
            assert forall|i: int| 0 <= i < w.len() - 1 implies wordy(#[trigger] w.drop_first()[i]) by {
                assert(w.drop_first()[i] == w[i + 1]);
            }
            lemma_all_wordy(w.drop_first());
            assert(s.take(w.len() as int) =~= w);
            assert(s.skip(w.len() as int) =~= none);
        },
        TokView::Str(x) => {
            let q = quote_for(x);
            assert(s[0] == q);
            assert(s.drop_first() =~= x + seq![q]);
            lemma_first_at_end(x, q);
            assert(s.subrange(1, 1 + x.len() as int) =~= x);
            assert(s.skip(x.len() as int + 2) =~= none);
        },
        _ => {
            assert(s.drop_first() =~= none);
        },
    }
}

/// The texts of tokens that can be written, with spaces between them, are read as those tokens.
pub proof fn written_tokens_lex_back(t: Seq<TokView>)
    requires
        forall|i: int| 0 <= i < t.len() ==> writable(#[trigger] t[i]),
    ensures
        lexed(tokens_shown(t)) == Ok::<Seq<TokView>, LexError>(t),
    decreases t.len(),
{
    let f = |x: TokView| token_shown(x);
    let parts = t.map_values(f);
    if t.len() == 0 {
        assert(t =~= Seq::empty());
    } else if t.len() == 1 {
        assert(writable(t[0]));
        written_token_lexes_back(t[0]);
        assert(t =~= seq![t[0]]);
    } else {
        let front = t.drop_last();
        assert forall|i: int| 0 <= i < front.len() implies writable(#[trigger] front[i]) by {
            assert(front[i] == t[i]);
        }
        assert(writable(t[t.len() - 1]));
        written_tokens_lex_back(front);
        written_token_lexes_back(t.last());
        assert(parts.drop_last() =~= front.map_values(f));
        white_space_parts_texts(tokens_shown(front), seq![' '], token_shown(t.last()));
        assert(front + seq![t.last()] =~= t);
    }
}

/// Every token of a text can be written, and a text has no more tokens than characters.
pub proof fn tokens_can_be_written(s: Seq<char>)
    requires
        lexed(s) is Ok,
    ensures
        forall|i: int| 0 <= i < lexed(s)->Ok_0.len() ==> writable(#[trigger] lexed(s)->Ok_0[i]),
        lexed(s)->Ok_0.len() <= s.len(),
    decreases s.len(),
{
    if s.len() > 0 {
        let c = s[0];
        let rest = s.drop_first();
        let all = lexed(s)->Ok_0;
        if blank(c) {
            tokens_can_be_written(rest);
        } else if c == '(' || c == ')' || c == ',' {
            tokens_can_be_written(rest);
            lemma_first_writable(all, lexed(rest)->Ok_0);
        } else if c == '"' || c == '\'' {
            let n = first_of(rest, c);
            lemma_first_of(rest, c);
            let x = s.subrange(1, 1 + n);
            assert(!x.contains(c)) by {
                lemma_none_before(rest, c);
                if x.contains(c) {
                    let i = choose|i: int| 0 <= i < x.len() && x[i] == c;
                    assert(rest[i] == c);
                }
            }
            tokens_can_be_written(s.skip(n + 2));
            lemma_first_writable(all, lexed(s.skip(n + 2))->Ok_0);
        } else {
            let n = word_len(rest) + 1;
            lemma_word_len(rest);
            lemma_wordy_before(rest);
            let w = s.take(n);
            assert forall|i: int| 0 <= i < w.len() implies wordy(#[trigger] w[i]) by {
                if i > 0 {
                    assert(w[i] == rest[i - 1]);
                }
            }
            tokens_can_be_written(s.skip(n));
            lemma_first_writable(all, lexed(s.skip(n))->Ok_0);
        }
    }
}

proof fn lemma_first_writable(all: Seq<TokView>, rest: Seq<TokView>)
    requires
        all.len() > 0,
        writable(all[0]),
        all == seq![all[0]] + rest,
        forall|i: int| 0 <= i < rest.len() ==> writable(#[trigger] rest[i]),
    ensures
        forall|i: int| 0 <= i < all.len() ==> writable(#[trigger] all[i]),
{
    assert forall|i: int| 0 <= i < all.len() implies writable(#[trigger] all[i]) by {
        if i > 0 {
            assert(all[i] == rest[i - 1]);
        }
    }
}

proof fn lemma_none_before(s: Seq<char>, c: char)
    ensures
        forall|i: int| 0 <= i < first_of(s, c) && i < s.len() ==> s[i] != c,
    decreases s.len(),
{
    if s.len() > 0 && s[0] != c {
        lemma_none_before(s.drop_first(), c);
        assert forall|i: int| 0 <= i < first_of(s, c) && i < s.len() implies s[i] != c by {
            if i > 0 {
                assert(s[i] == s.drop_first()[i - 1]);
            }
        }
    }
}

proof fn lemma_wordy_before(s: Seq<char>)
    ensures
        forall|i: int| 0 <= i < word_len(s) && i < s.len() ==> wordy(#[trigger] s[i]),
    decreases s.len(),
{
    if s.len() > 0 && wordy(s[0]) {
        lemma_wordy_before(s.drop_first());
        assert forall|i: int| 0 <= i < word_len(s) && i < s.len() implies wordy(#[trigger] s[i]) by {
            if i > 0 {
                assert(s[i] == s.drop_first()[i - 1]);
            }
        }
    }
}

/// Writing the tokens of a text with spaces between them and reading them again gives the same
/// tokens.
pub proof fn tokens_of_a_text_lex_back(s: Seq<char>)
    requires
        lexed(s) is Ok,
    ensures
        lexed(tokens_shown(lexed(s)->Ok_0)) == lexed(s),
{
    tokens_can_be_written(s);
    written_tokens_lex_back(lexed(s)->Ok_0);
}

/// The character is an ASCII letter or digit, or one of six signs.
pub open spec fn plain_word_character(c: char) -> bool {
    ||| 'a' <= c && c <= 'z'
    ||| 'A' <= c && c <= 'Z'
    ||| '0' <= c && c <= '9'
    ||| c == '_'
    ||| c == '-'
    ||| c == ':'
    ||| c == '*'
    ||| c == '.'
    ||| c == '/'
}

/// Letters, digits and the signs `_ - : * . /` in a row are one word.
pub proof fn plain_words_are_one_token(w: Seq<char>)
    requires
        w.len() > 0,
        forall|i: int| 0 <= i < w.len() ==> plain_word_character(#[trigger] w[i]),
    ensures
        lexed(w) == Ok::<Seq<TokView>, LexError>(seq![TokView::Word(w)]),
{
    assert forall|i: int| 0 <= i < w.len() implies wordy(#[trigger] w[i]) by {
        assert(plain_word_character(w[i]));
    }
    written_token_lexes_back(TokView::Word(w));
}

/// What stands between two quotes of one sort, and does not have that quote in it, is read as it
/// stands, whatever characters it holds.
pub proof fn quoted_texts_are_read_as_they_stand(quote: char, s: Seq<char>)
    requires
        quote == '"' || quote == '\'',
        !s.contains(quote),
    ensures
        lexed(seq![quote] + s + seq![quote]) == Ok::<Seq<TokView>, LexError>(seq![TokView::Str(s)]),
{
    let all = seq![quote] + s + seq![quote];
    let none = Seq::<char>::empty();
    assert(all[0] == quote);
    assert(all.drop_first() =~= s + seq![quote]);
    lemma_first_at_end(s, quote);
    assert(all.subrange(1, 1 + s.len() as int) =~= s);
    assert(all.skip(s.len() as int + 2) =~= none);
    assert(lexed(none) == Ok::<Seq<TokView>, LexError>(Seq::empty()));
    assert(seq![TokView::Str(s)] + Seq::<TokView>::empty() =~= seq![TokView::Str(s)]);
}

/// A quote that is not closed by another of its sort is refused, whatever stands behind it.
pub proof fn quotes_must_be_closed(quote: char, s: Seq<char>)
    requires
        quote == '"' || quote == '\'',
        !s.contains(quote),
    ensures
        lexed(seq![quote] + s) == Err::<Seq<TokView>, LexError>(LexError::Unterminated),
{
    let all = seq![quote] + s;
    assert(all[0] == quote);
    assert(all.drop_first() =~= s);
    lemma_none_found(s, quote);
}

/// A character that a text lacks is not found in it.
proof fn lemma_none_found(s: Seq<char>, c: char)
    requires
        !s.contains(c),
    ensures
        first_of(s, c) == s.len(),
    decreases s.len(),
{
    if s.len() > 0 {
        assert(s.contains(s[0]));
        assert(!s.drop_first().contains(c)) by {
            if s.drop_first().contains(c) {
                let i = choose|i: int| 0 <= i < s.drop_first().len() && s.drop_first()[i] == c;
                assert(s[i + 1] == c);
            }
        }
        lemma_none_found(s.drop_first(), c);
    }
}

/// Brackets and commas are tokens of their own, whatever stands behind them.
pub proof fn brackets_and_commas_are_tokens(s: Seq<char>)
    requires
        lexed(s) is Ok,
    ensures
        lexed(seq!['('] + s) == Ok::<Seq<TokView>, LexError>(seq![TokView::LParen] + lexed(s)->Ok_0),
        lexed(seq![')'] + s) == Ok::<Seq<TokView>, LexError>(seq![TokView::RParen] + lexed(s)->Ok_0),
        lexed(seq![','] + s) == Ok::<Seq<TokView>, LexError>(seq![TokView::Comma] + lexed(s)->Ok_0),
{
    assert((seq!['('] + s).drop_first() =~= s);
    assert((seq![')'] + s).drop_first() =~= s);
    assert((seq![','] + s).drop_first() =~= s);
}

/// An ASCII character that no token begins with is refused where a token would begin, and named.
pub proof fn other_characters_are_refused(c: char, s: Seq<char>)
    requires
        c <= '\x7f',
        !plain_word_character(c),
        c != '"' && c != '\'' && c != '(' && c != ')' && c != ',' && c != ' ',
        c < '\t' || c > '\r',
    ensures
        lexed(seq![c] + s) == Err::<Seq<TokView>, LexError>(LexError::Unexpected(c)),
{
    assert((seq![c] + s)[0] == c);
}

/// The first fault of a text is that of the whole, whatever tokens stand before it.
pub proof fn faults_are_those_of_the_whole(a: Seq<char>, b: Seq<char>, e: LexError)
    requires
        lexed(a) is Ok,
        b.len() > 0,
        !wordy(b[0]),
        lexed(b) == Err::<Seq<TokView>, LexError>(e),
    ensures
        lexed(a + b) == Err::<Seq<TokView>, LexError>(e),
{
    texts_lex_one_behind_the_other(a, b);
}

} // verus!

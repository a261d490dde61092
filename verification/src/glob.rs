//! Wildcard matching of actions and resource names: `*` stands for any text, `?` for any one
//! character.
use crate::text::chars_of;
use vstd::prelude::*;

verus! {

/// The text is one that the pattern stands for.
pub open spec fn stands_for(pattern: Seq<char>, text: Seq<char>) -> bool
    decreases pattern.len(), text.len(),
{
    if pattern.len() == 0 {
        text.len() == 0
    } else if pattern[0] == '*' {
        stands_for(pattern.drop_first(), text) || (text.len() > 0 && stands_for(
            pattern,
            text.drop_first(),
        ))
    } else {
        text.len() > 0 && (pattern[0] == '?' || pattern[0] == text[0]) && stands_for(
            pattern.drop_first(),
            text.drop_first(),
        )
    }
}

/// A query for an action and a grant of an action meet: one of them stands for the other.
pub open spec fn meet(query: Seq<char>, grant: Seq<char>) -> bool {
    stands_for(query, grant) || stands_for(grant, query)
}

/// Whether `text` is one that `pattern` stands for.
pub fn wildcard_match(pattern: &str, text: &str) -> (r: bool)
    ensures
        r == stands_for(pattern@, text@),
{
    let p = chars_of(pattern);
    let t = chars_of(text);
    // row[j] says whether the rest of the pattern stands for the rest of the text from j on.
    let mut row: Vec<bool> = Vec::new();
    for j in 0..t.len()
        invariant
            row.len() == j,
            forall|k: int| 0 <= k < j ==> row[k] == false,
    {
        row.push(false);
    }
    row.push(true);
    let mut i: usize = p.len();
    assert(p@.skip(i as int).len() == 0);
    while i > 0
        invariant
            p@ == pattern@,
            t@ == text@,
            i <= p.len(),
            row.len() == t.len() + 1,
            forall|k: int| 0 <= k <= t.len() ==> row[k] == stands_for(p@.skip(i as int), #[trigger] t@.skip(k)),
        decreases i,
    {
        i = i - 1;
        let ghost rest = p@.skip(i as int);
        assert(rest.drop_first() =~= p@.skip(i + 1));
        assert(rest[0] == p@[i as int]);
        let mut next: Vec<bool> = Vec::new();
        // The new row is filled from its last place down, and then turned round.
        let mut j: usize = t.len() + 1;
        while j > 0
            invariant
                p@ == pattern@,
                t@ == text@,
                i < p.len(),
                j <= t.len() + 1,
                row.len() == t.len() + 1,
                rest == p@.skip(i as int),
                rest.len() > 0,
                rest[0] == p@[i as int],
                forall|k: int| 0 <= k <= t.len() ==> row[k] == stands_for(rest.drop_first(), #[trigger] t@.skip(k)),
                next.len() == t.len() + 1 - j,
                forall|k: int| j <= k <= t.len() ==> next[t.len() - k] == stands_for(rest, #[trigger] t@.skip(k)),
            decreases j,
        {
            j = j - 1;
            let ghost tail = t@.skip(j as int);
            let here: bool = if p[i] == '*' {
                row[j] || (j < t.len() && next[t.len() - (j + 1)])
            } else {
                j < t.len() && (p[i] == '?' || p[i] == t[j]) && row[j + 1]
            };
            proof {
                if j < t.len() {
                    assert(tail.drop_first() =~= t@.skip(j + 1));
                    assert(tail[0] == t@[j as int]);
                }
                assert(here == stands_for(rest, tail));
            }
            next.push(here);
        }
        let mut turned: Vec<bool> = Vec::new();
        for k in 0..t.len() + 1
            invariant
                t@ == text@,
                next.len() == t.len() + 1,
                turned.len() == k,
                forall|m: int| 0 <= m <= t.len() ==> next[t.len() - m] == stands_for(rest, #[trigger] t@.skip(m)),
                forall|m: int| 0 <= m < k ==> turned[m] == stands_for(rest, #[trigger] t@.skip(m)),
        {
            assert(t@.skip(k as int).len() >= 0);
            turned.push(next[t.len() - k]);
        }
        row = turned;
    }
    assert(p@.skip(0) =~= p@);
    assert(t@.skip(0) =~= t@);
    row[0]
}

/// Whether a query for an action and a grant of an action meet. A query of `*` meets every grant,
/// and a grant of `*` meets every query.
pub fn action_matches(query: &str, grant: &str) -> (r: bool)
    ensures
        r == meet(query@, grant@),
{
    wildcard_match(query, grant) || wildcard_match(grant, query)
}

/// No character of the text is a wildcard.
pub open spec fn literal(s: Seq<char>) -> bool {
    forall|i: int| 0 <= i < s.len() ==> s[i] != '*' && s[i] != '?'
}

/// The pattern `*` stands for every text.
pub proof fn star_stands_for_all(text: Seq<char>)
    ensures
        stands_for(seq!['*'], text),
    decreases text.len(),
{
    let star = seq!['*'];
    assert(stands_for(star.drop_first(), Seq::empty()));
    if text.len() == 0 {
        assert(text =~= Seq::empty());
    }
    if text.len() > 0 {
        star_stands_for_all(text.drop_first());
    }
}

/// A pattern without wildcards stands for itself and for nothing else.
pub proof fn literal_stands_for_itself(pattern: Seq<char>, text: Seq<char>)
    requires
        literal(pattern),
    ensures
        stands_for(pattern, text) <==> pattern == text,
    decreases pattern.len(),
{
    if pattern.len() == 0 {
        if text.len() == 0 {
            assert(pattern =~= text);
        }
    } else if text.len() > 0 {
        literal_stands_for_itself(pattern.drop_first(), text.drop_first());
        assert(pattern =~= seq![pattern[0]] + pattern.drop_first());
        assert(text =~= seq![text[0]] + text.drop_first());
    }
}

/// A pattern that is a text without wildcards and a final `*` stands for exactly the texts that
/// begin with it.
pub proof fn final_star_stands_for_prefix(prefix: Seq<char>, text: Seq<char>)
    requires
        literal(prefix),
    ensures
        stands_for(prefix + seq!['*'], text) <==> prefix.is_prefix_of(text),
    decreases prefix.len(),
{
    let pattern = prefix + seq!['*'];
    if prefix.len() == 0 {
        assert(pattern =~= seq!['*']);
        star_stands_for_all(text);
        assert(prefix =~= text.subrange(0, 0));
    } else {
        assert(pattern.drop_first() =~= prefix.drop_first() + seq!['*']);
        if text.len() > 0 {
            final_star_stands_for_prefix(prefix.drop_first(), text.drop_first());
            if prefix.is_prefix_of(text) {
                assert(prefix.drop_first() =~= text.drop_first().subrange(0, prefix.len() - 1));
            }
            if pattern[0] == text[0] && prefix.drop_first().is_prefix_of(text.drop_first()) {
                assert forall|i: int| 0 <= i < prefix.len() implies prefix[i] == text[i] by {
                    if i > 0 {
                        assert(prefix.drop_first()[i - 1] == text.drop_first().subrange(0, prefix.len() - 1)[i - 1]);
                    }
                }
                assert(prefix =~= text.subrange(0, prefix.len() as int));
            }
        }
    }
}

/// Whether a query and a grant meet does not depend on which of them is the query, and `*` meets
/// everything.
pub proof fn meeting_is_mutual(a: Seq<char>, b: Seq<char>)
    ensures
        meet(a, b) == meet(b, a),
        meet(seq!['*'], a),
        meet(a, seq!['*']),
{
    star_stands_for_all(a);
}

/// A pattern of one character stands for every text if it is `*`, for every text of one character if
/// it is `?`, and else for the text of that character. A pattern without characters stands for the
/// text without characters.
pub proof fn one_character_patterns(c: char, text: Seq<char>)
    ensures
        stands_for(seq![c], text) <==> c == '*' || (c == '?' && text.len() == 1) || text == seq![c],
        stands_for(Seq::empty(), text) <==> text.len() == 0,
{
    if c == '*' {
        star_stands_for_all(text);
    } else if text.len() > 0 {
        assert(seq![c].drop_first() =~= Seq::empty());
        assert(text =~= seq![text[0]] + text.drop_first());
        assert(stands_for(Seq::empty(), text.drop_first()) <==> text.drop_first().len() == 0);
        if text.len() == 1 {
            assert(text =~= seq![text[0]]);
        }
        if text == seq![c] {
            assert(text[0] == c && text.len() == 1);
        }
    }
}

/// Two patterns one behind the other stand for the texts that are a text of the one behind a text of
/// the other.
pub proof fn patterns_stand_for_texts_by_parts(a: Seq<char>, b: Seq<char>, text: Seq<char>)
    ensures
        stands_for(a + b, text) <==> exists|k: int|
            0 <= k <= text.len() && #[trigger] stands_for(a, text.take(k)) && stands_for(b, text.skip(k)),
    decreases a.len(), text.len(),
{
    let p = a + b;
    if a.len() == 0 {
        assert(p =~= b);
        assert(text.skip(0) =~= text);
        assert(text.take(0).len() == 0);
        assert(stands_for(a, text.take(0)));
        assert forall|k: int| 0 <= k <= text.len() && #[trigger] stands_for(a, text.take(k)) implies k == 0 by {
            assert(text.take(k).len() == 0);
        }
    } else {
        assert(p[0] == a[0]);
        assert(p.drop_first() =~= a.drop_first() + b);
        patterns_stand_for_texts_by_parts(a.drop_first(), b, text);
        if text.len() > 0 {
            patterns_stand_for_texts_by_parts(a, b, text.drop_first());
            patterns_stand_for_texts_by_parts(a.drop_first(), b, text.drop_first());
        }
        if stands_for(p, text) {
            if a[0] == '*' && stands_for(p.drop_first(), text) {
                let k = choose|k: int|
                    0 <= k <= text.len() && #[trigger] stands_for(a.drop_first(), text.take(k)) && stands_for(
                        b,
                        text.skip(k),
                    );
                assert(stands_for(a, text.take(k)));
            } else {
                let rest = text.drop_first();
                let front = if a[0] == '*' {
                    a
                } else {
                    a.drop_first()
                };
                let k = choose|k: int|
                    0 <= k <= rest.len() && #[trigger] stands_for(front, rest.take(k)) && stands_for(b, rest.skip(k));
                assert(text.take(k + 1).drop_first() =~= rest.take(k));
                assert(text.take(k + 1)[0] == text[0]);
                assert(text.skip(k + 1) =~= rest.skip(k));
                assert(stands_for(a, text.take(k + 1)));
            }
        }
        assert forall|k: int|
            0 <= k <= text.len() && #[trigger] stands_for(a, text.take(k)) && stands_for(b, text.skip(k)) implies stands_for(
            p,
            text,
        ) by {
            let t = text.take(k);
            if a[0] == '*' && stands_for(a.drop_first(), t) {
                assert(stands_for(a.drop_first() + b, text));
            } else {
                let rest = text.drop_first();
                assert(k > 0);
                assert(t[0] == text[0]);
                assert(t.drop_first() =~= rest.take(k - 1));
                assert(text.skip(k) =~= rest.skip(k - 1));
                if a[0] == '*' {
                    assert(stands_for(a, rest.take(k - 1)));
                } else {
                    assert(stands_for(a.drop_first(), rest.take(k - 1)));
                }
            }
        }
    }
}

/// A query and a grant meet exactly if one of them stands for the other.
pub proof fn meeting_is_standing_for_the_other(query: Seq<char>, grant: Seq<char>)
    ensures
        stands_for(query, grant) ==> meet(query, grant),
        stands_for(grant, query) ==> meet(query, grant),
        meet(query, grant) && !stands_for(query, grant) ==> stands_for(grant, query),
{
}

} // verus!

//! Text primitives: comparison, ASCII case folding and concatenation of strings,
//! stated over the characters that a string holds.
use vstd::prelude::*;

verus! {

/// `String::push` appends one character to the end of the string.
pub assume_specification[ String::push ](s: &mut String, c: char)
    ensures
        final(s)@ == old(s)@.push(c),
;

/// The ASCII upper-case form of one character; any other character is kept.
pub open spec fn upper_char(c: char) -> char {
    if 'a' <= c && c <= 'z' {
        ((c as u32 - 32) as u32) as char
    } else {
        c
    }
}

/// The ASCII upper-case form of a text.
pub open spec fn upper(s: Seq<char>) -> Seq<char> {
    s.map_values(|c: char| upper_char(c))
}

/// Two texts are equal up to the case of their ASCII letters.
pub open spec fn same_letters(a: Seq<char>, b: Seq<char>) -> bool {
    upper(a) == upper(b)
}

/// `a` comes strictly before `b` in the order of their first differing character; a proper
/// prefix comes before what it is a prefix of.
pub open spec fn before(a: Seq<char>, b: Seq<char>) -> bool
    decreases a.len(),
{
    if b.len() == 0 {
        false
    } else if a.len() == 0 {
        true
    } else if a[0] == b[0] {
        before(a.drop_first(), b.drop_first())
    } else {
        a[0] < b[0]
    }
}

/// The characters of a string, as a vector.
pub fn chars_of(s: &str) -> (r: Vec<char>)
    ensures
        r@ == s@,
{
    let mut out: Vec<char> = Vec::new();
    for c in it: s.chars()
        invariant
            out@ == it.seq().take(it.index()),
            it.seq() == s@,
    {
        out.push(c);
    }
    out
}

/// Whether two strings hold the same text.
pub fn same(a: &str, b: &str) -> (r: bool)
    ensures
        r == (a@ == b@),
{
    let x = chars_of(a);
    let y = chars_of(b);
    if x.len() != y.len() {
        return false;
    }
    for i in 0..x.len()
        invariant
            x@ == a@,
            y@ == b@,
            x.len() == y.len(),
            forall|j: int| 0 <= j < i ==> a@[j] == b@[j],
    {
        if x[i] != y[i] {
            return false;
        }
    }
    assert(a@ =~= b@);
    true
}

fn upper_one(c: char) -> (r: char)
    ensures
        r == upper_char(c),
{
    if 'a' <= c && c <= 'z' {
        ((c as u8) - 32) as char
    } else {
        c
    }
}

/// The ASCII upper-case form of a string.
pub fn to_upper(s: &str) -> (r: String)
    ensures
        r@ == upper(s@),
{
    let x = chars_of(s);
    let mut out = String::new();
    for i in 0..x.len()
        invariant
            x@ == s@,
            out@ == upper(s@.take(i as int)),
    {
        out.push(upper_one(x[i]));
        assert(out@ =~= upper(s@.take(i + 1)));
    }
    assert(s@.take(x.len() as int) =~= s@);
    out
}

/// Whether two strings are equal up to the case of their ASCII letters.
pub fn same_ignoring_case(a: &str, b: &str) -> (r: bool)
    ensures
        r == same_letters(a@, b@),
{
    let x = to_upper(a);
    let y = to_upper(b);
    same(x.as_str(), y.as_str())
}

/// Whether `a` comes strictly before `b`.
pub fn comes_before(a: &str, b: &str) -> (r: bool)
    ensures
        r == before(a@, b@),
{
    let x = chars_of(a);
    let y = chars_of(b);
    let mut i: usize = 0;
    assert(a@.skip(0) =~= a@);
    assert(b@.skip(0) =~= b@);
    while i < x.len() && i < y.len()
        invariant
            x@ == a@,
            y@ == b@,
            i <= x.len(),
            i <= y.len(),
            before(a@, b@) == before(a@.skip(i as int), b@.skip(i as int)),
        decreases x.len() - i,
    {
        if x[i] != y[i] {
            return x[i] < y[i];
        }
        assert(a@.skip(i as int).drop_first() =~= a@.skip(i + 1));
        assert(b@.skip(i as int).drop_first() =~= b@.skip(i + 1));
        i = i + 1;
    }
    i < y.len()
}

/// Texts one after the other, with `sep` between each two.
pub open spec fn joined(parts: Seq<Seq<char>>, sep: Seq<char>) -> Seq<char>
    decreases parts.len(),
{
    if parts.len() == 0 {
        Seq::empty()
    } else if parts.len() == 1 {
        parts[0]
    } else {
        joined(parts.drop_last(), sep) + sep + parts.last()
    }
}

/// The texts that a vector of strings holds.
pub open spec fn texts(v: Seq<String>) -> Seq<Seq<char>> {
    v.map_values(|s: String| s@)
}

/// Concatenates strings with `sep` between each two.
pub fn join(parts: &Vec<String>, sep: &str) -> (r: String)
    ensures
        r@ == joined(texts(parts@), sep@),
{
    let mut out = String::new();
    for i in 0..parts.len()
        invariant
            out@ == joined(texts(parts@).take(i as int), sep@),
    {
        if i > 0 {
            out.append(sep);
        }
        out.append(parts[i].as_str());
        assert(texts(parts@).take(i + 1).drop_last() =~= texts(parts@).take(i as int));
    }
    assert(texts(parts@).take(parts.len() as int) =~= texts(parts@));
    out
}

/// Whether a text is one of those that a vector holds.
pub fn holds_text(v: &Vec<String>, s: &str) -> (r: bool)
    ensures
        r == texts(v@).contains(s@),
{
    for i in 0..v.len()
        invariant
            forall|j: int| 0 <= j < i ==> texts(v@)[j] != s@,
    {
        if same(v[i].as_str(), s) {
            assert(texts(v@)[i as int] == s@);
            return true;
        }
    }
    false
}

/// `before` is irreflexive and transitive, and any two different texts are ordered by it.
pub proof fn before_is_strict_order(a: Seq<char>, b: Seq<char>, c: Seq<char>)
    ensures
        !before(a, a),
        before(a, b) && before(b, c) ==> before(a, c),
        a != b ==> before(a, b) || before(b, a),
        before(a, b) ==> !before(b, a),
    decreases a.len() + b.len() + c.len(),
{
    if a.len() > 0 && b.len() > 0 && c.len() > 0 {
        before_is_strict_order(a.drop_first(), b.drop_first(), c.drop_first());
        assert(a =~= seq![a[0]] + a.drop_first());
        assert(b =~= seq![b[0]] + b.drop_first());
    } else if a.len() > 0 && b.len() > 0 {
        before_is_strict_order(a.drop_first(), b.drop_first(), c);
        assert(a =~= seq![a[0]] + a.drop_first());
        assert(b =~= seq![b[0]] + b.drop_first());
    } else if a.len() > 0 {
        before_is_strict_order(a.drop_first(), b, c);
        assert(!before(a, a));
    } else if b.len() == 0 {
        assert(a =~= b);
    }
}

/// The texts agree on their first `k` characters, and then the first has ended or has a lower
/// character.
pub open spec fn falls_behind_at(a: Seq<char>, b: Seq<char>, k: int) -> bool {
    &&& 0 <= k <= a.len()
    &&& k < b.len()
    &&& forall|i: int| 0 <= i < k ==> a[i] == b[i]
    &&& k == a.len() || a[k] < b[k]
}

/// A text comes before another exactly if it has a lower character where they first differ, or ends
/// there.
pub proof fn order_is_that_of_the_first_difference(a: Seq<char>, b: Seq<char>)
    ensures
        before(a, b) <==> exists|k: int| falls_behind_at(a, b, k),
    decreases a.len(),
{
    if a.len() > 0 && b.len() > 0 {
        let x = a.drop_first();
        let y = b.drop_first();
        order_is_that_of_the_first_difference(x, y);
        if before(a, b) {
            if a[0] == b[0] {
                let k = choose|k: int| falls_behind_at(x, y, k);
                assert forall|i: int| 0 <= i < k + 1 implies a[i] == b[i] by {
                    if i > 0 {
                        assert(x[i - 1] == y[i - 1]);
                    }
                }
                assert(falls_behind_at(a, b, k + 1));
            } else {
                assert(falls_behind_at(a, b, 0));
            }
        }
        assert forall|k: int| falls_behind_at(a, b, k) implies before(a, b) by {
            if k > 0 {
                assert(a[0] == b[0]);
                assert forall|i: int| 0 <= i < k - 1 implies x[i] == y[i] by {
                    assert(a[i + 1] == b[i + 1]);
                }
                assert(falls_behind_at(x, y, k - 1));
            }
        }
    } else if b.len() > 0 {
        assert(falls_behind_at(a, b, 0));
    }
}

/// The characters are the same, or the two forms of one ASCII letter.
pub open spec fn same_letter(x: char, y: char) -> bool {
    ||| x == y
    ||| 'a' <= x && x <= 'z' && y as int == x as int - 32
    ||| 'a' <= y && y <= 'z' && x as int == y as int - 32
}

/// Texts have the same letters exactly if they are as long as each other and have at each place the
/// same character or the two forms of one ASCII letter.
pub proof fn same_letters_are_place_by_place(a: Seq<char>, b: Seq<char>)
    ensures
        same_letters(a, b) <==> a.len() == b.len() && forall|i: int| 0 <= i < a.len() ==> same_letter(#[trigger] a[i], b[i]),
{
    if same_letters(a, b) {
        assert(upper(a).len() == a.len() && upper(b).len() == b.len());
        assert forall|i: int| 0 <= i < a.len() implies same_letter(#[trigger] a[i], b[i]) by {
            assert(upper(a)[i] == upper_char(a[i]));
            assert(upper(b)[i] == upper_char(b[i]));
        }
    }
    if a.len() == b.len() && forall|i: int| 0 <= i < a.len() ==> same_letter(#[trigger] a[i], b[i]) {
        assert forall|i: int| 0 <= i < a.len() implies upper(a)[i] == upper(b)[i] by {
            assert(same_letter(a[i], b[i]));
        }
        assert(upper(a) =~= upper(b));
    }
}

/// The upper-case form of a text has the letters of the text and no lower-case letter.
pub proof fn upper_case_has_no_lower_case(s: Seq<char>)
    ensures
        same_letters(upper(s), s),
        forall|i: int| 0 <= i < upper(s).len() ==> !('a' <= #[trigger] upper(s)[i] && upper(s)[i] <= 'z'),
{
    assert forall|i: int| 0 <= i < upper(s).len() implies !('a' <= #[trigger] upper(s)[i] && upper(s)[i] <= 'z') by {
        assert(upper(s)[i] == upper_char(s[i]));
    }
    assert(upper(upper(s)) =~= upper(s));
}

/// Joined texts are put together from the joined texts of any two parts, with the separator between;
/// one text is itself, and none are nothing.
pub proof fn texts_join_by_parts(a: Seq<Seq<char>>, b: Seq<Seq<char>>, sep: Seq<char>)
    ensures
        a.len() > 0 && b.len() > 0 ==> joined(a + b, sep) == joined(a, sep) + sep + joined(b, sep),
        a.len() == 1 ==> joined(a, sep) == a[0],
        a.len() == 0 ==> joined(a, sep).len() == 0,
    decreases b.len(),
{
    if a.len() > 0 && b.len() > 0 {
        let all = a + b;
        assert(all.last() == b.last());
        assert(all.drop_last() =~= a + b.drop_last());
        if b.len() > 1 {
            texts_join_by_parts(a, b.drop_last(), sep);
            assert(joined(a, sep) + sep + joined(b.drop_last(), sep) + sep + b.last() =~= joined(a, sep) + sep + (joined(
                b.drop_last(),
                sep,
            ) + sep + b.last()));
        } else {
            assert(a + b.drop_last() =~= a);
        }
    }
}

} // verus!

//! JSON values: `serde_json::Value` and `serde_json::Map`, with what they hold stated as a
//! mathematical tree.
use crate::text::{before, before_is_strict_order, texts};
use vstd::prelude::*;

verus! {

/// What a JSON value is.
pub ghost enum Tree {
    Null,
    Bool(bool),
    /// A whole number.
    Integer(int),
    /// A number with a fraction or an exponent, by its printed text.
    Float(Seq<char>),
    Text(Seq<char>),
    Array(Seq<Tree>),
    Object(Map<Seq<char>, Tree>),
}

/// `serde_json::Value`, one JSON value.
#[verifier::external_type_specification]
#[verifier::external_body]
pub struct ExValue(serde_json::Value);

/// `serde_json::Map`, the members of one JSON object.
#[verifier::external_type_specification]
#[verifier::external_body]
#[verifier::reject_recursive_types(K)]
#[verifier::reject_recursive_types(V)]
pub struct ExMap<K, V>(serde_json::Map<K, V>);

/// The JSON value that a `serde_json::Value` holds.
pub uninterp spec fn tree(v: serde_json::Value) -> Tree;

/// The members that a `serde_json::Map` holds.
pub uninterp spec fn members(m: serde_json::Map<String, serde_json::Value>) -> Map<Seq<char>, Tree>;

/// The JSON value that `serde_json::from_str` reads from a text, where it accepts the text.
pub uninterp spec fn json_read(text: Seq<char>) -> Option<Tree>;

/// `serde_json::from_str` at the type `serde_json::Value`. The claim is that the text alone
/// decides whether it is accepted and which value comes out.
#[verifier::external_body]
pub(crate) fn parse_json(text: &str) -> (r: Option<serde_json::Value>)
    ensures
        match r {
            Some(v) => json_read(text@) == Some(tree(v)),
            None => json_read(text@) is None,
        },
{
    serde_json::from_str(text).ok()
}

/// `serde_json::Value::get` with a string index: the member of that name where the value is an
/// object that has one.
#[verifier::external_body]
pub(crate) fn member<'a>(v: &'a serde_json::Value, key: &str) -> (r: Option<&'a serde_json::Value>)
    ensures
        match r {
            Some(x) => tree(*v) is Object && tree(*v)->Object_0.contains_key(key@) && tree(*x)
                == tree(*v)->Object_0[key@],
            None => tree(*v) is Object ==> !tree(*v)->Object_0.contains_key(key@),
        },
{
    v.get(key)
}

/// `serde_json::Value::as_str`: the text of a JSON string.
#[verifier::external_body]
pub(crate) fn as_text<'a>(v: &'a serde_json::Value) -> (r: Option<&'a str>)
    ensures
        match r {
            Some(s) => tree(*v) == Tree::Text(s@),
            None => !(tree(*v) is Text),
        },
{
    v.as_str()
}

/// `serde_json::Value::as_array`: the items of a JSON array.
#[verifier::external_body]
pub(crate) fn as_items<'a>(v: &'a serde_json::Value) -> (r: Option<&'a Vec<serde_json::Value>>)
    ensures
        match r {
            Some(a) => tree(*v) == Tree::Array(trees(a@)),
            None => !(tree(*v) is Array),
        },
{
    v.as_array()
}

/// `serde_json::Value::clone`: a value that holds the same.
pub assume_specification[ <serde_json::Value as Clone>::clone ](v: &serde_json::Value) -> (r:
    serde_json::Value)
    ensures
        tree(r) == tree(*v),
;

/// `serde_json::Value::String`.
#[verifier::external_body]
pub(crate) fn text_value(s: String) -> (r: serde_json::Value)
    ensures
        tree(r) == Tree::Text(s@),
{
    serde_json::Value::String(s)
}

/// `serde_json::Value::Bool`.
#[verifier::external_body]
pub(crate) fn bool_value(b: bool) -> (r: serde_json::Value)
    ensures
        tree(r) == Tree::Bool(b),
{
    serde_json::Value::Bool(b)
}

/// `serde_json::Value::from` on a signed number.
#[verifier::external_body]
pub(crate) fn integer_value(n: i64) -> (r: serde_json::Value)
    ensures
        tree(r) == Tree::Integer(n as int),
{
    serde_json::Value::from(n)
}

/// `serde_json::Value::from` on a length.
#[verifier::external_body]
pub(crate) fn length_value(n: usize) -> (r: serde_json::Value)
    ensures
        tree(r) == Tree::Integer(n as int),
{
    serde_json::Value::from(n)
}

/// `serde_json::Value::Array`.
#[verifier::external_body]
pub(crate) fn array_value(items: Vec<serde_json::Value>) -> (r: serde_json::Value)
    ensures
        tree(r) == Tree::Array(trees(items@)),
{
    serde_json::Value::Array(items)
}

/// What an optional value holds.
pub open spec fn tree_of(v: Option<serde_json::Value>) -> Option<Tree> {
    match v {
        Some(x) => Some(tree(x)),
        None => None,
    }
}

/// What each of a sequence of values holds.
pub open spec fn trees(items: Seq<serde_json::Value>) -> Seq<Tree> {
    items.map_values(|v: serde_json::Value| tree(v))
}

/// The members that pairs of a name and a value make, each inserted in turn, so that a later pair
/// replaces an earlier one of the same name.
pub open spec fn entries(fields: Seq<(Seq<char>, Tree)>) -> Map<Seq<char>, Tree>
    decreases fields.len(),
{
    if fields.len() == 0 {
        Map::empty()
    } else {
        entries(fields.drop_last()).insert(fields.last().0, fields.last().1)
    }
}

/// The object that pairs of a name and a value make.
pub open spec fn record(fields: Seq<(Seq<char>, Tree)>) -> Tree {
    Tree::Object(entries(fields))
}

/// What each pair of a name and a value holds.
pub open spec fn field_views(fields: Seq<(String, serde_json::Value)>) -> Seq<(Seq<char>, Tree)> {
    fields.map_values(|f: (String, serde_json::Value)| (f.0@, tree(f.1)))
}

/// `serde_json::Map::insert`: the name has the value from then on, whether it had one before or not,
/// and the other members stay.
#[verifier::external_body]
fn insert_member(m: &mut serde_json::Map<String, serde_json::Value>, name: String, v: serde_json::Value)
    ensures
        members(*final(m)) == members(*old(m)).insert(name@, tree(v)),
{
    m.insert(name, v);
}

/// `serde_json::Value::Object`.
#[verifier::external_body]
fn object_value(m: serde_json::Map<String, serde_json::Value>) -> (r: serde_json::Value)
    ensures
        tree(r) == Tree::Object(members(m)),
{
    serde_json::Value::Object(m)
}

/// An object with the pairs inserted in turn.
pub(crate) fn object(fields: Vec<(String, serde_json::Value)>) -> (r: serde_json::Value)
    ensures
        tree(r) == record(field_views(fields@)),
{
    let ghost views = field_views(fields@);
    let mut m = no_members();
    assert(members(m) =~= entries(views.take(0)));
    for f in it: fields
        invariant
            it.seq() == fields@,
            views == field_views(fields@),
            members(m) == entries(views.take(it.index())),
    {
        let ghost i = it.index();
        proof {
            assert(f == fields@[i]);
            assert(views.take(i + 1).drop_last() =~= views.take(i));
            assert(views.take(i + 1).last() == (f.0@, tree(f.1)));
        }
        insert_member(&mut m, f.0, f.1);
    }
    assert(views.take(views.len() as int) =~= views);
    object_value(m)
}

/// A name with a value.
pub(crate) fn field(name: &str, v: serde_json::Value) -> (r: (String, serde_json::Value))
    ensures
        r.0@ == name@,
        r.1 == v,
{
    (name.to_owned(), v)
}

/// The JSON string of a text.
pub(crate) fn text_of_str(s: &str) -> (r: serde_json::Value)
    ensures
        tree(r) == Tree::Text(s@),
{
    text_value(s.to_owned())
}

/// The one-line text that `serde_json` prints for a value.
pub uninterp spec fn json_text(t: Tree) -> Seq<char>;

/// `serde_json::Value::to_string`, the one-line text of a value. The claim is that what the value
/// holds alone decides the text.
#[verifier::external_body]
pub(crate) fn line_of(v: &serde_json::Value) -> (r: String)
    ensures
        r@ == json_text(tree(*v)),
{
    v.to_string()
}

/// The indented text that `serde_json` prints for a value, where it prints one.
pub uninterp spec fn json_pretty(t: Tree) -> Option<Seq<char>>;

/// `serde_json::to_string_pretty`, the indented text of a value. The claim is that what the value
/// holds alone decides the text.
#[verifier::external_body]
pub(crate) fn indented(v: &serde_json::Value) -> (r: Option<String>)
    ensures
        match r {
            Some(s) => json_pretty(tree(*v)) == Some(s@),
            None => json_pretty(tree(*v)) is None,
        },
{
    serde_json::to_string_pretty(v).ok()
}

/// `serde_json::Map::new`: no members.
#[verifier::external_body]
pub(crate) fn no_members() -> (r: serde_json::Map<String, serde_json::Value>)
    ensures
        members(r).is_empty(),
{
    serde_json::Map::new()
}

/// `serde_json::Map::clone`: a map that holds the same.
pub assume_specification[ <serde_json::Map<String, serde_json::Value> as Clone>::clone ](
    m: &serde_json::Map<String, serde_json::Value>,
) -> (r: serde_json::Map<String, serde_json::Value>)
    ensures
        members(r) == members(*m),
;

/// A sequence of texts in strictly ascending order.
pub open spec fn ascending(s: Seq<Seq<char>>) -> bool {
    forall|i: int, j: int| 0 <= i < j < s.len() ==> before(#[trigger] s[i], #[trigger] s[j])
}

/// Texts in ascending order that are those of an ascending sequence are that sequence.
pub proof fn lemma_ascending_unique(a: Seq<Seq<char>>, b: Seq<Seq<char>>)
    requires
        ascending(a),
        ascending(b),
        forall|k: Seq<char>| #[trigger] a.contains(k) <==> b.contains(k),
    ensures
        a == b,
    decreases a.len(),
{
    if a.len() == 0 {
        if b.len() > 0 {
            assert(b.contains(b[0]));
            assert(a.contains(b[0]));
        }
        assert(a =~= b);
    } else {
        assert(a.contains(a.last()));
        assert(b.contains(a.last()));
        assert(b.len() > 0);
        assert(b.contains(b.last()));
        assert(a.contains(b.last()));
        let i = choose|i: int| 0 <= i < a.len() && a[i] == b.last();
        let j = choose|j: int| 0 <= j < b.len() && b[j] == a.last();
        before_is_strict_order(a.last(), b.last(), a.last());
        if i < a.len() - 1 {
            assert(before(a[i], a[a.len() - 1]));
            if j < b.len() - 1 {
                assert(before(b[j], b[b.len() - 1]));
            }
        }
        assert(a.last() == b.last());
        let x = a.drop_last();
        let y = b.drop_last();
        assert forall|k: Seq<char>| #[trigger] x.contains(k) <==> y.contains(k) by {
            before_is_strict_order(k, k, k);
            if x.contains(k) {
                let m = choose|m: int| 0 <= m < x.len() && x[m] == k;
                assert(a[m] == k);
                assert(before(a[m], a[a.len() - 1]));
                assert(a.contains(k));
                let n = choose|n: int| 0 <= n < b.len() && b[n] == k;
                assert(y[n] == k);
            }
            if y.contains(k) {
                let m = choose|m: int| 0 <= m < y.len() && y[m] == k;
                assert(b[m] == k);
                assert(before(b[m], b[b.len() - 1]));
                assert(b.contains(k));
                assert(a.contains(k));
                let n = choose|n: int| 0 <= n < a.len() && a[n] == k;
                assert(x[n] == k);
            }
        }
        assert(ascending(x)) by {
            assert forall|p: int, q: int| 0 <= p < q < x.len() implies before(#[trigger] x[p], #[trigger] x[q]) by {
                assert(before(a[p], a[q]));
            }
        }
        assert(ascending(y)) by {
            assert forall|p: int, q: int| 0 <= p < q < y.len() implies before(#[trigger] y[p], #[trigger] y[q]) by {
                assert(before(b[p], b[q]));
            }
        }
        lemma_ascending_unique(x, y);
        assert(a =~= x.push(a.last()));
        assert(b =~= y.push(b.last()));
    }
}

/// `serde_json::Map::keys`: the names of the members, each once, in ascending order (the map is
/// a `BTreeMap` from strings).
#[verifier::external_body]
pub(crate) fn names(m: &serde_json::Map<String, serde_json::Value>) -> (r: Vec<String>)
    ensures
        ascending(texts(r@)),
        forall|k: Seq<char>| #[trigger] texts(r@).contains(k) <==> members(*m).contains_key(k),
{
    m.keys().cloned().collect()
}

} // verus!

//! Results as lines of text.
use crate::graph::{Graph, GraphView};
use crate::json::{as_items, as_text, member, tree, trees, Tree};
use crate::mcp::{part, text_part};
use crate::message::around;
use crate::render::rendered;
use crate::search::{ints, PathResult};
use crate::text::texts;
use vstd::prelude::*;

verus! {

/// The digit of a number below ten.
pub open spec fn digit(d: nat) -> char {
    (('0' as u32 + d) as u32) as char
}

/// A number in decimal digits.
pub open spec fn digits(n: nat) -> Seq<char>
    decreases n,
{
    if n < 10 {
        seq![digit(n)]
    } else {
        digits(n / 10).push(digit(n % 10))
    }
}

/// A text behind its number in brackets, counted from one.
pub open spec fn numbered(i: int, s: Seq<char>) -> Seq<char> {
    "["@ + digits((i + 1) as nat) + "] "@ + s
}

/// What is said above the paths from one node to another: that there are none, or how many there
/// are, and an empty line.
pub open spec fn heading(count: nat, from: Seq<char>, to: Seq<char>) -> Seq<Seq<char>> {
    if count == 0 {
        seq!["no attack path from "@ + from + " to "@ + to]
    } else {
        seq![digits(count) + " attack path(s) from "@ + from + " to "@ + to + ":"@, ""@]
    }
}

/// The paths from one node to another as lines: the heading, and each path behind its number.
pub open spec fn paths_lines(g: GraphView, from: Seq<char>, to: Seq<char>, r: PathResult) -> Seq<Seq<char>> {
    heading(r.paths@.len(), from, to) + Seq::new(
        r.paths@.len(),
        |i: int| numbered(i, rendered(g, ints(r.paths@[i].nodes@), ints(r.paths@[i].edges@))),
    )
}

/// The items of a member of an object; none where it has no such list.
pub open spec fn items_part(t: Tree, key: Seq<char>) -> Seq<Tree> {
    match part(Some(t), key) {
        Some(Tree::Array(items)) => items,
        _ => Seq::empty(),
    }
}

/// The text of a JSON string; empty for any other value.
pub open spec fn plain(t: Tree) -> Seq<char> {
    match t {
        Tree::Text(s) => s,
        _ => Seq::empty(),
    }
}

/// The answer to a query as lines: each path behind its number, then each target.
pub open spec fn answer_lines(t: Tree) -> Seq<Seq<char>> {
    items_part(t, "paths"@).map(|i: int, p: Tree| numbered(i, text_part(Some(p), "path"@))) + items_part(
        t,
        "targets"@,
    ).map_values(|x: Tree| plain(x))
}

fn digit_of(d: usize) -> (r: char)
    requires
        d < 10,
    ensures
        r == digit(d as nat),
{
    (48u8 + d as u8) as char
}

/// A number in decimal digits.
pub fn number_text(n: usize) -> (r: String)
    ensures
        r@ == digits(n as nat),
    decreases n,
{
    if n < 10 {
        let mut out = String::new();
        out.push(digit_of(n));
        assert(out@ =~= seq![digit(n as nat)]);
        out
    } else {
        let mut out = number_text(n / 10);
        out.push(digit_of(n % 10));
        out
    }
}

fn numbered_line(i: usize, s: &str) -> (r: String)
    requires
        i < usize::MAX,
    ensures
        r@ == numbered(i as int, s@),
{
    let mut out = around("[", number_text(i + 1).as_str(), "] ");
    out.append(s);
    out
}

impl Graph {
    /// The paths from one node to another as lines.
    pub fn paths_report(&self, from: &str, to: &str, found: &PathResult) -> (r: Vec<String>)
        requires
            forall|i: int| 0 <= i < found.paths@.len() ==> (#[trigger] found.paths@[i]).spans(self@),
        ensures
            texts(r@) == paths_lines(self@, from@, to@, *found),
    {
        let mut out: Vec<String> = Vec::new();
        if found.paths.len() == 0 {
            let mut line = around("no attack path from ", from, " to ");
            line.append(to);
            out.push(line);
        } else {
            let mut line = number_text(found.paths.len());
            line.append(" attack path(s) from ");
            line.append(from);
            line.append(" to ");
            line.append(to);
            line.append(":");
            out.push(line);
            out.push("".to_owned());
        }
        let ghost head = heading(found.paths@.len(), from@, to@);
        assert(texts(out@) =~= head);
        let ghost f = |i: int|
            numbered(i, rendered(self@, ints(found.paths@[i].nodes@), ints(found.paths@[i].edges@)));
        assert(head + Seq::new(0, f) =~= head);
        for i in 0..found.paths.len()
            invariant
                forall|i: int| 0 <= i < found.paths@.len() ==> (#[trigger] found.paths@[i]).spans(self@),
                f == (|i: int|
                    numbered(i, rendered(self@, ints(found.paths@[i].nodes@), ints(found.paths@[i].edges@)))),
                texts(out@) == head + Seq::new(i as nat, f),
        {
            let ghost was = texts(out@);
            out.push(numbered_line(i, self.render_path(&found.paths[i]).as_str()));
            assert(texts(out@) =~= was.push(f(i as int)));
            assert(head + Seq::new((i + 1) as nat, f) =~= was.push(f(i as int)));
        }
        out
    }
}

/// The answer to a query as lines.
pub fn answer_report(v: &serde_json::Value) -> (r: Vec<String>)
    ensures
        texts(r@) == answer_lines(tree(*v)),
{
    let mut out: Vec<String> = Vec::new();
    let ghost paths = items_part(tree(*v), "paths"@);
    let ghost targets = items_part(tree(*v), "targets"@);
    let ghost f = |i: int, p: Tree| numbered(i, text_part(Some(p), "path"@));
    let ghost h = |x: Tree| plain(x);
    assert(texts(out@) =~= Seq::empty());
    if let Some(list) = member(v, "paths") {
        if let Some(items) = as_items(list) {
            assert(paths == trees(items@));
            assert(paths.take(0).map(f) =~= Seq::empty());
            for i in 0..items.len()
                invariant
                    paths == trees(items@),
                    f == (|i: int, p: Tree| numbered(i, text_part(Some(p), "path"@))),
                    texts(out@) == paths.take(i as int).map(f),
            {
                let ghost was = texts(out@);
                let mut shown = String::new();
                assert(shown@ =~= Seq::empty());
                if let Some(p) = member(&items[i], "path") {
                    if let Some(s) = as_text(p) {
                        shown = s.to_owned();
                    }
                }
                assert(paths[i as int] == tree(items@[i as int]));
                assert(shown@ == text_part(Some(paths[i as int]), "path"@));
                out.push(numbered_line(i, shown.as_str()));
                assert(texts(out@) =~= was.push(f(i as int, paths[i as int])));
                assert(paths.take(i + 1).map(f) =~= was.push(f(i as int, paths[i as int])));
            }
            assert(paths.take(items.len() as int) =~= paths);
        }
    }
    assert(texts(out@) =~= paths.map(f));
    if let Some(list) = member(v, "targets") {
        if let Some(items) = as_items(list) {
            assert(targets == trees(items@));
            assert(paths.map(f) + targets.take(0).map_values(h) =~= paths.map(f));
            for i in 0..items.len()
                invariant
                    targets == trees(items@),
                    h == (|x: Tree| plain(x)),
                    texts(out@) == paths.map(f) + targets.take(i as int).map_values(h),
            {
                let ghost was = texts(out@);
                assert(targets[i as int] == tree(items@[i as int]));
                let mut shown = String::new();
                assert(shown@ =~= Seq::empty());
                if let Some(s) = as_text(&items[i]) {
                    shown = s.to_owned();
                }
                assert(shown@ == plain(targets[i as int]));
                out.push(shown);
                assert(texts(out@) =~= was.push(h(targets[i as int])));
                assert(paths.map(f) + targets.take(i + 1).map_values(h) =~= was.push(h(targets[i as int])));
            }
            assert(targets.take(items.len() as int) =~= targets);
        }
    }
    assert(texts(out@) =~= paths.map(f) + targets.map_values(h));
    out
}

} // verus!

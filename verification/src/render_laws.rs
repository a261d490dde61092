//! Laws of the rendering of attack paths and of results as lines.
use crate::graph::{label, GraphView};
use crate::json::{ascending, lemma_ascending_unique, Tree};
use crate::json_laws::other_names_are_not_read;
use crate::mcp::{part, text_part};
use crate::model::EdgeView;
use crate::render::{edge_label, rendered, sorted_names};
use crate::report::{answer_lines, digits, items_part, numbered, paths_lines, plain};
use crate::run::{path_tree, paths_tree, targets_tree};
use crate::run_laws::{path_results_are_shown_whole, targets_are_shown_by_kind_and_id};
use crate::search::{ints, AttackPath, PathResult};
use crate::text::joined;
use vstd::prelude::*;

verus! {

/// An edge that grants no action and that nothing gates is shown by its kind alone.
pub proof fn plain_edges_show_their_kind(e: EdgeView)
    requires
        e.action is None,
        e.conditions is None || e.conditions->0.is_empty(),
    ensures
        edge_label(e) == e.kind,
{
    assert(edge_label(e) =~= e.kind);
}

/// The action that an edge grants is shown behind its kind.
pub proof fn grants_show_their_action(e: EdgeView, a: Seq<char>)
    requires
        e.action == Some(a),
        e.conditions is None || e.conditions->0.is_empty(),
    ensures
        edge_label(e) == e.kind + " "@ + a,
{
    assert(edge_label(e) =~= e.kind + " "@ + a);
}

/// A gated edge is shown as it would be without its conditions, and behind it the names of the
/// conditions in ascending order.
pub proof fn gates_are_shown_by_their_names(e: EdgeView, names: Seq<Seq<char>>)
    requires
        e.conditions is Some,
        !e.conditions->0.is_empty(),
        ascending(names),
        forall|k: Seq<char>| #[trigger] names.contains(k) <==> e.conditions->0.contains_key(k),
    ensures
        edge_label(e) == edge_label(EdgeView { conditions: None, ..e }) + " (conditional: "@ + joined(names, ", "@) + ")"@,
{
    let m = e.conditions->0;
    assert(ascending(names) && forall|k: Seq<char>| #[trigger] names.contains(k) <==> m.contains_key(k));
    lemma_ascending_unique(names, sorted_names(m));
    assert(edge_label(e) =~= edge_label(EdgeView { conditions: None, ..e }) + " (conditional: "@ + joined(names, ", "@)
        + ")"@);
}

/// A path of one node is shown by the kind and the id of the node.
pub proof fn one_node_is_shown_by_kind_and_id(g: GraphView, n: int, edges: Seq<int>)
    ensures
        rendered(g, seq![n], edges) == g.nodes[n].kind + ":"@ + g.nodes[n].id,
{
    assert(rendered(g, seq![n], edges) =~= g.nodes[n].kind + ":"@ + g.nodes[n].id);
}

/// One more hop is shown behind the path so far: the edge, and then the kind and the id of the node.
pub proof fn one_more_hop_is_shown_behind(g: GraphView, nodes: Seq<int>, edges: Seq<int>, e: int, n: int)
    requires
        nodes.len() > 0,
    ensures
        rendered(g, nodes.push(n), edges.push(e)) == rendered(g, nodes, edges) + " --["@ + edge_label(g.edges[e])
            + "]--> "@ + g.nodes[n].kind + ":"@ + g.nodes[n].id,
{
    assert(nodes.push(n).drop_last() =~= nodes);
    assert(edges.push(e).drop_last() =~= edges);
    assert(rendered(g, nodes.push(n), edges.push(e)) =~= rendered(g, nodes, edges) + " --["@ + edge_label(g.edges[e])
        + "]--> "@ + g.nodes[n].kind + ":"@ + g.nodes[n].id);
}

/// A digit behind the digits of a number makes those of a number ten times as large, and the digit
/// more; the digits of a number below ten are one character.
pub proof fn digits_are_those_of_the_decimal_number(n: nat, d: nat)
    requires
        d < 10,
    ensures
        n > 0 ==> digits(10 * n + d) == digits(n) + digits(d),
        digits(d).len() == 1,
        digits(d)[0] as int == 48 + d,
{
    if n > 0 {
        let m = 10 * n + d;
        assert(m / 10 == n && m % 10 == d);
        assert(digits(m) =~= digits(n) + digits(d));
    }
}

/// Without a path there is one line, which says so.
pub proof fn no_paths_are_reported_as_none(g: GraphView, from: Seq<char>, to: Seq<char>, r: PathResult)
    requires
        r.paths@.len() == 0,
    ensures
        paths_lines(g, from, to, r) == seq!["no attack path from "@ + from + " to "@ + to],
{
    assert(paths_lines(g, from, to, r) =~= seq!["no attack path from "@ + from + " to "@ + to]);
}

/// Paths are counted, and each is shown on a line behind its number, in their order.
pub proof fn paths_are_counted_and_numbered(g: GraphView, from: Seq<char>, to: Seq<char>, r: PathResult)
    requires
        r.paths@.len() > 0,
    ensures
        paths_lines(g, from, to, r).len() == r.paths@.len() + 2,
        paths_lines(g, from, to, r)[0] == digits(r.paths@.len()) + " attack path(s) from "@ + from + " to "@ + to + ":"@,
        paths_lines(g, from, to, r)[1] == ""@,
        forall|i: int| #![trigger r.paths@[i]]
            0 <= i < r.paths@.len() ==> paths_lines(g, from, to, r)[i + 2] == "["@ + digits((i + 1) as nat) + "] "@
                + rendered(g, ints(r.paths@[i].nodes@), ints(r.paths@[i].edges@)),
{
}

/// The members of the two sorts of answers differ.
proof fn lemma_answer_names()
    ensures
        "targets"@ != "count"@,
        "targets"@ != "truncated"@,
        "targets"@ != "paths"@,
        "paths"@ != "count"@,
{
    reveal_strlit("count");
    reveal_strlit("truncated");
    reveal_strlit("paths");
    reveal_strlit("targets");
    assert("count"@.len() == 5 && "count"@[0] == 'c');
    assert("truncated"@.len() == 9);
    assert("paths"@.len() == 5 && "paths"@[0] == 'p');
    assert("targets"@.len() == 7);
}

/// The answer to a `PATHS` query is reported path by path, each behind its number.
pub proof fn answered_paths_are_numbered(g: GraphView, r: PathResult)
    ensures
        answer_lines(paths_tree(g, r)).len() == r.paths@.len(),
        forall|i: int| #![trigger r.paths@[i]]
            0 <= i < r.paths@.len() ==> answer_lines(paths_tree(g, r))[i] == "["@ + digits((i + 1) as nat) + "] "@
                + rendered(g, ints(r.paths@[i].nodes@), ints(r.paths@[i].edges@)),
{
    let t = paths_tree(g, r);
    path_results_are_shown_whole(g, r);
    lemma_answer_names();
    assert(part(Some(t), "targets"@) is None) by {
        lemma_paths_have_no_targets(g, r);
    }
    assert(items_part(t, "targets"@) =~= Seq::empty());
    let paths = items_part(t, "paths"@);
    assert forall|i: int| #![trigger r.paths@[i]] 0 <= i < r.paths@.len() implies answer_lines(t)[i] == "["@ + digits(
        (i + 1) as nat,
    ) + "] "@ + rendered(g, ints(r.paths@[i].nodes@), ints(r.paths@[i].edges@)) by {
        assert(text_part(Some(paths[i]), "path"@) == rendered(g, ints(r.paths@[i].nodes@), ints(r.paths@[i].edges@)));
        assert(answer_lines(t)[i] == numbered(i, text_part(Some(paths[i]), "path"@)));
    }
}

proof fn lemma_paths_have_no_targets(g: GraphView, r: PathResult)
    ensures
        part(Some(paths_tree(g, r)), "targets"@) is None,
{
    lemma_answer_names();
    let f = |p: AttackPath| path_tree(g, p);
    let fields = seq![
        ("count"@, Tree::Integer(r.paths@.len() as int)),
        ("truncated"@, Tree::Bool(r.truncated)),
        ("paths"@, Tree::Array(r.paths@.map_values(f))),
    ];
    other_names_are_not_read(fields, "targets"@);
}

/// The answer to an `ESCALATE` or a `BLAST` query is reported node by node, by kind and id.
pub proof fn answered_targets_are_listed(g: GraphView, v: Seq<usize>)
    ensures
        answer_lines(targets_tree(g, v)).len() == v.len(),
        forall|i: int| #![trigger v[i]]
            0 <= i < v.len() ==> answer_lines(targets_tree(g, v))[i] == g.nodes[v[i] as int].kind + ":"@
                + g.nodes[v[i] as int].id,
{
    let t = targets_tree(g, v);
    targets_are_shown_by_kind_and_id(g, v);
    lemma_answer_names();
    let f = |i: usize| Tree::Text(label(g.nodes[i as int]));
    let fields = seq![
        ("count"@, Tree::Integer(v.len() as int)),
        ("targets"@, Tree::Array(v.map_values(f))),
    ];
    other_names_are_not_read(fields, "paths"@);
    assert(items_part(t, "paths"@) =~= Seq::empty());
    let targets = items_part(t, "targets"@);
    assert forall|i: int| #![trigger v[i]] 0 <= i < v.len() implies answer_lines(t)[i] == g.nodes[v[i] as int].kind + ":"@
        + g.nodes[v[i] as int].id by {
        assert(answer_lines(t)[i] == plain(targets[i]));
    }
}

} // verus!

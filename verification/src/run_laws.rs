//! Laws of answers to queries.
use crate::graph::{label, place, GraphView};
use crate::graph_laws::{ids_are_found_where_they_are, known_ids_have_nodes};
use crate::json::Tree;
use crate::json_laws::fields_are_read_back;
use crate::mcp::part;
use crate::model::known;
use crate::path_laws::{
    attack_path, given_before, newer_edges_come_first, of_kinds, searches_give_attack_paths,
    searches_give_every_attack_path, tried, truncation_is_told,
};
use crate::query::{ClausesView, QueryView, TargetView};
use crate::reach::{in_blast, in_escalation, lists};
use crate::reach_laws::{
    blast_is_everything_edges_lead_to, escalation_is_every_user_group_and_role_edges_lead_to, led_to,
};
use crate::render::rendered;
use crate::run::{
    answered, asked, finding_tree, findings_of, lemma_ranked_unique, path_tree, paths_asked, paths_tree, resolve,
    targets_tree, Ask, RunFault,
};
use crate::search::{answers, ints, routes, AttackPath, GoalView, Limits, PathResult, SearchView};
use crate::search_laws::results_are_paths;
use crate::technique::{conferred, ranked, FindingView};
use vstd::prelude::*;

verus! {

/// Two ascending lists of the same places are the same list.
proof fn lemma_lists_unique(a: Seq<usize>, b: Seq<usize>, n: nat, wanted: spec_fn(int) -> bool)
    requires
        lists(a, n, wanted),
        lists(b, n, wanted),
    ensures
        a == b,
{
    lemma_ascending_places(a, b);
}

proof fn lemma_ascending_places(a: Seq<usize>, b: Seq<usize>)
    requires
        forall|i: int, j: int| 0 <= i < j < a.len() ==> a[i] < a[j],
        forall|i: int, j: int| 0 <= i < j < b.len() ==> b[i] < b[j],
        forall|x: usize| #[trigger] a.contains(x) <==> b.contains(x),
    ensures
        a == b,
    decreases a.len(),
{
    if a.len() == 0 {
        if b.len() > 0 {
            assert(b.contains(b[0]));
            assert(a.contains(b[0]));
        }
        assert(a =~= b);
    } else {
        assert(a.contains(a.last()));
        assert(b.contains(a.last()));
        assert(b.contains(b.last()));
        assert(a.contains(b.last()));
        assert(a.last() == b.last());
        let x = a.drop_last();
        let y = b.drop_last();
        assert forall|k: usize| #[trigger] x.contains(k) <==> y.contains(k) by {
            if x.contains(k) {
                let i = choose|i: int| 0 <= i < x.len() && x[i] == k;
                assert(a[i] == k);
                assert(a.contains(k));
                let j = choose|j: int| 0 <= j < b.len() && b[j] == k;
                assert(k < a.last());
                assert(y[j] == k);
            }
            if y.contains(k) {
                let i = choose|i: int| 0 <= i < y.len() && y[i] == k;
                assert(b[i] == k);
                assert(b.contains(k));
                assert(a.contains(k));
                let j = choose|j: int| 0 <= j < a.len() && a[j] == k;
                assert(k < b.last());
                assert(x[j] == k);
            }
        }
        lemma_ascending_places(x, y);
        assert(a =~= x.push(a.last()));
        assert(b =~= y.push(b.last()));
    }
}

/// Two walks over the same edges visit the same nodes.
proof fn lemma_same_nodes(g: GraphView, p: AttackPath, q: AttackPath)
    requires
        p.fits(g),
        q.fits(g),
        ints(p.edges@) == ints(q.edges@),
        ints(p.edges@).len() > 0,
    ensures
        ints(p.nodes@) == ints(q.nodes@),
{
    let n = p.edges@.len();
    assert(ints(p.edges@).len() == n);
    assert(ints(q.edges@).len() == q.edges@.len());
    assert forall|i: int| 0 <= i < n implies p.edges@[i] == q.edges@[i] by {
        assert(ints(p.edges@)[i] == p.edges@[i] as int);
        assert(ints(q.edges@)[i] == q.edges@[i] as int);
    }
    assert forall|i: int| 0 <= i <= n implies p.nodes@[i] == q.nodes@[i] by {
        if i < n {
            assert(g.ends[p.edges@[i] as int].0 == p.nodes@[i]);
            assert(g.ends[q.edges@[i] as int].0 == q.nodes@[i]);
        } else {
            assert(g.ends[p.edges@[i - 1] as int].1 == p.nodes@[i]);
            assert(g.ends[q.edges@[i - 1] as int].1 == q.nodes@[i]);
        }
    }
    assert(ints(p.nodes@) =~= ints(q.nodes@));
}

proof fn lemma_same_paths(g: GraphView, s: SearchView, start: int, limits: Limits, r: PathResult, u: PathResult)
    requires
        answers(r, g, s, start, limits),
        answers(u, g, s, start, limits),
    ensures
        paths_tree(g, r) == paths_tree(g, u),
{
    results_are_paths(r, g, s, start, limits);
    assert(routes(r.paths@) == routes(u.paths@));
    assert(routes(r.paths@).len() == r.paths@.len());
    assert(routes(u.paths@).len() == u.paths@.len());
    let f = |p: AttackPath| path_tree(g, p);
    assert forall|i: int| 0 <= i < r.paths@.len() implies path_tree(g, r.paths@[i]) == path_tree(g, u.paths@[i]) by {
        assert(routes(r.paths@)[i] == ints(r.paths@[i].edges@));
        assert(routes(u.paths@)[i] == ints(u.paths@[i].edges@));
        lemma_same_nodes(g, r.paths@[i], u.paths@[i]);
    }
    assert(r.paths@.map_values(f) =~= u.paths@.map_values(f));
}

/// A query has one answer: two JSON values that answer it are the same.
pub proof fn queries_have_one_answer(g: GraphView, a: Ask, t: Tree, u: Tree)
    requires
        answered(g, a, t),
        answered(g, a, u),
    ensures
        t == u,
{
    match a {
        Ask::Paths { start, search, limits } => {
            let r = choose|r: PathResult| answers(r, g, search, start, limits) && t == #[trigger] paths_tree(g, r);
            let v = choose|v: PathResult| answers(v, g, search, start, limits) && u == #[trigger] paths_tree(g, v);
            lemma_same_paths(g, search, start, limits, r, v);
        },
        Ask::Escalate(i) => {
            let wanted = in_escalation(g, i);
            let v = choose|v: Seq<usize>| lists(v, g.nodes.len(), wanted) && t == #[trigger] targets_tree(g, v);
            let w = choose|w: Seq<usize>| lists(w, g.nodes.len(), wanted) && u == #[trigger] targets_tree(g, w);
            lemma_lists_unique(v, w, g.nodes.len(), wanted);
        },
        Ask::Blast(i) => {
            let wanted = in_blast(g, i);
            let v = choose|v: Seq<usize>| lists(v, g.nodes.len(), wanted) && t == #[trigger] targets_tree(g, v);
            let w = choose|w: Seq<usize>| lists(w, g.nodes.len(), wanted) && u == #[trigger] targets_tree(g, w);
            lemma_lists_unique(v, w, g.nodes.len(), wanted);
        },
    }
}

/// The node at a place has the kind and the id of a reference.
pub open spec fn refers_to(g: GraphView, kind: Seq<char>, id: Seq<char>, i: int) -> bool {
    0 <= i < g.nodes.len() && g.nodes[i].kind == kind && g.nodes[i].id == id
}

/// A reference names the node with its kind and its id. It is refused where no node has the id, and
/// where the node with the id is of another kind.
pub proof fn references_name_the_node_of_their_kind_and_id(g: GraphView, kind: Seq<char>, id: Seq<char>)
    requires
        g.wf(),
    ensures
        forall|i: int| #![trigger g.nodes[i]]
            refers_to(g, kind, id, i) <==> resolve(g, kind, id) == Ok::<int, RunFault>(i),
        resolve(g, kind, id) == Err::<int, RunFault>(RunFault::NoSuchNode(id)) <==> forall|i: int|
            0 <= i < g.nodes.len() ==> (#[trigger] g.nodes[i]).id != id,
        resolve(g, kind, id) == Err::<int, RunFault>(RunFault::WrongKind { kind, id }) <==> exists|i: int|
            0 <= i < g.nodes.len() && (#[trigger] g.nodes[i]).id == id && g.nodes[i].kind != kind,
{
    known_ids_have_nodes(g, id);
    assert forall|i: int| 0 <= i < g.nodes.len() && (#[trigger] g.nodes[i]).id == id implies place(g, id) == i && known(
        g.nodes,
        id,
    ) by {
        ids_are_found_where_they_are(g, i);
    }
    if known(g.nodes, id) {
        let i = choose|i: int| 0 <= i < g.nodes.len() && (#[trigger] g.nodes[i]).id == id;
        assert(place(g, id) == i);
    }
}

/// The result is that of a search from a node: attack paths of at most so many hops, each once, and
/// not more than so many; every such path, unless as many are given as may be; and where it is not
/// said that something was cut off, every attack path of whatever length. Paths over newer edges come
/// first, and before all that is left out. It is said that something was cut off exactly if such a path
/// is left out, or if there are hops to try beyond the last.
pub open spec fn gives_attack_paths(
    r: PathResult,
    g: GraphView,
    s: SearchView,
    start: int,
    hops: nat,
    results: nat,
) -> bool {
    &&& r.paths@.len() <= results
    &&& forall|i: int| #![trigger r.paths@[i]]
        0 <= i < r.paths@.len() ==> {
            &&& attack_path(g, s, start, ints(r.paths@[i].edges@))
            &&& r.paths@[i].edges@.len() <= hops
            &&& r.paths@[i].nodes@.len() == r.paths@[i].edges@.len() + 1
            &&& r.paths@[i].nodes@[0] == start
            &&& forall|k: int| #![trigger r.paths@[i].edges@[k]]
                0 <= k < r.paths@[i].edges@.len() ==> g.ends[r.paths@[i].edges@[k] as int] == (
                    r.paths@[i].nodes@[k] as int,
                    r.paths@[i].nodes@[k + 1] as int,
                )
        }
    &&& forall|i: int, j: int|
        #![trigger r.paths@[i], r.paths@[j]]
        0 <= i < j < r.paths@.len() ==> r.paths@[i].edges@ != r.paths@[j].edges@
    &&& forall|q: Seq<int>| #[trigger]
        attack_path(g, s, start, q) && (!r.truncated || (q.len() <= hops && r.paths@.len() < results)) ==> exists|i: int|
            0 <= i < r.paths@.len() && ints((#[trigger] r.paths@[i]).edges@) == q
    &&& forall|i: int, j: int|
        #![trigger r.paths@[i], r.paths@[j]]
        0 <= i < j < r.paths@.len() ==> given_before(ints(r.paths@[i].edges@), ints(r.paths@[j].edges@))
    &&& forall|i: int, q: Seq<int>|
        #![trigger r.paths@[i], attack_path(g, s, start, q)]
        0 <= i < r.paths@.len() && attack_path(g, s, start, q) && q.len() <= hops && (forall|j: int|
            0 <= j < r.paths@.len() ==> ints((#[trigger] r.paths@[j]).edges@) != q) ==> given_before(
            ints(r.paths@[i].edges@),
            q,
        )
    &&& r.truncated <==> {
        ||| exists|q: Seq<int>| #[trigger]
            attack_path(g, s, start, q) && q.len() <= hops && forall|i: int|
                0 <= i < r.paths@.len() ==> ints((#[trigger] r.paths@[i]).edges@) != q
        ||| exists|q: Seq<int>| #[trigger] tried(g, s, start, q) && q.len() == hops + 1
    }
}

proof fn lemma_gives(r: PathResult, g: GraphView, s: SearchView, start: int, limits: Limits)
    requires
        g.wf(),
        answers(r, g, s, start, limits),
    ensures
        gives_attack_paths(r, g, s, start, limits.max_depth as nat, limits.max_results as nat),
{
    searches_give_attack_paths(r, g, s, start, limits);
    newer_edges_come_first(r, g, s, start, limits);
    truncation_is_told(r, g, s, start, limits);
    assert forall|q: Seq<int>| #[trigger]
        attack_path(g, s, start, q) && (!r.truncated || (q.len() <= limits.max_depth && r.paths@.len()
            < limits.max_results)) implies exists|i: int|
        0 <= i < r.paths@.len() && ints((#[trigger] r.paths@[i]).edges@) == q by {
        searches_give_every_attack_path(r, g, s, start, limits, q);
    }
}

/// The result of a search from the node at `start` to a target: to the node at `end`, where the target
/// is a node, or to a permission on the resource, where one is given.
pub open spec fn gives_paths_to(
    r: PathResult,
    g: GraphView,
    start: int,
    end: int,
    to: TargetView,
    via: Seq<Seq<char>>,
    hops: nat,
    on: Option<Seq<char>>,
) -> bool {
    match to {
        TargetView::Node { kind, id } => refers_to(g, kind, id, end) && gives_attack_paths(
            r,
            g,
            SearchView { via, goal: GoalView::Node(end) },
            start,
            hops,
            1000,
        ),
        TargetView::Action(pattern) => gives_attack_paths(
            r,
            g,
            SearchView { via, goal: GoalView::Action { pattern, resource: on } },
            start,
            hops,
            1000,
        ),
    }
}

/// The answer to a query for paths from the node of a kind and an id to a target, over edges of some
/// kinds, of at most so many hops, on a resource where one is given.
pub open spec fn answers_paths(
    g: GraphView,
    t: Tree,
    kind: Seq<char>,
    id: Seq<char>,
    to: TargetView,
    via: Seq<Seq<char>>,
    hops: nat,
    on: Option<Seq<char>>,
) -> bool {
    exists|r: PathResult, start: int, end: int|
        t == paths_tree(g, r) && refers_to(g, kind, id, start) && #[trigger] gives_paths_to(
            r,
            g,
            start,
            end,
            to,
            via,
            hops,
            on,
        )
}

proof fn lemma_answers_paths(
    g: GraphView,
    t: Tree,
    kind: Seq<char>,
    id: Seq<char>,
    to: TargetView,
    c: ClausesView,
    hops: nat,
)
    requires
        g.wf(),
        paths_asked(g, kind, id, to, c) is Ok,
        answered(g, paths_asked(g, kind, id, to, c)->Ok_0, t),
        hops == match c.within {
            Some(n) => n as nat,
            None => 8,
        },
    ensures
        answers_paths(g, t, kind, id, to, c.via, hops, c.on),
{
    references_name_the_node_of_their_kind_and_id(g, kind, id);
    let ask = paths_asked(g, kind, id, to, c)->Ok_0;
    let start = ask->start;
    let search = ask->search;
    let limits = ask->limits;
    let r = choose|r: PathResult| answers(r, g, search, start, limits) && t == #[trigger] paths_tree(g, r);
    lemma_gives(r, g, search, start, limits);
    assert(g.nodes[start] == g.nodes[start]);
    assert(refers_to(g, kind, id, start));
    match to {
        TargetView::Node { kind: k, id: i } => {
            references_name_the_node_of_their_kind_and_id(g, k, i);
            let end = search.goal->Node_0;
            assert(g.nodes[end] == g.nodes[end]);
            assert(gives_paths_to(r, g, start, end, to, c.via, hops, c.on));
        },
        TargetView::Action(pattern) => {
            assert(gives_paths_to(r, g, start, start, to, c.via, hops, c.on));
        },
    }
}

/// A `PATHS` query is answered with attack paths from the node that it names to what it names: over
/// edges of the kinds of its `VIA` clause, of no more hops than its `WITHIN` clause says, or eight where
/// it says none, on the resource of its `ON` clause, and no more than a thousand. Every such path is
/// among them, unless there are a thousand.
pub proof fn paths_queries_are_answered_as_they_ask(g: GraphView, q: QueryView, t: Tree)
    requires
        g.wf(),
        asked(g, q) is Ok,
        answered(g, asked(g, q)->Ok_0, t),
    ensures
        match q {
            QueryView::Paths { from_kind, from_id, to } => answers_paths(
                g,
                t,
                from_kind,
                from_id,
                to,
                Seq::empty(),
                8,
                None,
            ),
            QueryView::PathsWith { from_kind, from_id, to, clauses } => answers_paths(
                g,
                t,
                from_kind,
                from_id,
                to,
                clauses.via,
                match clauses.within {
                    Some(n) => n as nat,
                    None => 8,
                },
                clauses.on,
            ),
            _ => true,
        },
{
    match q {
        QueryView::Paths { from_kind, from_id, to } => {
            lemma_answers_paths(
                g,
                t,
                from_kind,
                from_id,
                to,
                ClausesView { via: Seq::empty(), within: None, on: None },
                8,
            );
        },
        QueryView::PathsWith { from_kind, from_id, to, clauses } => {
            lemma_answers_paths(
                g,
                t,
                from_kind,
                from_id,
                to,
                clauses,
                match clauses.within {
                    Some(n) => n as nat,
                    None => 8,
                },
            );
        },
        _ => {},
    }
}

/// A `WITHIN n HOPS` clause is kept to: the answer is that of paths of which none has more than `n`
/// edges, whatever the target.
pub proof fn within_caps_every_path(g: GraphView, q: QueryView, t: Tree, n: usize)
    requires
        g.wf(),
        q is PathsWith,
        q->clauses.within == Some(n),
        asked(g, q) is Ok,
        answered(g, asked(g, q)->Ok_0, t),
    ensures
        exists|r: PathResult|
            t == #[trigger] paths_tree(g, r) && forall|i: int|
                0 <= i < r.paths@.len() ==> (#[trigger] r.paths@[i]).edges@.len() <= n,
{
    paths_queries_are_answered_as_they_ask(g, q, t);
}

/// A `VIA` clause is kept to: the answer is that of paths over edges of the listed kinds alone.
pub proof fn via_limits_every_edge(g: GraphView, q: QueryView, t: Tree)
    requires
        g.wf(),
        q is PathsWith,
        q->clauses.via.len() > 0,
        asked(g, q) is Ok,
        answered(g, asked(g, q)->Ok_0, t),
    ensures
        exists|r: PathResult|
            t == #[trigger] paths_tree(g, r) && forall|i: int, k: int|
                0 <= i < r.paths@.len() && 0 <= k < r.paths@[i].edges@.len() ==> q->clauses.via.contains(
                    g.edges[#[trigger] r.paths@[i].edges@[k] as int].kind,
                ),
{
    paths_queries_are_answered_as_they_ask(g, q, t);
    let hops = match q->clauses.within {
        Some(n) => n as nat,
        None => 8,
    };
    let (r, start, end) = choose|r: PathResult, start: int, end: int|
        t == paths_tree(g, r) && refers_to(g, q->PathsWith_from_kind, q->PathsWith_from_id, start)
            && #[trigger] gives_paths_to(
            r,
            g,
            start,
            end,
            q->PathsWith_to,
            q->clauses.via,
            hops,
            q->clauses.on,
        );
    assert forall|i: int, k: int| 0 <= i < r.paths@.len() && 0 <= k < r.paths@[i].edges@.len() implies q->clauses.via.contains(
        g.edges[#[trigger] r.paths@[i].edges@[k] as int].kind,
    ) by {
        let edges = ints(r.paths@[i].edges@);
        assert(edges[k] == r.paths@[i].edges@[k] as int);
        assert(of_kinds(g, q->clauses.via, edges));
    }
}

/// An `ESCALATE` query is answered with the labels of every other user, group and role that edges lead
/// to from the node that it names; a `BLAST` query with those of everything that edges lead to.
pub proof fn reach_queries_are_answered_as_they_ask(g: GraphView, q: QueryView, t: Tree)
    requires
        g.wf(),
        asked(g, q) is Ok,
        answered(g, asked(g, q)->Ok_0, t),
    ensures
        match q {
            QueryView::Escalate { from_kind, from_id } => exists|v: Seq<usize>, start: int|
                {
                    &&& t == #[trigger] targets_tree(g, v)
                    &&& #[trigger] refers_to(g, from_kind, from_id, start)
                    &&& forall|x: usize| #[trigger]
                        v.contains(x) <==> x < g.nodes.len() && x != start && led_to(g, start, x as int) && (
                        g.nodes[x as int].kind == "user"@ || g.nodes[x as int].kind == "group"@
                            || g.nodes[x as int].kind == "role"@)
                    &&& forall|i: int, j: int| 0 <= i < j < v.len() ==> v[i] < v[j]
                },
            QueryView::Blast { from_kind, from_id } => exists|v: Seq<usize>, start: int|
                {
                    &&& t == #[trigger] targets_tree(g, v)
                    &&& #[trigger] refers_to(g, from_kind, from_id, start)
                    &&& forall|x: usize| #[trigger]
                        v.contains(x) <==> x < g.nodes.len() && x != start && led_to(g, start, x as int)
                    &&& forall|i: int, j: int| 0 <= i < j < v.len() ==> v[i] < v[j]
                },
            _ => true,
        },
{
    match q {
        QueryView::Escalate { from_kind, from_id } => {
            references_name_the_node_of_their_kind_and_id(g, from_kind, from_id);
            let start = resolve(g, from_kind, from_id)->Ok_0;
            assert(g.nodes[start] == g.nodes[start]);
            let v = choose|v: Seq<usize>|
                lists(v, g.nodes.len(), in_escalation(g, start)) && t == #[trigger] targets_tree(g, v);
            escalation_is_every_user_group_and_role_edges_lead_to(g, start, v);
            assert(t == targets_tree(g, v) && refers_to(g, from_kind, from_id, start));
        },
        QueryView::Blast { from_kind, from_id } => {
            references_name_the_node_of_their_kind_and_id(g, from_kind, from_id);
            let start = resolve(g, from_kind, from_id)->Ok_0;
            assert(g.nodes[start] == g.nodes[start]);
            let v = choose|v: Seq<usize>|
                lists(v, g.nodes.len(), in_blast(g, start)) && t == #[trigger] targets_tree(g, v);
            blast_is_everything_edges_lead_to(g, start, v);
            assert(t == targets_tree(g, v) && refers_to(g, from_kind, from_id, start));
        },
        _ => {},
    }
}

/// Some node has the kind and the id of a reference.
pub open spec fn names_a_node(g: GraphView, kind: Seq<char>, id: Seq<char>) -> bool {
    exists|i: int| refers_to(g, kind, id, i)
}

/// No node has the id.
pub open spec fn has_no_node(g: GraphView, id: Seq<char>) -> bool {
    forall|i: int| 0 <= i < g.nodes.len() ==> (#[trigger] g.nodes[i]).id != id
}

proof fn lemma_refers(g: GraphView, kind: Seq<char>, id: Seq<char>)
    requires
        g.wf(),
    ensures
        resolve(g, kind, id) is Ok <==> names_a_node(g, kind, id),
        !names_a_node(g, kind, id) ==> resolve(g, kind, id) == Err::<int, RunFault>(
            if has_no_node(g, id) {
                RunFault::NoSuchNode(id)
            } else {
                RunFault::WrongKind { kind, id }
            },
        ),
{
    references_name_the_node_of_their_kind_and_id(g, kind, id);
    if names_a_node(g, kind, id) {
        let i = choose|i: int| refers_to(g, kind, id, i);
        assert(g.nodes[i] == g.nodes[i]);
    }
    if resolve(g, kind, id) is Ok {
        let i = resolve(g, kind, id)->Ok_0;
        assert(g.nodes[i] == g.nodes[i]);
        assert(refers_to(g, kind, id, i));
    }
}

/// A query is refused exactly if a reference in it names no node: with the reference that it starts
/// from, if that names none, and else with that of its target.
pub proof fn queries_are_refused_for_references_without_a_node(g: GraphView, q: QueryView)
    requires
        g.wf(),
    ensures
        match q {
            QueryView::Paths { from_kind, from_id, to } => refused_for(g, asked(g, q), from_kind, from_id, Some(to)),
            QueryView::PathsWith { from_kind, from_id, to, .. } => refused_for(
                g,
                asked(g, q),
                from_kind,
                from_id,
                Some(to),
            ),
            QueryView::Escalate { from_kind, from_id } => refused_for(g, asked(g, q), from_kind, from_id, None),
            QueryView::Blast { from_kind, from_id } => refused_for(g, asked(g, q), from_kind, from_id, None),
        },
{
    match q {
        QueryView::Paths { from_kind, from_id, to } => {
            lemma_refused(g, from_kind, from_id, to);
        },
        QueryView::PathsWith { from_kind, from_id, to, .. } => {
            lemma_refused(g, from_kind, from_id, to);
        },
        QueryView::Escalate { from_kind, from_id } => {
            lemma_refers(g, from_kind, from_id);
        },
        QueryView::Blast { from_kind, from_id } => {
            lemma_refers(g, from_kind, from_id);
        },
    }
}

proof fn lemma_refused(g: GraphView, kind: Seq<char>, id: Seq<char>, to: TargetView)
    requires
        g.wf(),
    ensures
        forall|c: ClausesView| #![trigger paths_asked(g, kind, id, to, c)]
            refused_for(g, paths_asked(g, kind, id, to, c), kind, id, Some(to)),
{
    lemma_refers(g, kind, id);
    if let TargetView::Node { kind: k, id: i } = to {
        lemma_refers(g, k, i);
    }
}

/// A query from a reference to a target is refused exactly if one of them names no node.
pub open spec fn refused_for(
    g: GraphView,
    asked: Result<Ask, RunFault>,
    kind: Seq<char>,
    id: Seq<char>,
    to: Option<TargetView>,
) -> bool {
    if !names_a_node(g, kind, id) {
        asked == Err::<Ask, RunFault>(
            if has_no_node(g, id) {
                RunFault::NoSuchNode(id)
            } else {
                RunFault::WrongKind { kind, id }
            },
        )
    } else {
        match to {
            Some(TargetView::Node { kind: k, id: i }) => if !names_a_node(g, k, i) {
                asked == Err::<Ask, RunFault>(
                    if has_no_node(g, i) {
                        RunFault::NoSuchNode(i)
                    } else {
                        RunFault::WrongKind { kind: k, id: i }
                    },
                )
            } else {
                asked is Ok
            },
            _ => asked is Ok,
        }
    }
}

/// What is shown of a search: how many paths there are, whether something was cut off, and for each
/// path, in order, its chain and its techniques.
pub proof fn path_results_are_shown_whole(g: GraphView, r: PathResult)
    ensures
        part(Some(paths_tree(g, r)), "count"@) == Some(Tree::Integer(r.paths@.len() as int)),
        part(Some(paths_tree(g, r)), "truncated"@) == Some(Tree::Bool(r.truncated)),
        part(Some(paths_tree(g, r)), "paths"@) is Some,
        part(Some(paths_tree(g, r)), "paths"@)->0 is Array,
        part(Some(paths_tree(g, r)), "paths"@)->0->Array_0.len() == r.paths@.len(),
        forall|i: int| #![trigger r.paths@[i]]
            0 <= i < r.paths@.len() ==> {
                let shown = part(Some(paths_tree(g, r)), "paths"@)->0->Array_0[i];
                let p = r.paths@[i];
                &&& part(Some(shown), "path"@) == Some(Tree::Text(rendered(g, ints(p.nodes@), ints(p.edges@))))
                &&& part(Some(shown), "findings"@) is Some
                &&& part(Some(shown), "findings"@)->0 is Array
                &&& part(Some(shown), "findings"@)->0->Array_0.len() == findings_of(g, ints(p.nodes@)).len()
                &&& forall|k: int|
                    0 <= k < findings_of(g, ints(p.nodes@)).len() ==> {
                        let f = #[trigger] findings_of(g, ints(p.nodes@))[k];
                        let x = part(Some(shown), "findings"@)->0->Array_0[k];
                        &&& part(Some(x), "technique"@) == Some(Tree::Text(f.technique))
                        &&& part(Some(x), "severity"@) == Some(Tree::Text(f.severity))
                        &&& part(Some(x), "principal"@) == Some(Tree::Text(f.principal))
                        &&& part(Some(x), "why"@) == Some(Tree::Text(f.why))
                    }
            },
{
    lemma_result_names();
    let f = |p: AttackPath| path_tree(g, p);
    let fields = seq![
        ("count"@, Tree::Integer(r.paths@.len() as int)),
        ("truncated"@, Tree::Bool(r.truncated)),
        ("paths"@, Tree::Array(r.paths@.map_values(f))),
    ];
    fields_are_read_back(fields, 0);
    fields_are_read_back(fields, 1);
    fields_are_read_back(fields, 2);
    let list = part(Some(paths_tree(g, r)), "paths"@)->0->Array_0;
    assert forall|i: int| #![trigger r.paths@[i]] 0 <= i < r.paths@.len() implies {
        let shown = list[i];
        let p = r.paths@[i];
        &&& part(Some(shown), "path"@) == Some(Tree::Text(rendered(g, ints(p.nodes@), ints(p.edges@))))
        &&& part(Some(shown), "findings"@) is Some
        &&& part(Some(shown), "findings"@)->0 is Array
        &&& part(Some(shown), "findings"@)->0->Array_0.len() == findings_of(g, ints(p.nodes@)).len()
        &&& forall|k: int|
            0 <= k < findings_of(g, ints(p.nodes@)).len() ==> {
                let f = #[trigger] findings_of(g, ints(p.nodes@))[k];
                let x = part(Some(shown), "findings"@)->0->Array_0[k];
                &&& part(Some(x), "technique"@) == Some(Tree::Text(f.technique))
                &&& part(Some(x), "severity"@) == Some(Tree::Text(f.severity))
                &&& part(Some(x), "principal"@) == Some(Tree::Text(f.principal))
                &&& part(Some(x), "why"@) == Some(Tree::Text(f.why))
            }
    } by {
        lemma_path_shown(g, r.paths@[i]);
        assert(list[i] == path_tree(g, r.paths@[i]));
    }
}

proof fn lemma_path_shown(g: GraphView, p: AttackPath)
    ensures
        ({
            let shown = path_tree(g, p);
            &&& part(Some(shown), "path"@) == Some(Tree::Text(rendered(g, ints(p.nodes@), ints(p.edges@))))
            &&& part(Some(shown), "findings"@) is Some
            &&& part(Some(shown), "findings"@)->0 is Array
            &&& part(Some(shown), "findings"@)->0->Array_0.len() == findings_of(g, ints(p.nodes@)).len()
            &&& forall|k: int|
                0 <= k < findings_of(g, ints(p.nodes@)).len() ==> {
                    let f = #[trigger] findings_of(g, ints(p.nodes@))[k];
                    let x = part(Some(shown), "findings"@)->0->Array_0[k];
                    &&& part(Some(x), "technique"@) == Some(Tree::Text(f.technique))
                    &&& part(Some(x), "severity"@) == Some(Tree::Text(f.severity))
                    &&& part(Some(x), "principal"@) == Some(Tree::Text(f.principal))
                    &&& part(Some(x), "why"@) == Some(Tree::Text(f.why))
                }
        }),
{
    lemma_result_names();
    let all = findings_of(g, ints(p.nodes@));
    let h = |f: FindingView| finding_tree(f);
    let fields = seq![
        ("path"@, Tree::Text(rendered(g, ints(p.nodes@), ints(p.edges@)))),
        ("findings"@, Tree::Array(all.map_values(h))),
    ];
    fields_are_read_back(fields, 0);
    fields_are_read_back(fields, 1);
    let list = part(Some(path_tree(g, p)), "findings"@)->0->Array_0;
    assert forall|k: int| 0 <= k < all.len() implies {
        let f = #[trigger] all[k];
        let x = list[k];
        &&& part(Some(x), "technique"@) == Some(Tree::Text(f.technique))
        &&& part(Some(x), "severity"@) == Some(Tree::Text(f.severity))
        &&& part(Some(x), "principal"@) == Some(Tree::Text(f.principal))
        &&& part(Some(x), "why"@) == Some(Tree::Text(f.why))
    } by {
        let f = all[k];
        assert(list[k] == finding_tree(f));
        let four = seq![
            ("technique"@, Tree::Text(f.technique)),
            ("severity"@, Tree::Text(f.severity)),
            ("principal"@, Tree::Text(f.principal)),
            ("why"@, Tree::Text(f.why)),
        ];
        fields_are_read_back(four, 0);
        fields_are_read_back(four, 1);
        fields_are_read_back(four, 2);
        fields_are_read_back(four, 3);
    }
}

/// The names of the members of an answer differ.
proof fn lemma_result_names()
    ensures
        "count"@ != "truncated"@,
        "count"@ != "paths"@,
        "truncated"@ != "paths"@,
        "path"@ != "findings"@,
        "count"@ != "targets"@,
        "technique"@ != "severity"@,
        "technique"@ != "principal"@,
        "technique"@ != "why"@,
        "severity"@ != "principal"@,
        "severity"@ != "why"@,
        "principal"@ != "why"@,
{
    reveal_strlit("count");
    reveal_strlit("truncated");
    reveal_strlit("paths");
    reveal_strlit("path");
    reveal_strlit("findings");
    reveal_strlit("targets");
    reveal_strlit("technique");
    reveal_strlit("severity");
    reveal_strlit("principal");
    reveal_strlit("why");
    assert("count"@.len() == 5 && "count"@[0] == 'c');
    assert("truncated"@.len() == 9);
    assert("paths"@.len() == 5 && "paths"@[0] == 'p');
    assert("path"@.len() == 4);
    assert("findings"@.len() == 8);
    assert("targets"@.len() == 7);
    assert("technique"@.len() == 9 && "technique"@[0] == 't');
    assert("severity"@.len() == 8);
    assert("principal"@.len() == 9 && "principal"@[0] == 'p');
    assert("why"@.len() == 3);
}

/// What is shown of nodes that were reached: how many there are, and of each, in order, its kind, a
/// colon and its id.
pub proof fn targets_are_shown_by_kind_and_id(g: GraphView, v: Seq<usize>)
    ensures
        part(Some(targets_tree(g, v)), "count"@) == Some(Tree::Integer(v.len() as int)),
        part(Some(targets_tree(g, v)), "targets"@) is Some,
        part(Some(targets_tree(g, v)), "targets"@)->0 is Array,
        part(Some(targets_tree(g, v)), "targets"@)->0->Array_0.len() == v.len(),
        forall|i: int| #![trigger v[i]]
            0 <= i < v.len() ==> part(Some(targets_tree(g, v)), "targets"@)->0->Array_0[i] == Tree::Text(
                g.nodes[v[i] as int].kind + ":"@ + g.nodes[v[i] as int].id,
            ),
{
    lemma_result_names();
    let f = |i: usize| Tree::Text(label(g.nodes[i as int]));
    let fields = seq![
        ("count"@, Tree::Integer(v.len() as int)),
        ("targets"@, Tree::Array(v.map_values(f))),
    ];
    fields_are_read_back(fields, 0);
    fields_are_read_back(fields, 1);
}

/// The techniques that are shown of a path are those that are detected on it.
pub proof fn findings_shown_are_those_detected(g: GraphView, nodes: Seq<int>, s: Seq<FindingView>)
    requires
        ranked(s),
        forall|f: FindingView| #[trigger] s.contains(f) <==> conferred(g, nodes, f),
    ensures
        findings_of(g, nodes) == s,
{
    let t = findings_of(g, nodes);
    assert(ranked(t) && forall|f: FindingView| #[trigger] t.contains(f) <==> conferred(g, nodes, f));
    assert forall|f: FindingView| #[trigger] s.contains(f) <==> t.contains(f) by {}
    lemma_ranked_unique(s, t);
}

} // verus!

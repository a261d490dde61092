//! Attack-path search: a depth-first walk over edges, bounded in depth and in the number of
//! results, that keeps the exact edge of each hop.
use crate::glob::{action_matches, meet, stands_for, wildcard_match};
use crate::graph::{missing, place, Graph, GraphError, GraphView};
use crate::model::{known, text_of, EdgeView};
use crate::text::{holds_text, texts};
use vstd::prelude::*;

verus! {

/// How far a search goes.
#[derive(Debug, Clone, Copy, PartialEq, Eq)]
pub struct Limits {
    /// The most hops that a path has.
    pub max_depth: usize,
    /// The most paths that a search returns.
    pub max_results: usize,
}

impl Default for Limits {
    fn default() -> (r: Limits)
        ensures
            r.max_depth == 8,
            r.max_results == 1000,
    {
        Limits { max_depth: 8, max_results: 1000 }
    }
}

/// What a path is to end on.
pub enum Goal {
    /// An edge that leads to the node at this place.
    Node(usize),
    /// An edge that grants an action that meets the pattern, on the resource where one is given.
    Action { pattern: String, resource: Option<String> },
}

/// What a search looks for.
pub struct Search {
    /// The edge kinds that a path may use; all kinds where the list is empty.
    pub via: Vec<String>,
    pub goal: Goal,
}

/// What a goal is.
pub ghost enum GoalView {
    Node(int),
    Action { pattern: Seq<char>, resource: Option<Seq<char>> },
}

/// What a search looks for.
pub ghost struct SearchView {
    pub via: Seq<Seq<char>>,
    pub goal: GoalView,
}

impl View for Goal {
    type V = GoalView;

    open spec fn view(&self) -> GoalView {
        match self {
            Goal::Node(i) => GoalView::Node(*i as int),
            Goal::Action { pattern, resource } => GoalView::Action {
                pattern: pattern@,
                resource: text_of(*resource),
            },
        }
    }
}

impl View for Search {
    type V = SearchView;

    open spec fn view(&self) -> SearchView {
        SearchView { via: texts(self.via@), goal: self.goal@ }
    }
}

/// An attack path: the places of the nodes that it visits and of the edges that it takes.
#[derive(Debug, Clone, PartialEq, Eq)]
pub struct AttackPath {
    pub nodes: Vec<usize>,
    pub edges: Vec<usize>,
}

/// The paths that a search found, and whether a limit cut something off.
#[derive(Debug, Clone, PartialEq, Eq)]
pub struct PathResult {
    pub paths: Vec<AttackPath>,
    pub truncated: bool,
}

/// Places as mathematical integers.
pub open spec fn ints(v: Seq<usize>) -> Seq<int> {
    v.map_values(|x: usize| x as int)
}

impl AttackPath {
    /// The nodes of the path are nodes of the graph.
    pub open spec fn visits(self, g: GraphView) -> bool {
        forall|i: int| 0 <= i < self.nodes@.len() ==> #[trigger] self.nodes@[i] < g.nodes.len()
    }

    /// The path has an edge of the graph between each two of its nodes, which are nodes of the graph.
    pub open spec fn spans(self, g: GraphView) -> bool {
        &&& self.edges@.len() == 0 && self.nodes@.len() == 0 || self.nodes@.len() == self.edges@.len() + 1
        &&& self.visits(g)
        &&& forall|i: int| 0 <= i < self.edges@.len() ==> #[trigger] self.edges@[i] < g.edges.len()
    }

    /// The path is a walk in the graph: each edge leads from the node before it to the node after
    /// it. The empty path is one.
    pub open spec fn fits(self, g: GraphView) -> bool {
        &&& self.edges@.len() == 0 && self.nodes@.len() == 0 || self.nodes@.len() == self.edges@.len() + 1
        &&& forall|i: int| 0 <= i < self.nodes@.len() ==> #[trigger] self.nodes@[i] < g.nodes.len()
        &&& forall|i: int| #![trigger self.edges@[i]]
            0 <= i < self.edges@.len() ==> {
                &&& self.edges@[i] < g.edges.len()
                &&& g.ends[self.edges@[i] as int].0 == self.nodes@[i]
                &&& g.ends[self.edges@[i] as int].1 == self.nodes@[i + 1]
            }
    }
}

/// The edges of each of a sequence of paths.
pub open spec fn routes(paths: Seq<AttackPath>) -> Seq<Seq<int>> {
    paths.map_values(|p: AttackPath| ints(p.edges@))
}

/// The search may use the edge.
pub open spec fn admitted(s: SearchView, e: EdgeView) -> bool {
    s.via.len() == 0 || s.via.contains(e.kind)
}

/// The grant of an edge applies to a resource. A grant without a resource applies to any.
pub open spec fn covers(granted: Option<Seq<char>>, wanted: Option<Seq<char>>) -> bool {
    match (granted, wanted) {
        (Some(g), Some(w)) => stands_for(g, w),
        _ => true,
    }
}

/// The edge grants an action that meets the pattern, on the wanted resource.
pub open spec fn grants(e: EdgeView, pattern: Seq<char>, resource: Option<Seq<char>>) -> bool {
    match e.action {
        Some(a) => meet(pattern, a) && covers(e.resource, resource),
        None => false,
    }
}

/// A path that ends on the edge at `e` ends on the goal.
pub open spec fn reaches(g: GraphView, s: SearchView, e: int) -> bool {
    match s.goal {
        GoalView::Node(t) => g.ends[e].1 == t,
        GoalView::Action { pattern, resource } => grants(g.edges[e], pattern, resource),
    }
}

/// The admitted edges that leave the node at `u`, from the newest down to the one at `n`.
pub open spec fn leaving_down_to(g: GraphView, s: SearchView, u: int, n: nat) -> Seq<int>
    decreases g.edges.len() - n,
{
    if n >= g.edges.len() {
        Seq::empty()
    } else {
        let newer = leaving_down_to(g, s, u, n + 1);
        if g.ends[n as int].0 == u && admitted(s, g.edges[n as int]) {
            newer.push(n as int)
        } else {
            newer
        }
    }
}

/// The admitted edges that leave the node at `u`, the newest first: that with the highest place.
pub open spec fn leaving(g: GraphView, s: SearchView, u: int) -> Seq<int> {
    leaving_down_to(g, s, u, 0)
}

/// A walk that has been at the nodes `seen` is a path to the goal once it takes the edge at `e`. A
/// path to a node has no more nodes than the graph, unless that has but one: a way back to the start
/// through all of several nodes is not looked for.
pub open spec fn ends_here(g: GraphView, s: SearchView, seen: Seq<int>, e: int) -> bool {
    &&& reaches(g, s, e)
    &&& s.goal is Node ==> seen.len() < g.nodes.len() || g.nodes.len() == 1
}

/// A walk that has been at the nodes `seen` goes on over the edge at `e`: the edge leads to a node
/// that is new to it and is not the node looked for.
pub open spec fn goes_on(g: GraphView, s: SearchView, seen: Seq<int>, e: int) -> bool {
    &&& !seen.contains(g.ends[e].1)
    &&& s.goal != GoalView::Node(g.ends[e].1)
}

/// From the last of the nodes `seen`, the edges `q` lead to the goal without coming back to a node
/// on the way.
pub open spec fn path_from(g: GraphView, s: SearchView, seen: Seq<int>, q: Seq<int>) -> bool
    decreases q.len(),
{
    &&& q.len() > 0
    &&& leaving(g, s, seen.last()).contains(q[0])
    &&& if q.len() == 1 {
        ends_here(g, s, seen, q[0])
    } else {
        goes_on(g, s, seen, q[0]) && path_from(g, s, seen.push(g.ends[q[0]].1), q.drop_first())
    }
}

/// From the last of the nodes `seen`, the edges `q` are hops that an unlimited search takes: it
/// goes on over all but the last, and the last ends on the goal or can be gone on over too.
pub open spec fn hops_from(g: GraphView, s: SearchView, seen: Seq<int>, q: Seq<int>) -> bool
    decreases q.len(),
{
    &&& q.len() > 0
    &&& leaving(g, s, seen.last()).contains(q[0])
    &&& if q.len() == 1 {
        ends_here(g, s, seen, q[0]) || goes_on(g, s, seen, q[0])
    } else {
        goes_on(g, s, seen, q[0]) && hops_from(g, s, seen.push(g.ends[q[0]].1), q.drop_first())
    }
}

/// An unlimited search takes more than `left` hops from the last of the nodes `seen`.
pub open spec fn overlong(g: GraphView, s: SearchView, seen: Seq<int>, left: nat) -> bool {
    exists|q: Seq<int>| #[trigger] hops_from(g, s, seen, q) && q.len() == left + 1
}

/// The paths of at most `left` hops from the last of the nodes `seen`, each behind the edges
/// `trail`, in depth-first order, without those that leave over the first `k` edges.
pub open spec fn found(
    g: GraphView,
    s: SearchView,
    trail: Seq<int>,
    seen: Seq<int>,
    left: nat,
    k: nat,
) -> Seq<Seq<int>>
    decreases left, leaving(g, s, seen.last()).len() - k,
{
    let out = leaving(g, s, seen.last());
    if left == 0 || k >= out.len() {
        Seq::empty()
    } else {
        let e = out[k as int];
        let here = if ends_here(g, s, seen, e) {
            seq![trail.push(e)]
        } else {
            Seq::empty()
        };
        let deeper = if goes_on(g, s, seen, e) {
            found(g, s, trail.push(e), seen.push(g.ends[e].1), (left - 1) as nat, 0)
        } else {
            Seq::empty()
        };
        here + deeper + found(g, s, trail, seen, left, k + 1)
    }
}

/// All paths of at most `depth` hops from the node at `start` to the goal, in depth-first order.
pub open spec fn all_paths(g: GraphView, s: SearchView, start: int, depth: nat) -> Seq<Seq<int>> {
    found(g, s, Seq::empty(), seq![start], depth, 0)
}

/// What a search needs of the graph, by place: the admitted edges that leave each node, where each
/// edge leads, which edges end on the goal, and the node that no path goes on from.
struct Plan {
    next: Vec<Vec<usize>>,
    heads: Vec<usize>,
    hits: Vec<bool>,
    stop: Option<usize>,
}

impl Plan {
    spec fn serves(self, g: GraphView, s: SearchView) -> bool {
        &&& g.wf()
        &&& self.next@.len() == g.nodes.len()
        &&& self.heads@.len() == g.edges.len()
        &&& self.hits@.len() == g.edges.len()
        &&& forall|u: int| 0 <= u < g.nodes.len() ==> ints((#[trigger] self.next@[u])@) == leaving(g, s, u)
        &&& forall|e: int| 0 <= e < g.edges.len() ==> #[trigger] self.heads@[e] == g.ends[e].1
        &&& forall|e: int| 0 <= e < g.edges.len() ==> #[trigger] self.hits@[e] == reaches(g, s, e)
        &&& match self.stop {
            Some(t) => s.goal == GoalView::Node(t as int),
            None => !(s.goal is Node),
        }
    }
}

/// The walk that has taken the edges `trail` and been at the nodes `seen`.
spec fn walked(g: GraphView, trail: Seq<usize>, seen: Seq<usize>) -> bool {
    &&& seen.len() == trail.len() + 1
    &&& forall|i: int| 0 <= i < seen.len() ==> #[trigger] seen[i] < g.nodes.len()
    &&& forall|i: int| #![trigger trail[i]]
        0 <= i < trail.len() ==> {
            &&& trail[i] < g.edges.len()
            &&& g.ends[trail[i] as int].0 == seen[i]
            &&& g.ends[trail[i] as int].1 == seen[i + 1]
        }
}

/// An edge is among those that leave a node exactly if it leaves it and is admitted, and newer edges
/// come first.
pub proof fn lemma_leaving(g: GraphView, s: SearchView, u: int, n: nat)
    ensures
        forall|e: int| #[trigger]
            leaving_down_to(g, s, u, n).contains(e) <==> n <= e < g.edges.len() && g.ends[e].0 == u && admitted(
                s,
                g.edges[e],
            ),
        leaving_down_to(g, s, u, n).len() <= g.edges.len(),
        n <= g.edges.len() ==> leaving_down_to(g, s, u, n).len() <= g.edges.len() - n,
        forall|i: int, j: int|
            0 <= i < j < leaving_down_to(g, s, u, n).len() ==> leaving_down_to(g, s, u, n)[i] > leaving_down_to(
                g,
                s,
                u,
                n,
            )[j],
    decreases g.edges.len() - n,
{
    if n < g.edges.len() {
        let newer = leaving_down_to(g, s, u, n + 1);
        lemma_leaving(g, s, u, n + 1);
        let now = leaving_down_to(g, s, u, n);
        assert forall|i: int| 0 <= i < newer.len() implies newer[i] > n by {
            assert(newer.contains(newer[i]));
        }
        assert forall|e: int| #[trigger] now.contains(e) <==> n <= e < g.edges.len() && g.ends[e].0 == u && admitted(
            s,
            g.edges[e],
        ) by {
            if now.contains(e) {
                let i = choose|i: int| 0 <= i < now.len() && now[i] == e;
                if i < newer.len() {
                    assert(newer[i] == e);
                    assert(newer.contains(e));
                }
            }
            if n <= e < g.edges.len() && g.ends[e].0 == u && admitted(s, g.edges[e]) {
                if e > n {
                    assert(newer.contains(e));
                    let i = choose|i: int| 0 <= i < newer.len() && newer[i] == e;
                    assert(now[i] == e);
                } else {
                    assert(now[now.len() - 1] == e);
                }
            }
        }
    }
}

/// More than no hops are taken exactly if some leaving edge is taken at all.
proof fn lemma_overlong_here(g: GraphView, s: SearchView, seen: Seq<int>)
    ensures
        overlong(g, s, seen, 0) <==> exists|k: int|
            #![trigger leaving(g, s, seen.last())[k]]
            0 <= k < leaving(g, s, seen.last()).len() && (ends_here(g, s, seen, leaving(g, s, seen.last())[k])
                || goes_on(g, s, seen, leaving(g, s, seen.last())[k])),
{
    let out = leaving(g, s, seen.last());
    if overlong(g, s, seen, 0) {
        let q = choose|q: Seq<int>| #[trigger] hops_from(g, s, seen, q) && q.len() == 1;
        let k = choose|k: int| 0 <= k < out.len() && out[k] == q[0];
        assert(out[k] == q[0]);
    }
    if exists|k: int| #![trigger out[k]] 0 <= k < out.len() && (ends_here(g, s, seen, out[k]) || goes_on(g, s, seen, out[k])) {
        let k = choose|k: int| #![trigger out[k]] 0 <= k < out.len() && (ends_here(g, s, seen, out[k]) || goes_on(g, s, seen, out[k]));
        let q = seq![out[k]];
        assert(out.contains(q[0]));
        assert(hops_from(g, s, seen, q));
    }
}

/// More than `left` hops are taken exactly if more than `left - 1` are taken behind some edge that
/// the walk goes on over.
proof fn lemma_overlong_deeper(g: GraphView, s: SearchView, seen: Seq<int>, left: nat)
    requires
        left > 0,
    ensures
        overlong(g, s, seen, left) <==> exists|k: int|
            #![trigger leaving(g, s, seen.last())[k]]
            0 <= k < leaving(g, s, seen.last()).len() && goes_on(g, s, seen, leaving(g, s, seen.last())[k])
                && overlong(
                g,
                s,
                seen.push(g.ends[leaving(g, s, seen.last())[k]].1),
                (left - 1) as nat,
            ),
{
    let out = leaving(g, s, seen.last());
    if overlong(g, s, seen, left) {
        let q = choose|q: Seq<int>| #[trigger] hops_from(g, s, seen, q) && q.len() == left + 1;
        let k = choose|k: int| 0 <= k < out.len() && out[k] == q[0];
        assert(out[k] == q[0]);
        assert(hops_from(g, s, seen.push(g.ends[q[0]].1), q.drop_first()));
        assert(overlong(g, s, seen.push(g.ends[out[k]].1), (left - 1) as nat));
    }
    if exists|k: int|
        #![trigger out[k]]
        0 <= k < out.len() && goes_on(g, s, seen, out[k]) && overlong(g, s, seen.push(g.ends[out[k]].1), (left - 1) as nat) {
        let k = choose|k: int|
            #![trigger out[k]]
            0 <= k < out.len() && goes_on(g, s, seen, out[k]) && overlong(g, s, seen.push(g.ends[out[k]].1), (left - 1) as nat);
        let after = seen.push(g.ends[out[k]].1);
        let rest = choose|q: Seq<int>| #[trigger] hops_from(g, s, after, q) && q.len() == left;
        let q = seq![out[k]] + rest;
        assert(q.drop_first() =~= rest);
        assert(out.contains(q[0]));
        assert(hops_from(g, s, seen, q));
    }
}

/// A copy of a list of places.
fn copied(v: &Vec<usize>) -> (r: Vec<usize>)
    ensures
        r@ == v@,
{
    let mut out: Vec<usize> = Vec::new();
    for i in 0..v.len()
        invariant
            out@ == v@.take(i as int),
    {
        out.push(v[i]);
        assert(v@.take(i + 1) =~= v@.take(i as int).push(v@[i as int]));
    }
    assert(v@.take(v@.len() as int) =~= v@);
    out
}

/// Whether a place is in a list.
fn includes(v: &Vec<usize>, x: usize) -> (r: bool)
    ensures
        r == ints(v@).contains(x as int),
{
    for i in 0..v.len()
        invariant
            forall|j: int| 0 <= j < i ==> v@[j] != x,
    {
        if v[i] == x {
            assert(ints(v@)[i as int] == x as int);
            return true;
        }
    }
    false
}

/// More than `left` hops are taken from the last of the nodes `seen`, without those over the first
/// `k` edges that leave it.
spec fn overlong_from(g: GraphView, s: SearchView, seen: Seq<int>, left: nat, k: nat) -> bool {
    let out = leaving(g, s, seen.last());
    if left == 0 {
        overlong(g, s, seen, 0)
    } else {
        exists|j: int|
            #![trigger out[j]]
            k <= j < out.len() && goes_on(g, s, seen, out[j]) && overlong(
                g,
                s,
                seen.push(g.ends[out[j]].1),
                (left - 1) as nat,
            )
    }
}

/// The number of steps that a search takes from the last of the nodes `seen`, without those behind
/// the first `k` edges that leave it.
spec fn steps(g: GraphView, s: SearchView, seen: Seq<int>, left: nat, k: nat) -> nat
    decreases left, leaving(g, s, seen.last()).len() - k,
{
    let out = leaving(g, s, seen.last());
    if left == 0 || k >= out.len() {
        1
    } else {
        let e = out[k as int];
        let deeper: nat = if goes_on(g, s, seen, e) {
            steps(g, s, seen.push(g.ends[e].1), (left - 1) as nat, 0)
        } else {
            0
        };
        1 + deeper + steps(g, s, seen, left, k + 1)
    }
}

/// The hops that are left to a walk that has been at the nodes `seen`.
spec fn hops_left(depth: nat, seen: Seq<int>) -> nat {
    (depth + 1 - seen.len()) as nat
}

/// What a walk finds that has taken the edges `trail` over the nodes `seen`, and that has tried the
/// first `ks[i]` edges from the node at `i` on it: what it finds from its end, and then what it finds
/// when it has gone back a hop.
spec fn to_find(g: GraphView, s: SearchView, trail: Seq<int>, seen: Seq<int>, depth: nat, ks: Seq<usize>) -> Seq<
    Seq<int>,
>
    decreases ks.len(),
{
    if ks.len() == 0 {
        Seq::empty()
    } else {
        found(g, s, trail, seen, hops_left(depth, seen), ks.last() as nat) + to_find(
            g,
            s,
            trail.drop_last(),
            seen.drop_last(),
            depth,
            ks.drop_last(),
        )
    }
}

/// Such a walk would take a hop beyond the depth.
spec fn to_cut(g: GraphView, s: SearchView, seen: Seq<int>, depth: nat, ks: Seq<usize>) -> bool
    decreases ks.len(),
{
    ks.len() > 0 && (overlong_from(g, s, seen, hops_left(depth, seen), ks.last() as nat) || to_cut(
        g,
        s,
        seen.drop_last(),
        depth,
        ks.drop_last(),
    ))
}

/// The number of steps that such a walk takes.
spec fn to_do(g: GraphView, s: SearchView, seen: Seq<int>, depth: nat, ks: Seq<usize>) -> nat
    decreases ks.len(),
{
    if ks.len() == 0 {
        0
    } else {
        steps(g, s, seen, hops_left(depth, seen), ks.last() as nat) + to_do(
            g,
            s,
            seen.drop_last(),
            depth,
            ks.drop_last(),
        )
    }
}

/// One edge is tried: what it ends on is found, and what lies behind it is found next.
proof fn lemma_try_edge(g: GraphView, s: SearchView, trail: Seq<int>, seen: Seq<int>, depth: nat, ks: Seq<usize>, next: Seq<usize>)
    requires
        seen.len() > 0,
        ks.len() > 0,
        seen.len() <= depth,
        ks.last() < leaving(g, s, seen.last()).len(),
        next.len() == ks.len(),
        next.drop_last() == ks.drop_last(),
        next.last() == ks.last() + 1,
    ensures
        ({
            let e = leaving(g, s, seen.last())[ks.last() as int];
            let here = if ends_here(g, s, seen, e) {
                seq![trail.push(e)]
            } else {
                Seq::empty()
            };
            let after = seen.push(g.ends[e].1);
            &&& goes_on(g, s, seen, e) ==> {
                &&& to_find(g, s, trail, seen, depth, ks) == here + to_find(
                    g,
                    s,
                    trail.push(e),
                    after,
                    depth,
                    next.push(0),
                )
                &&& to_cut(g, s, seen, depth, ks) == to_cut(g, s, after, depth, next.push(0))
                &&& to_do(g, s, seen, depth, ks) > to_do(g, s, after, depth, next.push(0))
            }
            &&& !goes_on(g, s, seen, e) ==> {
                &&& to_find(g, s, trail, seen, depth, ks) == here + to_find(g, s, trail, seen, depth, next)
                &&& to_cut(g, s, seen, depth, ks) == to_cut(g, s, seen, depth, next)
                &&& to_do(g, s, seen, depth, ks) > to_do(g, s, seen, depth, next)
            }
        }),
{
    let out = leaving(g, s, seen.last());
    let k = ks.last() as nat;
    let e = out[k as int];
    let left = hops_left(depth, seen);
    let after = seen.push(g.ends[e].1);
    let here = if ends_here(g, s, seen, e) {
        seq![trail.push(e)]
    } else {
        Seq::empty()
    };
    assert(left > 0);
    assert(hops_left(depth, after) == left - 1);
    let rest = found(g, s, trail, seen, left, k + 1);
    let below = to_find(g, s, trail.drop_last(), seen.drop_last(), depth, ks.drop_last());
    assert(to_find(g, s, trail, seen, depth, next) == rest + below);
    assert(overlong_from(g, s, seen, left, k) == ((goes_on(g, s, seen, e) && overlong(g, s, after, (left - 1) as nat))
        || overlong_from(g, s, seen, left, k + 1))) by {
        if overlong_from(g, s, seen, left, k) {
            let j = choose|j: int|
                #![trigger out[j]]
                k <= j < out.len() && goes_on(g, s, seen, out[j]) && overlong(
                    g,
                    s,
                    seen.push(g.ends[out[j]].1),
                    (left - 1) as nat,
                );
            assert(out[j] == out[j]);
            if j > k {
                assert(overlong_from(g, s, seen, left, k + 1));
            }
        }
        if overlong_from(g, s, seen, left, k + 1) {
            let j = choose|j: int|
                #![trigger out[j]]
                k + 1 <= j < out.len() && goes_on(g, s, seen, out[j]) && overlong(
                    g,
                    s,
                    seen.push(g.ends[out[j]].1),
                    (left - 1) as nat,
                );
            assert(out[j] == out[j]);
        }
    }
    let cut_below = to_cut(g, s, seen.drop_last(), depth, ks.drop_last());
    let do_below = to_do(g, s, seen.drop_last(), depth, ks.drop_last());
    assert(to_cut(g, s, seen, depth, ks) == (overlong_from(g, s, seen, left, k) || cut_below));
    assert(to_cut(g, s, seen, depth, next) == (overlong_from(g, s, seen, left, k + 1) || cut_below));
    assert(to_do(g, s, seen, depth, ks) == steps(g, s, seen, left, k) + do_below);
    assert(to_do(g, s, seen, depth, next) == steps(g, s, seen, left, k + 1) + do_below);
    if goes_on(g, s, seen, e) {
        let pushed = next.push(0);
        assert(pushed.drop_last() =~= next);
        assert(pushed.last() == 0);
        assert(after.drop_last() =~= seen);
        assert(trail.push(e).drop_last() =~= trail);
        let deeper = found(g, s, trail.push(e), after, (left - 1) as nat, 0);
        assert(to_find(g, s, trail.push(e), after, depth, pushed) == deeper + (rest + below));
        assert(to_find(g, s, trail, seen, depth, ks) =~= here + (deeper + (rest + below)));
        lemma_overlong_from(g, s, after, (left - 1) as nat);
        assert(to_cut(g, s, after, depth, pushed) == (overlong_from(g, s, after, (left - 1) as nat, 0) || to_cut(
            g,
            s,
            seen,
            depth,
            next,
        )));
        assert(to_do(g, s, after, depth, pushed) == steps(g, s, after, (left - 1) as nat, 0) + to_do(
            g,
            s,
            seen,
            depth,
            next,
        ));
    } else {
        assert(to_find(g, s, trail, seen, depth, ks) =~= here + (rest + below));
    }
}

/// All hops from a node are those over all edges that leave it.
proof fn lemma_overlong_from(g: GraphView, s: SearchView, seen: Seq<int>, left: nat)
    ensures
        overlong_from(g, s, seen, left, 0) == overlong(g, s, seen, left),
{
    if left > 0 {
        lemma_overlong_deeper(g, s, seen, left);
    }
}

/// Whether an unlimited search takes any hop from the end of a walk.
fn takes_a_hop(plan: &Plan, Ghost(g): Ghost<GraphView>, Ghost(s): Ghost<SearchView>, seen: &Vec<usize>) -> (r: bool)
    requires
        plan.serves(g, s),
        seen@.len() > 0,
        seen@.last() < g.nodes.len(),
    ensures
        r == overlong(g, s, ints(seen@), 0),
{
    let at: usize = seen[seen.len() - 1];
    let ghost all = ints(seen@);
    let ghost list = leaving(g, s, at as int);
    proof {
        assert(all.last() == at as int);
        assert(ints(plan.next@[at as int]@) == list);
        lemma_leaving(g, s, at as int, 0);
        lemma_overlong_here(g, s, all);
    }
    let count: usize = plan.next[at].len();
    for k in 0..count
        invariant
            plan.serves(g, s),
            count == list.len(),
            at < g.nodes.len(),
            all == ints(seen@),
            all.len() == seen@.len(),
            list == leaving(g, s, at as int),
            ints(plan.next@[at as int]@) == list,
            list.len() == plan.next@[at as int]@.len(),
            all.last() == at as int,
            forall|e: int| #[trigger] list.contains(e) ==> 0 <= e < g.edges.len(),
            overlong(g, s, all, 0) <==> exists|j: int|
                #![trigger leaving(g, s, all.last())[j]]
                0 <= j < leaving(g, s, all.last()).len() && (ends_here(g, s, all, leaving(g, s, all.last())[j])
                    || goes_on(g, s, all, leaving(g, s, all.last())[j])),
            forall|j: int| #![trigger list[j]]
                0 <= j < k ==> !ends_here(g, s, all, list[j]) && !goes_on(g, s, all, list[j]),
    {
        let e: usize = plan.next[at][k];
        assert(list[k as int] == e as int);
        assert(list.contains(e as int));
        if plan.hit(Ghost(g), Ghost(s), seen, e) || plan.open(Ghost(g), Ghost(s), seen, e) {
            return true;
        }
    }
    false
}

impl Plan {
    /// Whether a walk is a path to the goal once it takes the edge at a place.
    fn hit(&self, Ghost(g): Ghost<GraphView>, Ghost(s): Ghost<SearchView>, seen: &Vec<usize>, e: usize) -> (r: bool)
        requires
            self.serves(g, s),
            e < g.edges.len(),
        ensures
            r == ends_here(g, s, ints(seen@), e as int),
    {
        assert(ints(seen@).len() == seen@.len());
        let nodes: usize = self.next.len();
        let short: bool = match self.stop {
            Some(_) => seen.len() < nodes || nodes == 1,
            None => true,
        };
        self.hits[e] && short
    }

    /// Whether a walk goes on over the edge at a place.
    fn open(&self, Ghost(g): Ghost<GraphView>, Ghost(s): Ghost<SearchView>, seen: &Vec<usize>, e: usize) -> (r: bool)
        requires
            self.serves(g, s),
            e < g.edges.len(),
        ensures
            r == goes_on(g, s, ints(seen@), e as int),
    {
        let head: usize = self.heads[e];
        !includes(seen, head) && self.stop != Some(head)
    }
}

/// The paths from the node at `start`, by a walk that takes the newest edge first and goes back
/// where there is none left to try.
#[verifier::rlimit(60)]
#[verifier::spinoff_prover]
fn explore(
    plan: &Plan,
    Ghost(g): Ghost<GraphView>,
    Ghost(s): Ghost<SearchView>,
    start: usize,
    limits: Limits,
) -> (r: PathResult)
    requires
        plan.serves(g, s),
        start < g.nodes.len(),
    ensures
        answers(r, g, s, start as int, limits),
{
    let depth: usize = limits.max_depth;
    let cap: usize = limits.max_results;
    let ghost d = depth as nat;
    let ghost all = all_paths(g, s, start as int, d);
    let ghost over = overlong(g, s, seq![start as int], d);
    let mut trail: Vec<usize> = Vec::new();
    let mut seen: Vec<usize> = vec![start];
    let mut ks: Vec<usize> = vec![0];
    let mut paths: Vec<AttackPath> = Vec::new();
    let mut cut = false;
    proof {
        assert(ints(trail@) =~= Seq::empty());
        assert(ints(seen@) =~= seq![start as int]);
        assert(ks@.drop_last() =~= Seq::empty());
        lemma_overlong_from(g, s, ints(seen@), d);
        assert(to_find(g, s, ints(trail@).drop_last(), ints(seen@).drop_last(), d, ks@.drop_last()) =~= Seq::empty());
        assert(to_find(g, s, ints(trail@), ints(seen@), d, ks@) =~= all);
        assert(routes(paths@) =~= Seq::empty());
        assert(all =~= routes(paths@) + to_find(g, s, ints(trail@), ints(seen@), d, ks@));
        assert(!to_cut(g, s, ints(seen@).drop_last(), d, ks@.drop_last()));
    }
    while ks.len() > 0
        invariant
            plan.serves(g, s),
            d == depth as nat,
            ks@.len() > 0 ==> walked(g, trail@, seen@) && seen@.len() == ks@.len() && trail@.len() <= depth,
            paths@.len() <= cap,
            all == all_paths(g, s, start as int, d),
            over == overlong(g, s, seq![start as int], d),
            limits.max_depth == depth,
            limits.max_results == cap,
            all == routes(paths@) + to_find(g, s, ints(trail@), ints(seen@), d, ks@),
            over == (cut || to_cut(g, s, ints(seen@), d, ks@)),
            forall|i: int| 0 <= i < paths@.len() ==> (#[trigger] paths@[i]).fits(g),
        decreases to_do(g, s, ints(seen@), d, ks@),
    {
        let top: usize = ks.len() - 1;
        let at: usize = seen[top];
        let k: usize = ks[top];
        let ghost trail0 = ints(trail@);
        let ghost seen0 = ints(seen@);
        let ghost list = leaving(g, s, at as int);
        proof {
            assert(seen0.len() == seen@.len());
            assert(seen0.last() == at as int);
            assert(ints(plan.next@[at as int]@) == list);
            assert(list.len() == plan.next@[at as int]@.len());
            lemma_leaving(g, s, at as int, 0);
        }
        if trail.len() == depth || k >= plan.next[at].len() {
            if trail.len() == depth && takes_a_hop(plan, Ghost(g), Ghost(s), &seen) {
                cut = true;
            }
            let ghost ks0 = ks@;
            ks.pop();
            seen.pop();
            if trail.len() > 0 {
                trail.pop();
            }
            proof {
                assert(ks@ =~= ks0.drop_last());
                assert(ints(seen@) =~= seen0.drop_last());
                let none = found(g, s, trail0, seen0, hops_left(d, seen0), k as nat);
                assert(none.len() == 0);
                let below = to_find(g, s, trail0.drop_last(), seen0.drop_last(), d, ks@);
                assert(to_find(g, s, trail0, seen0, d, ks0) == none + below);
                if trail0.len() > 0 {
                    assert(ints(trail@) =~= trail0.drop_last());
                }
                assert(to_find(g, s, ints(trail@), ints(seen@), d, ks@) == below);
                assert(none + below =~= below);
                if hops_left(d, seen0) > 0 {
                    assert(!overlong_from(g, s, seen0, hops_left(d, seen0), k as nat));
                }
            }
        } else {
            let e: usize = plan.next[at][k];
            assert(list[k as int] == e as int);
            assert(list.contains(e as int));
            let head: usize = plan.heads[e];
            let ghost ks0 = ks@;
            ks[top] = k + 1;
            proof {
                assert(ks@.drop_last() =~= ks0.drop_last());
                lemma_try_edge(g, s, trail0, seen0, d, ks0, ks@);
            }
            let goes = plan.open(Ghost(g), Ghost(s), &seen, e);
            let hits = plan.hit(Ghost(g), Ghost(s), &seen, e);
            trail.push(e);
            seen.push(head);
            assert(ints(trail@) =~= trail0.push(e as int));
            assert(ints(seen@) =~= seen0.push(head as int));
            if hits {
                if paths.len() >= cap {
                    proof {
                        assert(routes(paths@).len() == paths@.len());
                        assert(all.len() > cap);
                        assert(all.take(cap as int) =~= routes(paths@));
                    }
                    return PathResult { paths, truncated: true };
                }
                let ghost before = paths@;
                paths.push(AttackPath { nodes: copied(&seen), edges: copied(&trail) });
                assert(routes(paths@) =~= routes(before).push(trail0.push(e as int)));
            }
            if goes {
                ks.push(0);
                assert(all =~= routes(paths@) + to_find(g, s, ints(trail@), ints(seen@), d, ks@));
            } else {
                trail.pop();
                seen.pop();
                assert(ints(trail@) =~= trail0);
                assert(ints(seen@) =~= seen0);
                assert(all =~= routes(paths@) + to_find(g, s, ints(trail@), ints(seen@), d, ks@));
            }
        }
    }
    proof {
        assert(routes(paths@).len() == paths@.len());
        assert(all =~= routes(paths@));
        assert(all.take(all.len() as int) =~= all);
    }
    PathResult { paths, truncated: cut }
}

/// The result is what a search from the node at `start` gives under the limits: the first paths in
/// depth-first order, over newer edges first, as many as fit, and whether there is more, be it another path or a hop beyond
/// the depth.
pub open spec fn answers(r: PathResult, g: GraphView, s: SearchView, start: int, limits: Limits) -> bool {
    let all = all_paths(g, s, start, limits.max_depth as nat);
    &&& routes(r.paths@) == all.take(
        if all.len() > limits.max_results {
            limits.max_results as int
        } else {
            all.len() as int
        },
    )
    &&& r.truncated == (all.len() > limits.max_results || overlong(g, s, seq![start], limits.max_depth as nat))
    &&& forall|i: int| 0 <= i < r.paths@.len() ==> (#[trigger] r.paths@[i]).fits(g)
}

impl Graph {
    /// Whether the search may use the edge at a place.
    fn admits(&self, search: &Search, e: usize) -> (r: bool)
        requires
            e < self@.edges.len(),
        ensures
            r == admitted(search@, self@.edges[e as int]),
    {
        search.via.len() == 0 || holds_text(&search.via, self.edge(e).kind.as_str())
    }

    /// Whether a path that ends on the edge at a place ends on the goal.
    fn ends_on_goal(&self, search: &Search, e: usize) -> (r: bool)
        requires
            e < self@.edges.len(),
        ensures
            r == reaches(self@, search@, e as int),
    {
        match &search.goal {
            Goal::Node(t) => self.ends(e).1 == *t,
            Goal::Action { pattern, resource } => {
                let edge = self.edge(e);
                match &edge.action {
                    None => false,
                    Some(action) => {
                        let here: bool = match (&edge.resource, resource) {
                            (Some(granted), Some(wanted)) => wildcard_match(granted.as_str(), wanted.as_str()),
                            _ => true,
                        };
                        here && action_matches(pattern.as_str(), action.as_str())
                    },
                }
            },
        }
    }

    /// The admitted edges that leave each node, by the place of the node.
    pub(crate) fn leaving_lists(&self, search: &Search) -> (r: Vec<Vec<usize>>)
        ensures
            r@.len() == self@.nodes.len(),
            forall|u: int|
                0 <= u < self@.nodes.len() ==> ints((#[trigger] r@[u])@) == leaving(self@, search@, u),
    {
        let nodes: usize = self.node_count();
        let edges: usize = self.edge_count();
        let ghost g = self@;
        let ghost s = search@;
        let mut next: Vec<Vec<usize>> = Vec::new();
        for u in 0..nodes
            invariant
                next@.len() == u,
                forall|v: int| 0 <= v < u ==> (#[trigger] next@[v])@.len() == 0,
        {
            next.push(Vec::new());
        }
        proof {
            assert forall|u: int| 0 <= u < g.nodes.len() implies ints((#[trigger] next@[u])@) == leaving_down_to(
                g,
                s,
                u,
                edges as nat,
            ) by {
                assert(ints(next@[u]@) =~= Seq::empty());
            }
        }
        let mut e: usize = edges;
        while e > 0
            invariant
                g == self@,
                s == search@,
                e <= edges,
                edges == g.edges.len(),
                next@.len() == g.nodes.len(),
                forall|u: int| 0 <= u < g.nodes.len() ==> ints((#[trigger] next@[u])@) == leaving_down_to(g, s, u, e as nat),
            decreases e,
        {
            e = e - 1;
            let pair = self.ends(e);
            let ghost before = next@;
            if self.admits(search, e) {
                next[pair.0].push(e);
            }
            proof {
                assert forall|u: int| 0 <= u < g.nodes.len() implies ints((#[trigger] next@[u])@) == leaving_down_to(
                    g,
                    s,
                    u,
                    e as nat,
                ) by {
                    assert(ints(before[u]@) == leaving_down_to(g, s, u, (e + 1) as nat));
                    if u == pair.0 && admitted(s, g.edges[e as int]) {
                        assert(ints(next@[u]@) =~= ints(before[u]@).push(e as int));
                    }
                }
            }
        }
        next
    }

    /// Prepares a search.
    fn plan(&self, search: &Search) -> (r: Plan)
        ensures
            r.serves(self@, search@),
    {
        let next = self.leaving_lists(search);
        let edges: usize = self.edge_count();
        let mut heads: Vec<usize> = Vec::new();
        let mut hits: Vec<bool> = Vec::new();
        for e in 0..edges
            invariant
                edges == self@.edges.len(),
                heads@.len() == e,
                hits@.len() == e,
                forall|d: int| 0 <= d < e ==> #[trigger] heads@[d] == self@.ends[d].1,
                forall|d: int| 0 <= d < e ==> #[trigger] hits@[d] == reaches(self@, search@, d),
        {
            let pair = self.ends(e);
            heads.push(pair.1);
            hits.push(self.ends_on_goal(search, e));
        }
        let stop: Option<usize> = match &search.goal {
            Goal::Node(t) => Some(*t),
            Goal::Action { .. } => None,
        };
        Plan { next, heads, hits, stop }
    }

    /// The paths from the node at `start` to what the search looks for.
    pub fn find_paths(&self, start: usize, search: &Search, limits: Limits) -> (r: PathResult)
        requires
            start < self@.nodes.len(),
        ensures
            answers(r, self@, search@, start as int, limits),
    {
        let plan = self.plan(search);
        explore(&plan, Ghost(self@), Ghost(search@), start, limits)
    }

    /// Every attack path from one node to another, within the default limits, those over newer edges
    /// first. From a node back to itself, a path through all of several nodes is not looked for.
    pub fn paths(&self, from: &str, to: &str) -> (r: Result<PathResult, GraphError>)
        ensures
            match r {
                Ok(found) => {
                    &&& known(self@.nodes, from@)
                    &&& known(self@.nodes, to@)
                    &&& answers(
                        found,
                        self@,
                        (SearchView { via: Seq::empty(), goal: GoalView::Node(place(self@, to@)) }),
                        place(self@, from@),
                        default_limits(),
                    )
                },
                Err(e) => missing(e, self@, from@, Some(to@)),
            },
    {
        let a = self.node_id(from)?;
        let b = self.node_id(to)?;
        let search = Search { via: Vec::new(), goal: Goal::Node(b) };
        let found = self.find_paths(a, &search, Limits::default());
        assert(search@.via =~= Seq::empty());
        Ok(found)
    }

    /// Every attack path from a node that ends on an edge granting an action that meets the
    /// pattern, within the default limits.
    pub fn paths_to_action(&self, from: &str, pattern: &str) -> (r: Result<PathResult, GraphError>)
        ensures
            match r {
                Ok(found) => {
                    &&& known(self@.nodes, from@)
                    &&& answers(
                        found,
                        self@,
                        (SearchView {
                            via: Seq::empty(),
                            goal: GoalView::Action { pattern: pattern@, resource: None },
                        }),
                        place(self@, from@),
                        default_limits(),
                    )
                },
                Err(e) => missing(e, self@, from@, None),
            },
    {
        let a = self.node_id(from)?;
        let search = Search {
            via: Vec::new(),
            goal: Goal::Action { pattern: pattern.to_owned(), resource: None },
        };
        let found = self.find_paths(a, &search, Limits::default());
        assert(search@.via =~= Seq::empty());
        Ok(found)
    }
}

/// The limits of a search that sets none.
pub open spec fn default_limits() -> Limits {
    Limits { max_depth: 8, max_results: 1000 }
}

} // verus!

//! Answers to queries, as JSON.
use crate::graph::{label, place, Graph, GraphError, GraphView};
use crate::json::{
    array_value, bool_value, field, field_views, length_value, object, record, text_of_str, text_value, tree, trees,
    Tree,
};
use crate::message::{around, behind, fault_text};
use crate::model::{known, text_of};
use crate::query::{parse, parsed, ClausesView, Fault, OqlError, Query, QueryView, Target, TargetView};
use crate::reach::{in_blast, in_escalation, lists};
use crate::render::rendered;
use crate::search::{
    answers, default_limits, ints, AttackPath, Goal, GoalView, Limits, PathResult, Search, SearchView,
};
use crate::technique::{conferred, detect, finding_views, ranked, ranking_is_strict_order, ranks_before, Finding, FindingView};
use crate::text::{same, texts};
use vstd::prelude::*;

verus! {

/// Why a query has no answer.
#[derive(Debug, Clone, PartialEq)]
pub enum RunError {
    /// The text is not a query.
    Oql(OqlError),
    /// No node has this id.
    NoSuchNode(String),
    /// The node with this id is not of the kind that the query says.
    WrongKind { kind: String, id: String },
}

/// What an error of a query is.
pub ghost enum RunFault {
    Oql(Fault),
    NoSuchNode(Seq<char>),
    WrongKind { kind: Seq<char>, id: Seq<char> },
}

impl View for RunError {
    type V = RunFault;

    open spec fn view(&self) -> RunFault {
        match self {
            RunError::Oql(e) => RunFault::Oql(e@),
            RunError::NoSuchNode(id) => RunFault::NoSuchNode(id@),
            RunError::WrongKind { kind, id } => RunFault::WrongKind { kind: kind@, id: id@ },
        }
    }
}

/// What an error of a query says.
pub open spec fn run_fault_text(f: RunFault) -> Seq<char> {
    match f {
        RunFault::Oql(e) => fault_text(e),
        RunFault::NoSuchNode(id) => "no node with id "@ + id,
        RunFault::WrongKind { kind, id } => "no "@ + kind + " with id "@ + id,
    }
}

impl RunError {
    /// What the error says.
    pub fn message(&self) -> (r: String)
        ensures
            r@ == run_fault_text(self@),
    {
        match self {
            RunError::Oql(e) => e.message(),
            RunError::NoSuchNode(id) => behind("no node with id ", id.as_str()),
            RunError::WrongKind { kind, id } => {
                let mut out = around("no ", kind.as_str(), " with id ");
                out.append(id.as_str());
                out
            },
        }
    }
}

/// The place of the node that a reference names.
pub open spec fn resolve(g: GraphView, kind: Seq<char>, id: Seq<char>) -> Result<int, RunFault> {
    if !known(g.nodes, id) {
        Err(RunFault::NoSuchNode(id))
    } else if g.nodes[place(g, id)].kind != kind {
        Err(RunFault::WrongKind { kind, id })
    } else {
        Ok(place(g, id))
    }
}

/// What a query asks of a graph.
pub ghost enum Ask {
    Paths { start: int, search: SearchView, limits: Limits },
    Escalate(int),
    Blast(int),
}

/// The clauses of a query without any.
pub open spec fn no_clauses() -> ClausesView {
    ClausesView { via: Seq::empty(), within: None, on: None }
}

/// The limits under which a query with the clauses is answered.
pub open spec fn limits_of(c: ClausesView) -> Limits {
    match c.within {
        Some(n) => Limits { max_depth: n, max_results: default_limits().max_results },
        None => default_limits(),
    }
}

/// What a `PATHS` query asks.
pub open spec fn paths_asked(
    g: GraphView,
    kind: Seq<char>,
    id: Seq<char>,
    to: TargetView,
    c: ClausesView,
) -> Result<Ask, RunFault> {
    match resolve(g, kind, id) {
        Err(e) => Err(e),
        Ok(start) => match to {
            TargetView::Action(pattern) => Ok(
                Ask::Paths {
                    start,
                    search: SearchView { via: c.via, goal: GoalView::Action { pattern, resource: c.on } },
                    limits: limits_of(c),
                },
            ),
            TargetView::Node { kind, id } => match resolve(g, kind, id) {
                Err(e) => Err(e),
                Ok(end) => Ok(
                    Ask::Paths {
                        start,
                        search: SearchView { via: c.via, goal: GoalView::Node(end) },
                        limits: limits_of(c),
                    },
                ),
            },
        },
    }
}

/// What a query asks.
pub open spec fn asked(g: GraphView, q: QueryView) -> Result<Ask, RunFault> {
    match q {
        QueryView::Paths { from_kind, from_id, to } => paths_asked(g, from_kind, from_id, to, no_clauses()),
        QueryView::PathsWith { from_kind, from_id, to, clauses } => paths_asked(g, from_kind, from_id, to, clauses),
        QueryView::Escalate { from_kind, from_id } => match resolve(g, from_kind, from_id) {
            Err(e) => Err(e),
            Ok(a) => Ok(Ask::Escalate(a)),
        },
        QueryView::Blast { from_kind, from_id } => match resolve(g, from_kind, from_id) {
            Err(e) => Err(e),
            Ok(a) => Ok(Ask::Blast(a)),
        },
    }
}

/// The techniques that nodes on a path confer, in ranked order.
pub open spec fn findings_of(g: GraphView, nodes: Seq<int>) -> Seq<FindingView> {
    choose|s: Seq<FindingView>| ranked(s) && forall|f: FindingView| #[trigger] s.contains(f) <==> conferred(g, nodes, f)
}

/// A finding as JSON.
pub open spec fn finding_tree(f: FindingView) -> Tree {
    record(
        seq![
            ("technique"@, Tree::Text(f.technique)),
            ("severity"@, Tree::Text(f.severity)),
            ("principal"@, Tree::Text(f.principal)),
            ("why"@, Tree::Text(f.why)),
        ],
    )
}

/// A path as JSON: the rendered chain, and the techniques that it confers.
pub open spec fn path_tree(g: GraphView, p: AttackPath) -> Tree {
    record(
        seq![
            ("path"@, Tree::Text(rendered(g, ints(p.nodes@), ints(p.edges@)))),
            (
                "findings"@,
                Tree::Array(findings_of(g, ints(p.nodes@)).map_values(|f: FindingView| finding_tree(f))),
            ),
        ],
    )
}

/// The result of a path search as JSON.
pub open spec fn paths_tree(g: GraphView, r: PathResult) -> Tree {
    record(
        seq![
            ("count"@, Tree::Integer(r.paths@.len() as int)),
            ("truncated"@, Tree::Bool(r.truncated)),
            ("paths"@, Tree::Array(r.paths@.map_values(|p: AttackPath| path_tree(g, p)))),
        ],
    )
}

/// Nodes that were reached, as JSON: their labels.
pub open spec fn targets_tree(g: GraphView, v: Seq<usize>) -> Tree {
    record(
        seq![
            ("count"@, Tree::Integer(v.len() as int)),
            ("targets"@, Tree::Array(v.map_values(|i: usize| Tree::Text(label(g.nodes[i as int]))))),
        ],
    )
}

/// The JSON value answers what is asked.
pub open spec fn answered(g: GraphView, a: Ask, t: Tree) -> bool {
    match a {
        Ask::Paths { start, search, limits } => exists|r: PathResult|
            answers(r, g, search, start, limits) && t == #[trigger] paths_tree(g, r),
        Ask::Escalate(a) => exists|v: Seq<usize>|
            lists(v, g.nodes.len(), in_escalation(g, a)) && t == #[trigger] targets_tree(g, v),
        Ask::Blast(a) => exists|v: Seq<usize>|
            lists(v, g.nodes.len(), in_blast(g, a)) && t == #[trigger] targets_tree(g, v),
    }
}

/// Ranked lists with the same findings are the same list.
pub proof fn lemma_ranked_unique(a: Seq<FindingView>, b: Seq<FindingView>)
    requires
        ranked(a),
        ranked(b),
        forall|f: FindingView| #[trigger] a.contains(f) <==> b.contains(f),
    ensures
        a == b,
    decreases a.len(),
{
    if a.len() == 0 {
        if b.len() > 0 {
            assert(b.contains(b[0]));
            assert(a.contains(b[0]));
        }
        assert(a =~= b);
    } else {
        assert(a.contains(a[0]));
        assert(b.contains(a[0]));
        let i = choose|i: int| 0 <= i < b.len() && b[i] == a[0];
        assert(b.contains(b[0]));
        assert(a.contains(b[0]));
        let j = choose|j: int| 0 <= j < a.len() && a[j] == b[0];
        if i > 0 && j > 0 {
            assert(ranks_before(b[0], b[i]));
            assert(ranks_before(a[0], a[j]));
            ranking_is_strict_order(a[0], b[0], a[0]);
        }
        assert(a[0] == b[0]);
        let x = a.drop_first();
        let y = b.drop_first();
        assert(ranked(x));
        assert(ranked(y));
        assert forall|f: FindingView| #[trigger] x.contains(f) <==> y.contains(f) by {
            if x.contains(f) {
                let k = choose|k: int| 0 <= k < x.len() && x[k] == f;
                assert(a[k + 1] == f);
                assert(a.contains(f));
                let m = choose|m: int| 0 <= m < b.len() && b[m] == f;
                assert(ranks_before(a[0], a[k + 1]));
                ranking_is_strict_order(f, f, f);
                assert(m > 0);
                assert(y[m - 1] == f);
            }
            if y.contains(f) {
                let k = choose|k: int| 0 <= k < y.len() && y[k] == f;
                assert(b[k + 1] == f);
                assert(b.contains(f));
                assert(a.contains(f));
                let m = choose|m: int| 0 <= m < a.len() && a[m] == f;
                assert(ranks_before(b[0], b[k + 1]));
                ranking_is_strict_order(f, f, f);
                assert(m > 0);
                assert(x[m - 1] == f);
            }
        }
        lemma_ranked_unique(x, y);
        assert(a =~= seq![a[0]] + x);
        assert(b =~= seq![b[0]] + y);
    }
}

/// A finding as JSON.
fn finding_value(f: &Finding) -> (r: serde_json::Value)
    ensures
        tree(r) == finding_tree(f@),
{
    let fields = vec![
        field("technique", text_of_str(f.technique.as_str())),
        field("severity", text_of_str(f.severity.as_str())),
        field("principal", text_of_str(f.principal.as_str())),
        field("why", text_of_str(f.why.as_str())),
    ];
    assert(field_views(fields@) =~= seq![
        ("technique"@, Tree::Text(f@.technique)),
        ("severity"@, Tree::Text(f@.severity)),
        ("principal"@, Tree::Text(f@.principal)),
        ("why"@, Tree::Text(f@.why)),
    ]);
    object(fields)
}

impl Graph {
    /// A path as JSON.
    fn path_value(&self, p: &AttackPath) -> (r: serde_json::Value)
        requires
            p.spans(self@),
        ensures
            tree(r) == path_tree(self@, *p),
    {
        let found = detect(self, p);
        let ghost all = finding_views(found@);
        let ghost nodes = ints(p.nodes@);
        proof {
            assert(ranked(findings_of(self@, nodes)) && forall|f: FindingView| #[trigger]
                findings_of(self@, nodes).contains(f) <==> conferred(self@, nodes, f));
            assert forall|f: FindingView| #[trigger] all.contains(f) <==> findings_of(self@, nodes).contains(f) by {}
            lemma_ranked_unique(all, findings_of(self@, nodes));
        }
        let mut items: Vec<serde_json::Value> = Vec::new();
        for i in 0..found.len()
            invariant
                all == finding_views(found@),
                trees(items@) == all.take(i as int).map_values(|f: FindingView| finding_tree(f)),
        {
            let ghost was = items@;
            items.push(finding_value(&found[i]));
            assert(trees(items@) =~= trees(was).push(finding_tree(all[i as int])));
            assert(all.take(i + 1).map_values(|f: FindingView| finding_tree(f)) =~= all.take(i as int).map_values(
                |f: FindingView| finding_tree(f),
            ).push(finding_tree(all[i as int])));
        }
        assert(all.take(found.len() as int) =~= all);
        let fields = vec![
            field("path", text_value(self.render_path(p))),
            field("findings", array_value(items)),
        ];
        assert(field_views(fields@) =~= seq![
            ("path"@, Tree::Text(rendered(self@, ints(p.nodes@), ints(p.edges@)))),
            (
                "findings"@,
                Tree::Array(findings_of(self@, nodes).map_values(|f: FindingView| finding_tree(f))),
            ),
        ]);
        object(fields)
    }

    /// The result of a path search as JSON.
    pub fn paths_value(&self, found: &PathResult) -> (r: serde_json::Value)
        requires
            forall|i: int| 0 <= i < found.paths@.len() ==> (#[trigger] found.paths@[i]).spans(self@),
        ensures
            tree(r) == paths_tree(self@, *found),
    {
        let ghost f = |p: AttackPath| path_tree(self@, p);
        let mut items: Vec<serde_json::Value> = Vec::new();
        for i in 0..found.paths.len()
            invariant
                forall|i: int| 0 <= i < found.paths@.len() ==> (#[trigger] found.paths@[i]).spans(self@),
                f == (|p: AttackPath| path_tree(self@, p)),
                trees(items@) == found.paths@.take(i as int).map_values(f),
        {
            let ghost was = items@;
            items.push(self.path_value(&found.paths[i]));
            assert(trees(items@) =~= trees(was).push(path_tree(self@, found.paths@[i as int])));
            assert(found.paths@.take(i + 1).map_values(f) =~= found.paths@.take(i as int).map_values(f).push(
                path_tree(self@, found.paths@[i as int]),
            ));
        }
        assert(found.paths@.take(found.paths.len() as int) =~= found.paths@);
        let fields = vec![
            field("count", length_value(found.paths.len())),
            field("truncated", bool_value(found.truncated)),
            field("paths", array_value(items)),
        ];
        assert(field_views(fields@) =~= seq![
            ("count"@, Tree::Integer(found.paths@.len() as int)),
            ("truncated"@, Tree::Bool(found.truncated)),
            ("paths"@, Tree::Array(found.paths@.map_values(f))),
        ]);
        object(fields)
    }

    /// Nodes that were reached, as JSON: their labels.
    pub fn targets_value(&self, v: &Vec<usize>) -> (r: serde_json::Value)
        requires
            forall|i: int| 0 <= i < v@.len() ==> #[trigger] v@[i] < self@.nodes.len(),
        ensures
            tree(r) == targets_tree(self@, v@),
    {
        let ghost f = |i: usize| Tree::Text(label(self@.nodes[i as int]));
        let mut items: Vec<serde_json::Value> = Vec::new();
        for i in 0..v.len()
            invariant
                forall|i: int| 0 <= i < v@.len() ==> #[trigger] v@[i] < self@.nodes.len(),
                f == (|i: usize| Tree::Text(label(self@.nodes[i as int]))),
                trees(items@) == v@.take(i as int).map_values(f),
        {
            let ghost was = items@;
            items.push(text_value(self.node_label(v[i])));
            assert(trees(items@) =~= trees(was).push(f(v@[i as int])));
            assert(v@.take(i + 1).map_values(f) =~= v@.take(i as int).map_values(f).push(f(v@[i as int])));
        }
        assert(v@.take(v.len() as int) =~= v@);
        let fields = vec![
            field("count", length_value(v.len())),
            field("targets", array_value(items)),
        ];
        assert(field_views(fields@) =~= seq![
            ("count"@, Tree::Integer(v@.len() as int)),
            ("targets"@, Tree::Array(v@.map_values(f))),
        ]);
        object(fields)
    }

    /// The place of the node that a reference names.
    pub fn resolve(&self, kind: &str, id: &str) -> (r: Result<usize, RunError>)
        ensures
            match r {
                Ok(i) => resolve(self@, kind@, id@) == Ok::<int, RunFault>(i as int) && i < self@.nodes.len()
                    && self@.nodes[i as int].id == id@,
                Err(e) => resolve(self@, kind@, id@) == Err::<int, RunFault>(e@),
            },
    {
        match self.node_id(id) {
            Err(_) => Err(RunError::NoSuchNode(id.to_owned())),
            Ok(i) => if same(self.node_kind_of(i), kind) {
                Ok(i)
            } else {
                Err(RunError::WrongKind { kind: kind.to_owned(), id: id.to_owned() })
            },
        }
    }

    /// The answer to a `PATHS` query.
    fn run_paths(
        &self,
        kind: &str,
        id: &str,
        to: &Target,
        via: &Vec<String>,
        within: Option<usize>,
        on: &Option<String>,
    ) -> (r: Result<serde_json::Value, RunError>)
        ensures
            ({
                let c = ClausesView { via: texts(via@), within, on: text_of(*on) };
                match r {
                    Ok(v) => paths_asked(self@, kind@, id@, to@, c) is Ok && answered(
                        self@,
                        paths_asked(self@, kind@, id@, to@, c)->Ok_0,
                        tree(v),
                    ),
                    Err(e) => paths_asked(self@, kind@, id@, to@, c) == Err::<Ask, RunFault>(e@),
                }
            }),
    {
        let start = self.resolve(kind, id)?;
        let goal = match to {
            Target::Action(pattern) => Goal::Action {
                pattern: pattern.clone(),
                resource: match on {
                    Some(s) => Some(s.clone()),
                    None => None,
                },
            },
            Target::Node { kind, id } => Goal::Node(self.resolve(kind.as_str(), id.as_str())?),
        };
        let limits = match within {
            Some(n) => Limits { max_depth: n, max_results: Limits::default().max_results },
            None => Limits::default(),
        };
        let search = Search { via: copy_texts(via), goal };
        let found = self.find_paths(start, &search, limits);
        let ghost c = ClausesView { via: texts(via@), within, on: text_of(*on) };
        assert(limits == limits_of(c));
        let v = self.paths_value(&found);
        assert(tree(v) == paths_tree(self@, found));
        Ok(v)
    }

    /// The identities that a node can reach, as JSON.
    pub fn run_escalate(&self, id: &str) -> (r: Result<serde_json::Value, GraphError>)
        ensures
            match r {
                Ok(v) => known(self@.nodes, id@) && answered(self@, Ask::Escalate(place(self@, id@)), tree(v)),
                Err(GraphError::NoSuchNode(s)) => s@ == id@ && !known(self@.nodes, id@),
                Err(_) => false,
            },
    {
        let targets = self.escalation_from(id)?;
        proof {
            lemma_in_range(targets@, self@, in_escalation(self@, place(self@, id@)));
        }
        let v = self.targets_value(&targets);
        assert(tree(v) == targets_tree(self@, targets@));
        Ok(v)
    }

    /// Everything that a node can reach, as JSON.
    pub fn run_blast(&self, id: &str) -> (r: Result<serde_json::Value, GraphError>)
        ensures
            match r {
                Ok(v) => known(self@.nodes, id@) && answered(self@, Ask::Blast(place(self@, id@)), tree(v)),
                Err(GraphError::NoSuchNode(s)) => s@ == id@ && !known(self@.nodes, id@),
                Err(_) => false,
            },
    {
        let targets = self.blast_from(id)?;
        proof {
            lemma_in_range(targets@, self@, in_blast(self@, place(self@, id@)));
        }
        let v = self.targets_value(&targets);
        assert(tree(v) == targets_tree(self@, targets@));
        Ok(v)
    }

    /// The answer to a query.
    pub fn run(&self, q: &Query) -> (r: Result<serde_json::Value, RunError>)
        ensures
            match r {
                Ok(v) => asked(self@, q@) is Ok && answered(self@, asked(self@, q@)->Ok_0, tree(v)),
                Err(e) => asked(self@, q@) == Err::<Ask, RunFault>(e@),
            },
    {
        match q {
            Query::Paths { from_kind, from_id, to } => {
                let via: Vec<String> = Vec::new();
                assert(texts(via@) =~= Seq::empty());
                self.run_paths(from_kind.as_str(), from_id.as_str(), to, &via, None, &None)
            },
            Query::PathsWith { from_kind, from_id, to, clauses } => self.run_paths(
                from_kind.as_str(),
                from_id.as_str(),
                to,
                &clauses.via,
                clauses.within,
                &clauses.on,
            ),
            Query::Escalate { from_kind, from_id } => {
                self.resolve(from_kind.as_str(), from_id.as_str())?;
                match self.run_escalate(from_id.as_str()) {
                    Ok(v) => Ok(v),
                    Err(_) => Err(RunError::NoSuchNode(from_id.clone())),
                }
            },
            Query::Blast { from_kind, from_id } => {
                self.resolve(from_kind.as_str(), from_id.as_str())?;
                match self.run_blast(from_id.as_str()) {
                    Ok(v) => Ok(v),
                    Err(_) => Err(RunError::NoSuchNode(from_id.clone())),
                }
            },
        }
    }

    /// The answer to a query in OQL.
    pub fn run_oql(&self, src: &str) -> (r: Result<serde_json::Value, RunError>)
        ensures
            match r {
                Ok(v) => {
                    &&& oql_asked(self@, src@) is Ok
                    &&& answered(self@, oql_asked(self@, src@)->Ok_0, tree(v))
                },
                Err(e) => oql_asked(self@, src@) == Err::<Ask, RunFault>(e@),
            },
    {
        match parse(src) {
            Err(e) => Err(RunError::Oql(e)),
            Ok(q) => self.run(&q),
        }
    }
}

/// What a text asks of a graph.
pub open spec fn oql_asked(g: GraphView, src: Seq<char>) -> Result<Ask, RunFault> {
    match parsed(src) {
        Err(f) => Err(RunFault::Oql(f)),
        Ok(q) => asked(g, q),
    }
}

/// Places of listed nodes are places of the graph.
proof fn lemma_in_range(v: Seq<usize>, g: GraphView, wanted: spec_fn(int) -> bool)
    requires
        lists(v, g.nodes.len(), wanted),
    ensures
        forall|i: int| 0 <= i < v.len() ==> #[trigger] v[i] < g.nodes.len(),
{
    assert forall|i: int| 0 <= i < v.len() implies #[trigger] v[i] < g.nodes.len() by {
        assert(v.contains(v[i]));
    }
}

/// A copy of a list of texts.
fn copy_texts(v: &Vec<String>) -> (r: Vec<String>)
    ensures
        texts(r@) == texts(v@),
{
    let mut out: Vec<String> = Vec::new();
    for i in 0..v.len()
        invariant
            out@.len() == i,
            forall|j: int| 0 <= j < i ==> (#[trigger] out@[j])@ == v@[j]@,
    {
        out.push(v[i].clone());
    }
    assert(texts(out@) =~= texts(v@));
    out
}

} // verus!

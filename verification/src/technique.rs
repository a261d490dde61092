//! Exploit-technique detection over attack paths.
//!
//! Techniques translate a path into named, ranked exploit primitives. They are evaluated over the
//! principals on a path, by the actions that each of them is granted: a primitive that takes two
//! grants is two edges out of one principal, not a single edge.
use crate::glob::{action_matches, meet};
use crate::graph::{label, Graph, GraphView};
use crate::model::NodeView;
use crate::search::{ints, AttackPath};
use crate::text::{before, before_is_strict_order, comes_before, holds_text, same, texts};
use vstd::prelude::*;

verus! {

/// One technique that a path confers.
#[derive(Debug, Clone, PartialEq, Eq)]
pub struct Finding {
    pub technique: String,
    pub severity: String,
    pub principal: String,
    pub why: String,
}

/// What a finding is.
pub ghost struct FindingView {
    pub technique: Seq<char>,
    pub severity: Seq<char>,
    pub principal: Seq<char>,
    pub why: Seq<char>,
}

impl View for Finding {
    type V = FindingView;

    open spec fn view(&self) -> FindingView {
        FindingView {
            technique: self.technique@,
            severity: self.severity@,
            principal: self.principal@,
            why: self.why@,
        }
    }
}

/// What each of a sequence of findings is.
pub open spec fn finding_views(v: Seq<Finding>) -> Seq<FindingView> {
    v.map_values(|f: Finding| f@)
}

/// Some of the actions meets the primitive.
pub open spec fn held(actions: Seq<Seq<char>>, primitive: Seq<char>) -> bool {
    exists|i: int| 0 <= i < actions.len() && meet(primitive, #[trigger] actions[i])
}

/// The finding of full control.
pub open spec fn admin(who: Seq<char>) -> FindingView {
    FindingView {
        technique: "Full administrative access"@,
        severity: "critical"@,
        principal: who,
        why: "holds action *"@,
    }
}

/// The finding of code execution through a function.
pub open spec fn code_injection(who: Seq<char>) -> FindingView {
    FindingView {
        technique: "Lambda code injection (RCE)"@,
        severity: "critical"@,
        principal: who,
        why: "holds lambda:UpdateFunctionCode and iam:PassRole"@,
    }
}

/// The finding of escalation by passing a role.
pub open spec fn role_passing(who: Seq<char>) -> FindingView {
    FindingView {
        technique: "iam:PassRole privilege escalation"@,
        severity: "high"@,
        principal: who,
        why: "can pass a role to a service it controls"@,
    }
}

/// The finding of taking over another principal.
pub open spec fn takeover(who: Seq<char>) -> FindingView {
    FindingView {
        technique: "Account takeover"@,
        severity: "high"@,
        principal: who,
        why: "can set another principal's console password or access key"@,
    }
}

/// The finding of rewriting a policy.
pub open spec fn policy_injection(who: Seq<char>) -> FindingView {
    FindingView {
        technique: "Policy injection"@,
        severity: "high"@,
        principal: who,
        why: "can rewrite an attached policy to grant itself more"@,
    }
}

/// The finding of writing objects.
pub open spec fn object_write(who: Seq<char>) -> FindingView {
    FindingView {
        technique: "Object write (possible code execution)"@,
        severity: "medium"@,
        principal: who,
        why: "can write objects; RCE if a bucket has a Lambda or pipeline trigger"@,
    }
}

/// A principal with the given actions yields the finding. A literal `*` among the actions is full
/// control, which implies every other technique and is reported alone.
pub open spec fn yields(actions: Seq<Seq<char>>, who: Seq<char>, f: FindingView) -> bool {
    if actions.contains("*"@) {
        f == admin(who)
    } else {
        ||| f == code_injection(who) && held(actions, "lambda:UpdateFunctionCode"@) && held(actions, "iam:PassRole"@)
        ||| f == role_passing(who) && !held(actions, "lambda:UpdateFunctionCode"@) && held(actions, "iam:PassRole"@)
        ||| f == takeover(who) && (held(actions, "iam:UpdateLoginProfile"@) || held(actions, "iam:CreateAccessKey"@))
        ||| f == policy_injection(who) && (held(actions, "iam:CreatePolicyVersion"@) || held(
            actions,
            "iam:PutUserPolicy"@,
        ) || held(actions, "iam:PutRolePolicy"@))
        ||| f == object_write(who) && held(actions, "s3:PutObject"@)
    }
}

/// The actions that the first `n` edges grant to the node at `u`, in order.
pub open spec fn granted_among(g: GraphView, u: int, n: nat) -> Seq<Seq<char>>
    decreases n,
{
    if n == 0 {
        Seq::empty()
    } else {
        let rest = granted_among(g, u, (n - 1) as nat);
        match g.edges[n - 1].action {
            Some(a) => if g.ends[n - 1].0 == u {
                rest.push(a)
            } else {
                rest
            },
            None => rest,
        }
    }
}

/// The actions that are granted to the node at `u`, in the order of the document.
pub open spec fn granted(g: GraphView, u: int) -> Seq<Seq<char>> {
    granted_among(g, u, g.edges.len())
}

/// The node is a principal: a user, a group, a role or a service.
pub open spec fn principal(n: NodeView) -> bool {
    n.kind == "user"@ || n.kind == "group"@ || n.kind == "role"@ || n.kind == "service"@
}

/// Some principal among the nodes yields the finding.
pub open spec fn conferred(g: GraphView, nodes: Seq<int>, f: FindingView) -> bool {
    exists|i: int|
        {
            &&& 0 <= i < nodes.len()
            &&& principal(g.nodes[#[trigger] nodes[i]])
            &&& yields(granted(g, nodes[i]), label(g.nodes[nodes[i]]), f)
        }
}

/// The place of a severity, from the most severe on.
pub open spec fn rank(severity: Seq<char>) -> int {
    if severity == "critical"@ {
        0
    } else if severity == "high"@ {
        1
    } else if severity == "medium"@ {
        2
    } else {
        3
    }
}

/// A finding is listed before another: by severity, then by technique, then by principal.
pub open spec fn ranks_before(a: FindingView, b: FindingView) -> bool {
    ||| rank(a.severity) < rank(b.severity)
    ||| rank(a.severity) == rank(b.severity) && (before(a.technique, b.technique) || a.technique == b.technique
        && before(a.principal, b.principal))
}

/// Each finding is listed before all that follow it.
pub open spec fn ranked(s: Seq<FindingView>) -> bool {
    forall|i: int, j: int| 0 <= i < j < s.len() ==> ranks_before(#[trigger] s[i], #[trigger] s[j])
}

/// The finding is one of the known techniques.
spec fn of_table(f: FindingView) -> bool {
    let who = f.principal;
    ||| f == admin(who)
    ||| f == code_injection(who)
    ||| f == role_passing(who)
    ||| f == takeover(who)
    ||| f == policy_injection(who)
    ||| f == object_write(who)
}

/// A known technique has one severity and one explanation.
proof fn lemma_table(a: FindingView, b: FindingView)
    requires
        of_table(a),
        of_table(b),
        a.technique == b.technique,
        a.principal == b.principal,
    ensures
        a == b,
{
    reveal_strlit("Full administrative access");
    reveal_strlit("Lambda code injection (RCE)");
    reveal_strlit("iam:PassRole privilege escalation");
    reveal_strlit("Account takeover");
    reveal_strlit("Policy injection");
    reveal_strlit("Object write (possible code execution)");
    assert("Full administrative access"@.len() == 26);
    assert("Lambda code injection (RCE)"@.len() == 27);
    assert("iam:PassRole privilege escalation"@.len() == 33);
    assert("Account takeover"@.len() == 16);
    assert("Policy injection"@.len() == 16);
    assert("Object write (possible code execution)"@.len() == 38);
    assert("Account takeover"@[0] != "Policy injection"@[0]);
}

/// The order of findings is irreflexive and transitive, and it orders any two that differ in
/// severity rank, technique or principal.
pub proof fn ranking_is_strict_order(a: FindingView, b: FindingView, c: FindingView)
    ensures
        !ranks_before(a, a),
        ranks_before(a, b) && ranks_before(b, c) ==> ranks_before(a, c),
        ranks_before(a, b) || ranks_before(b, a) || (rank(a.severity) == rank(b.severity) && a.technique == b.technique
            && a.principal == b.principal),
        ranks_before(a, b) ==> !ranks_before(b, a),
{
    before_is_strict_order(a.technique, b.technique, c.technique);
    before_is_strict_order(a.principal, b.principal, c.principal);
}

/// Whether some of the actions meets the primitive.
pub fn holds(actions: &Vec<String>, primitive: &str) -> (r: bool)
    ensures
        r == held(texts(actions@), primitive@),
{
    for i in 0..actions.len()
        invariant
            forall|j: int| 0 <= j < i ==> !meet(primitive@, #[trigger] texts(actions@)[j]),
    {
        if action_matches(primitive, actions[i].as_str()) {
            assert(meet(primitive@, texts(actions@)[i as int]));
            return true;
        }
    }
    false
}

/// The place of a severity, from the most severe on.
fn rank_of(severity: &str) -> (r: u8)
    ensures
        r == rank(severity@),
{
    if same(severity, "critical") {
        0
    } else if same(severity, "high") {
        1
    } else if same(severity, "medium") {
        2
    } else {
        3
    }
}

/// Whether a finding is listed before another.
fn goes_before(a: &Finding, b: &Finding) -> (r: bool)
    ensures
        r == ranks_before(a@, b@),
{
    let x = rank_of(a.severity.as_str());
    let y = rank_of(b.severity.as_str());
    if x != y {
        x < y
    } else if same(a.technique.as_str(), b.technique.as_str()) {
        proof {
            before_is_strict_order(a@.technique, a@.technique, a@.technique);
        }
        comes_before(a.principal.as_str(), b.principal.as_str())
    } else {
        comes_before(a.technique.as_str(), b.technique.as_str())
    }
}

/// Puts a finding in its place in a ranked list, unless the list has it.
fn place_finding(out: &mut Vec<Finding>, f: Finding)
    requires
        ranked(finding_views(old(out)@)),
        forall|i: int| 0 <= i < old(out)@.len() ==> of_table(#[trigger] finding_views(old(out)@)[i]),
        of_table(f@),
    ensures
        ranked(finding_views(final(out)@)),
        forall|i: int| 0 <= i < final(out)@.len() ==> of_table(#[trigger] finding_views(final(out)@)[i]),
        forall|x: FindingView| #[trigger]
            finding_views(final(out)@).contains(x) <==> finding_views(old(out)@).contains(x) || x == f@,
{
    let ghost was = finding_views(out@);
    let mut k: usize = 0;
    while k < out.len() && goes_before(&out[k], &f)
        invariant
            k <= out@.len(),
            out@ == old(out)@,
            was == finding_views(out@),
            forall|i: int| 0 <= i < k ==> ranks_before(#[trigger] was[i], f@),
        decreases out@.len() - k,
    {
        assert(was[k as int] == out@[k as int]@);
        k = k + 1;
    }
    if k < out.len() && !goes_before(&f, &out[k]) {
        proof {
            assert(was[k as int] == out@[k as int]@);
            ranking_is_strict_order(was[k as int], f@, f@);
            lemma_table(was[k as int], f@);
            assert(was.contains(f@));
        }
        return;
    }
    let ghost view = f@;
    out.insert(k, f);
    proof {
        let now = finding_views(out@);
        assert(now =~= was.insert(k as int, view));
        assert forall|i: int, j: int| 0 <= i < j < now.len() implies ranks_before(#[trigger] now[i], #[trigger] now[j]) by {
            if i < k {
                if j == k {
                    assert(ranks_before(was[i], view));
                } else if j > k {
                    assert(now[j] == was[j - 1]);
                }
            } else if i == k {
                assert(now[j] == was[j - 1]);
                assert(ranks_before(view, was[k as int]));
                if j - 1 > k {
                    ranking_is_strict_order(view, was[k as int], was[j - 1]);
                }
            } else {
                assert(now[i] == was[i - 1]);
                assert(now[j] == was[j - 1]);
            }
        }
        assert forall|i: int| 0 <= i < now.len() implies of_table(#[trigger] now[i]) by {
            if i < k {
                assert(now[i] == was[i]);
            } else if i > k {
                assert(now[i] == was[i - 1]);
            }
        }
        assert forall|x: FindingView| #[trigger] now.contains(x) <==> was.contains(x) || x == view by {
            if now.contains(x) {
                let m = choose|m: int| 0 <= m < now.len() && now[m] == x;
                if m < k {
                    assert(was[m] == x);
                } else if m > k {
                    assert(was[m - 1] == x);
                }
            }
            if was.contains(x) {
                let m = choose|m: int| 0 <= m < was.len() && was[m] == x;
                if m < k {
                    assert(now[m] == x);
                } else {
                    assert(now[m + 1] == x);
                }
            }
            if x == view {
                assert(now[k as int] == x);
            }
        }
    }
}

/// A finding of the given parts.
fn finding(technique: &str, severity: &str, who: &str, why: &str) -> (r: Finding)
    ensures
        r@ == (FindingView { technique: technique@, severity: severity@, principal: who@, why: why@ }),
{
    Finding {
        technique: technique.to_owned(),
        severity: severity.to_owned(),
        principal: who.to_owned(),
        why: why.to_owned(),
    }
}

/// Adds what a principal with the given actions yields to a ranked list.
fn add_yield(out: &mut Vec<Finding>, actions: &Vec<String>, who: &str)
    requires
        ranked(finding_views(old(out)@)),
        forall|i: int| 0 <= i < old(out)@.len() ==> of_table(#[trigger] finding_views(old(out)@)[i]),
    ensures
        ranked(finding_views(final(out)@)),
        forall|i: int| 0 <= i < final(out)@.len() ==> of_table(#[trigger] finding_views(final(out)@)[i]),
        forall|x: FindingView| #[trigger]
            finding_views(final(out)@).contains(x) <==> finding_views(old(out)@).contains(x) || yields(
                texts(actions@),
                who@,
                x,
            ),
{
    // A literal `*` grant is full control. A query of `*` would meet every grant, so the text is
    // compared and not matched.
    if holds_text(actions, "*") {
        place_finding(out, finding("Full administrative access", "critical", who, "holds action *"));
        return;
    }
    let code = holds(actions, "lambda:UpdateFunctionCode");
    let pass = holds(actions, "iam:PassRole");
    if code && pass {
        place_finding(
            out,
            finding(
                "Lambda code injection (RCE)",
                "critical",
                who,
                "holds lambda:UpdateFunctionCode and iam:PassRole",
            ),
        );
    } else if pass {
        place_finding(
            out,
            finding(
                "iam:PassRole privilege escalation",
                "high",
                who,
                "can pass a role to a service it controls",
            ),
        );
    }
    if holds(actions, "iam:UpdateLoginProfile") || holds(actions, "iam:CreateAccessKey") {
        place_finding(
            out,
            finding(
                "Account takeover",
                "high",
                who,
                "can set another principal's console password or access key",
            ),
        );
    }
    if holds(actions, "iam:CreatePolicyVersion") || holds(actions, "iam:PutUserPolicy") || holds(
        actions,
        "iam:PutRolePolicy",
    ) {
        place_finding(
            out,
            finding(
                "Policy injection",
                "high",
                who,
                "can rewrite an attached policy to grant itself more",
            ),
        );
    }
    if holds(actions, "s3:PutObject") {
        place_finding(
            out,
            finding(
                "Object write (possible code execution)",
                "medium",
                who,
                "can write objects; RCE if a bucket has a Lambda or pipeline trigger",
            ),
        );
    }
}

impl Graph {
    /// Whether the node at a place is a principal.
    fn is_principal(&self, i: usize) -> (r: bool)
        requires
            i < self@.nodes.len(),
        ensures
            r == principal(self@.nodes[i as int]),
    {
        let kind = self.node_kind_of(i);
        same(kind, "user") || same(kind, "group") || same(kind, "role") || same(kind, "service")
    }

    /// The places of the principals on a path, in its order.
    pub fn path_principals(&self, p: &AttackPath) -> (r: Vec<usize>)
        requires
            p.visits(self@),
        ensures
            r@ == p.nodes@.filter(|i: usize| principal(self@.nodes[i as int])),
    {
        let ghost keep = |i: usize| principal(self@.nodes[i as int]);
        let mut out: Vec<usize> = Vec::new();
        for k in 0..p.nodes.len()
            invariant
                p.visits(self@),
                keep == (|i: usize| principal(self@.nodes[i as int])),
                out@ == p.nodes@.take(k as int).filter(keep),
        {
            let i: usize = p.nodes[k];
            let ghost now = p.nodes@.take(k + 1);
            proof {
                assert(now.drop_last() =~= p.nodes@.take(k as int));
                assert(now.last() == i);
                reveal(Seq::filter);
            }
            if self.is_principal(i) {
                out.push(i);
            }
        }
        assert(p.nodes@.take(p.nodes@.len() as int) =~= p.nodes@);
        out
    }

    /// The actions that are granted to the node at a place.
    pub fn granted_actions(&self, i: usize) -> (r: Vec<String>)
        requires
            i < self@.nodes.len(),
        ensures
            texts(r@) == granted(self@, i as int),
    {
        let mut out: Vec<String> = Vec::new();
        let edges: usize = self.edge_count();
        assert(texts(out@) =~= Seq::empty());
        for e in 0..edges
            invariant
                edges == self@.edges.len(),
                texts(out@) == granted_among(self@, i as int, e as nat),
        {
            let ghost was = out@;
            let source: usize = self.ends(e).0;
            if source == i {
                match &self.edge(e).action {
                    Some(a) => {
                        out.push(a.clone());
                        assert(texts(out@) =~= texts(was).push(a@));
                    },
                    None => {},
                }
            }
        }
        out
    }
}

/// What a filter keeps satisfies the condition and comes from the sequence.
proof fn lemma_filter_from(s: Seq<usize>, keep: spec_fn(usize) -> bool)
    ensures
        forall|k: int|
            0 <= k < s.filter(keep).len() ==> s.contains(#[trigger] s.filter(keep)[k]) && keep(s.filter(keep)[k]),
    decreases s.len(),
{
    reveal(Seq::filter);
    if s.len() > 0 {
        let rest = s.drop_last();
        lemma_filter_from(rest, keep);
        assert forall|k: int| 0 <= k < s.filter(keep).len() implies s.contains(#[trigger] s.filter(keep)[k]) && keep(
            s.filter(keep)[k],
        ) by {
            let x = s.filter(keep)[k];
            if k < rest.filter(keep).len() {
                assert(x == rest.filter(keep)[k]);
                let m = choose|m: int| 0 <= m < rest.len() && rest[m] == x;
                assert(s[m] == x);
            } else {
                assert(s[s.len() - 1] == x);
            }
        }
    }
}

/// The techniques that an attack path confers, the most severe first.
pub fn detect(g: &Graph, p: &AttackPath) -> (r: Vec<Finding>)
    requires
        p.visits(g@),
    ensures
        ranked(finding_views(r@)),
        forall|f: FindingView| #[trigger]
            finding_views(r@).contains(f) <==> conferred(g@, ints(p.nodes@), f),
{
    let mut out: Vec<Finding> = Vec::new();
    let who = g.path_principals(p);
    let ghost keep = |i: usize| principal(g@.nodes[i as int]);
    let ghost nodes = ints(p.nodes@);
    proof {
        lemma_filter_from(p.nodes@, keep);
    }
    for k in 0..who.len()
        invariant
            p.visits(g@),
            keep == (|i: usize| principal(g@.nodes[i as int])),
            forall|m: int| 0 <= m < who@.len() ==> p.nodes@.contains(#[trigger] who@[m]) && keep(who@[m]),
            ranked(finding_views(out@)),
            forall|i: int| 0 <= i < out@.len() ==> of_table(#[trigger] finding_views(out@)[i]),
            forall|f: FindingView| #[trigger]
                finding_views(out@).contains(f) <==> exists|m: int|
                    0 <= m < k && yields(granted(g@, #[trigger] who@[m] as int), label(g@.nodes[who@[m] as int]), f),
    {
        let i: usize = who[k];
        assert(p.nodes@.contains(who@[k as int]));
        let actions = g.granted_actions(i);
        let name = g.node_label(i);
        let ghost was = finding_views(out@);
        add_yield(&mut out, &actions, name.as_str());
    }
    proof {
        broadcast use vstd::seq_lib::group_filter_ensures;

        assert forall|f: FindingView| #[trigger] finding_views(out@).contains(f) <==> conferred(g@, nodes, f) by {
            if finding_views(out@).contains(f) {
                let m = choose|m: int|
                    0 <= m < who@.len() && yields(granted(g@, #[trigger] who@[m] as int), label(g@.nodes[who@[m] as int]), f);
                let j = choose|j: int| 0 <= j < p.nodes@.len() && p.nodes@[j] == who@[m];
                assert(keep(who@[m]));
                assert(nodes[j] == who@[m] as int);
            }
            if conferred(g@, nodes, f) {
                let j = choose|j: int|
                    {
                        &&& 0 <= j < nodes.len()
                        &&& principal(g@.nodes[#[trigger] nodes[j]])
                        &&& yields(granted(g@, nodes[j]), label(g@.nodes[nodes[j]]), f)
                    };
                assert(nodes[j] == p.nodes@[j] as int);
                assert(keep(p.nodes@[j]));
                assert(p.nodes@.filter(keep).contains(p.nodes@[j]));
                let m = choose|m: int| 0 <= m < who@.len() && who@[m] == p.nodes@[j];
                assert(yields(granted(g@, who@[m] as int), label(g@.nodes[who@[m] as int]), f));
            }
        }
    }
    out
}

} // verus!

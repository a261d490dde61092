//! Laws of technique detection.
use crate::glob::{meet, stands_for};
use crate::graph::{ids_name_one_node, label, GraphView};
use crate::model::{EdgeView, NodeView};
use crate::technique::{
    admin, code_injection, conferred, granted, granted_among, held, principal, ranked, ranking_is_strict_order,
    ranks_before, role_passing, yields, FindingView,
};
use crate::text::before;
use vstd::prelude::*;

verus! {

/// Places on a path are places of the graph.
pub open spec fn on_graph(g: GraphView, nodes: Seq<int>) -> bool {
    forall|i: int| 0 <= i < nodes.len() ==> 0 <= #[trigger] nodes[i] < g.nodes.len()
}

/// The kinds of principals begin with different letters.
proof fn lemma_kinds(a: NodeView, b: NodeView)
    requires
        principal(a),
        principal(b),
        label(a) == label(b),
    ensures
        a.kind == b.kind,
        a.id == b.id,
{
    reveal_strlit("user");
    reveal_strlit("group");
    reveal_strlit("role");
    reveal_strlit("service");
    reveal_strlit(":");
    assert("user"@.len() == 4 && "group"@.len() == 5 && "role"@.len() == 4 && "service"@.len() == 7);
    assert("user"@[0] == 'u' && "group"@[0] == 'g' && "role"@[0] == 'r' && "service"@[0] == 's');
    assert(label(a)[0] == a.kind[0]);
    assert(label(b)[0] == b.kind[0]);
    assert(a.kind == b.kind);
    let n = a.kind.len() + 1;
    assert(a.id =~= label(a).skip(n as int));
    assert(b.id =~= label(b).skip(n as int));
}

/// A principal with full control on a path is reported with that alone, not with the techniques
/// that it implies.
pub proof fn full_control_is_reported_alone(g: GraphView, nodes: Seq<int>, i: int, f: FindingView)
    requires
        g.wf(),
        on_graph(g, nodes),
        0 <= i < nodes.len(),
        principal(g.nodes[nodes[i]]),
        granted(g, nodes[i]).contains("*"@),
    ensures
        conferred(g, nodes, admin(label(g.nodes[nodes[i]]))),
        conferred(g, nodes, f) && f.principal == label(g.nodes[nodes[i]]) ==> f == admin(f.principal),
{
    assert(yields(granted(g, nodes[i]), label(g.nodes[nodes[i]]), admin(label(g.nodes[nodes[i]]))));
    if conferred(g, nodes, f) && f.principal == label(g.nodes[nodes[i]]) {
        let j = choose|j: int|
            {
                &&& 0 <= j < nodes.len()
                &&& principal(g.nodes[#[trigger] nodes[j]])
                &&& yields(granted(g, nodes[j]), label(g.nodes[nodes[j]]), f)
            };
        assert(f.principal == label(g.nodes[nodes[j]]));
        lemma_kinds(g.nodes[nodes[i]], g.nodes[nodes[j]]);
        ids_name_one_node(g, nodes[i], nodes[j]);
    }
}

/// A principal on a path that may both change the code of a function and pass a role can run
/// code; passing the role is then not reported besides.
pub proof fn two_grants_make_code_injection(g: GraphView, nodes: Seq<int>, i: int)
    requires
        g.wf(),
        on_graph(g, nodes),
        0 <= i < nodes.len(),
        principal(g.nodes[nodes[i]]),
        !granted(g, nodes[i]).contains("*"@),
        held(granted(g, nodes[i]), "lambda:UpdateFunctionCode"@),
        held(granted(g, nodes[i]), "iam:PassRole"@),
    ensures
        conferred(g, nodes, code_injection(label(g.nodes[nodes[i]]))),
        !conferred(g, nodes, role_passing(label(g.nodes[nodes[i]]))),
{
    let who = label(g.nodes[nodes[i]]);
    assert(yields(granted(g, nodes[i]), who, code_injection(who)));
    let f = role_passing(who);
    if conferred(g, nodes, f) {
        let j = choose|j: int|
            {
                &&& 0 <= j < nodes.len()
                &&& principal(g.nodes[#[trigger] nodes[j]])
                &&& yields(granted(g, nodes[j]), label(g.nodes[nodes[j]]), f)
            };
        assert(f.principal == label(g.nodes[nodes[j]]));
        lemma_kinds(g.nodes[nodes[i]], g.nodes[nodes[j]]);
        ids_name_one_node(g, nodes[i], nodes[j]);
        reveal_strlit("iam:PassRole privilege escalation");
        reveal_strlit("Lambda code injection (RCE)");
        reveal_strlit("Account takeover");
        reveal_strlit("Policy injection");
        reveal_strlit("Object write (possible code execution)");
        assert("iam:PassRole privilege escalation"@.len() == 33);
        assert("Lambda code injection (RCE)"@.len() == 27);
        assert("Account takeover"@.len() == 16);
        assert("Policy injection"@.len() == 16);
        assert("Object write (possible code execution)"@.len() == 38);
    }
}

/// The actions are of use to some technique.
pub open spec fn of_use(actions: Seq<Seq<char>>) -> bool {
    ||| actions.contains("*"@)
    ||| held(actions, "iam:PassRole"@)
    ||| held(actions, "iam:UpdateLoginProfile"@)
    ||| held(actions, "iam:CreateAccessKey"@)
    ||| held(actions, "iam:CreatePolicyVersion"@)
    ||| held(actions, "iam:PutUserPolicy"@)
    ||| held(actions, "iam:PutRolePolicy"@)
    ||| held(actions, "s3:PutObject"@)
}

/// Reaching a node is no technique: a path on which no principal holds an action of use confers
/// none.
pub proof fn plain_reachability_confers_nothing(g: GraphView, nodes: Seq<int>, f: FindingView)
    requires
        forall|i: int|
            0 <= i < nodes.len() && principal(g.nodes[#[trigger] nodes[i]]) ==> !of_use(granted(g, nodes[i])),
    ensures
        !conferred(g, nodes, f),
{
}

/// Every finding is about a principal on the path.
pub proof fn findings_name_principals_on_the_path(g: GraphView, nodes: Seq<int>, f: FindingView)
    requires
        conferred(g, nodes, f),
    ensures
        exists|i: int|
            0 <= i < nodes.len() && principal(g.nodes[#[trigger] nodes[i]]) && f.principal == label(g.nodes[nodes[i]]),
{
}

/// A ranked list has no finding twice.
pub proof fn findings_are_listed_once(s: Seq<FindingView>, i: int, j: int)
    requires
        ranked(s),
        0 <= i < j < s.len(),
    ensures
        s[i] != s[j],
{
    ranking_is_strict_order(s[i], s[j], s[j]);
}

/// The edge at a place grants the action to the node at `u`.
pub open spec fn grants_to(g: GraphView, e: int, u: int, a: Seq<char>) -> bool {
    0 <= e < g.edges.len() && g.ends[e].0 == u && g.edges[e].action == Some(a)
}

proof fn lemma_granted_among(g: GraphView, u: int, n: nat, a: Seq<char>)
    requires
        n <= g.edges.len(),
    ensures
        granted_among(g, u, n).contains(a) <==> exists|e: int| e < n && grants_to(g, e, u, a),
    decreases n,
{
    if n > 0 {
        let rest = granted_among(g, u, (n - 1) as nat);
        let now = granted_among(g, u, n);
        lemma_granted_among(g, u, (n - 1) as nat, a);
        if rest.contains(a) {
            let i = choose|i: int| 0 <= i < rest.len() && rest[i] == a;
            assert(now[i] == a);
        }
        if now.contains(a) && !rest.contains(a) {
            let i = choose|i: int| 0 <= i < now.len() && now[i] == a;
            assert(i < rest.len() ==> rest[i] == a);
            assert(grants_to(g, n - 1, u, a));
        }
        if grants_to(g, n - 1, u, a) {
            assert(now[now.len() - 1] == a);
        }
    }
}

/// What is granted to a node are the actions of the edges that leave it, no more and no fewer.
pub proof fn grants_are_the_actions_of_leaving_edges(g: GraphView, u: int, a: Seq<char>)
    ensures
        granted(g, u).contains(a) <==> exists|e: int| grants_to(g, e, u, a),
{
    lemma_granted_among(g, u, g.edges.len(), a);
    if exists|e: int| grants_to(g, e, u, a) {
        let e = choose|e: int| grants_to(g, e, u, a);
        assert(e < g.edges.len() && grants_to(g, e, u, a));
    }
}

/// Some edge out of the node grants an action that the primitive stands for or that stands for the
/// primitive.
pub open spec fn can(g: GraphView, u: int, primitive: Seq<char>) -> bool {
    exists|e: int|
        {
            &&& 0 <= e < g.edges.len()
            &&& g.ends[e].0 == u
            &&& (#[trigger] g.edges[e]).action is Some
            &&& stands_for(primitive, g.edges[e].action->0) || stands_for(g.edges[e].action->0, primitive)
        }
}

/// Some edge out of the node grants the action that is written `*`.
pub open spec fn can_do_all(g: GraphView, u: int) -> bool {
    exists|e: int| 0 <= e < g.edges.len() && g.ends[e].0 == u && (#[trigger] g.edges[e]).action == Some("*"@)
}

/// A technique of the principal at `u`.
pub open spec fn technique_of(
    g: GraphView,
    u: int,
    technique: Seq<char>,
    severity: Seq<char>,
    why: Seq<char>,
) -> FindingView {
    FindingView { technique, severity, principal: g.nodes[u].kind + ":"@ + g.nodes[u].id, why }
}

proof fn lemma_can(g: GraphView, u: int, primitive: Seq<char>)
    ensures
        held(granted(g, u), primitive) <==> can(g, u, primitive),
        granted(g, u).contains("*"@) <==> can_do_all(g, u),
{
    let all = granted(g, u);
    if held(all, primitive) {
        let i = choose|i: int| 0 <= i < all.len() && meet(primitive, #[trigger] all[i]);
        assert(all.contains(all[i]));
        grants_are_the_actions_of_leaving_edges(g, u, all[i]);
        let e = choose|e: int| grants_to(g, e, u, all[i]);
        assert(g.edges[e].action == Some(all[i]));
    }
    if can(g, u, primitive) {
        let e = choose|e: int|
            {
                &&& 0 <= e < g.edges.len()
                &&& g.ends[e].0 == u
                &&& (#[trigger] g.edges[e]).action is Some
                &&& stands_for(primitive, g.edges[e].action->0) || stands_for(g.edges[e].action->0, primitive)
            };
        let a = g.edges[e].action->0;
        assert(grants_to(g, e, u, a));
        grants_are_the_actions_of_leaving_edges(g, u, a);
        let i = choose|i: int| 0 <= i < all.len() && all[i] == a;
        assert(meet(primitive, all[i]));
    }
    grants_are_the_actions_of_leaving_edges(g, u, "*"@);
    if can_do_all(g, u) {
        let e = choose|e: int| 0 <= e < g.edges.len() && g.ends[e].0 == u && (#[trigger] g.edges[e]).action == Some("*"@);
        assert(grants_to(g, e, u, "*"@));
    }
    if granted(g, u).contains("*"@) {
        let e = choose|e: int| grants_to(g, e, u, "*"@);
        assert(g.edges[e].action == Some("*"@));
    }
}

/// The grants of a principal on a path (a user, a group, a role or a service) make their techniques.
/// The action `*` is full control; without it, each of the primitives makes its technique, alone or
/// beside others.
pub proof fn grants_make_techniques(g: GraphView, nodes: Seq<int>, i: int)
    requires
        0 <= i < nodes.len(),
        g.nodes[nodes[i]].kind == "user"@ || g.nodes[nodes[i]].kind == "group"@ || g.nodes[nodes[i]].kind == "role"@
            || g.nodes[nodes[i]].kind == "service"@,
    ensures
        can_do_all(g, nodes[i]) ==> conferred(
            g,
            nodes,
            technique_of(g, nodes[i], "Full administrative access"@, "critical"@, "holds action *"@),
        ),
        !can_do_all(g, nodes[i]) && can(g, nodes[i], "lambda:UpdateFunctionCode"@) && can(g, nodes[i], "iam:PassRole"@)
            ==> conferred(
            g,
            nodes,
            technique_of(
                g,
                nodes[i],
                "Lambda code injection (RCE)"@,
                "critical"@,
                "holds lambda:UpdateFunctionCode and iam:PassRole"@,
            ),
        ),
        !can_do_all(g, nodes[i]) && !can(g, nodes[i], "lambda:UpdateFunctionCode"@) && can(g, nodes[i], "iam:PassRole"@)
            ==> conferred(
            g,
            nodes,
            technique_of(
                g,
                nodes[i],
                "iam:PassRole privilege escalation"@,
                "high"@,
                "can pass a role to a service it controls"@,
            ),
        ),
        !can_do_all(g, nodes[i]) && can(g, nodes[i], "iam:UpdateLoginProfile"@) ==> conferred(
            g,
            nodes,
            technique_of(
                g,
                nodes[i],
                "Account takeover"@,
                "high"@,
                "can set another principal's console password or access key"@,
            ),
        ),
        !can_do_all(g, nodes[i]) && can(g, nodes[i], "iam:CreateAccessKey"@) ==> conferred(
            g,
            nodes,
            technique_of(
                g,
                nodes[i],
                "Account takeover"@,
                "high"@,
                "can set another principal's console password or access key"@,
            ),
        ),
        !can_do_all(g, nodes[i]) && can(g, nodes[i], "iam:CreatePolicyVersion"@) ==> conferred(
            g,
            nodes,
            technique_of(
                g,
                nodes[i],
                "Policy injection"@,
                "high"@,
                "can rewrite an attached policy to grant itself more"@,
            ),
        ),
        !can_do_all(g, nodes[i]) && can(g, nodes[i], "iam:PutUserPolicy"@) ==> conferred(
            g,
            nodes,
            technique_of(
                g,
                nodes[i],
                "Policy injection"@,
                "high"@,
                "can rewrite an attached policy to grant itself more"@,
            ),
        ),
        !can_do_all(g, nodes[i]) && can(g, nodes[i], "iam:PutRolePolicy"@) ==> conferred(
            g,
            nodes,
            technique_of(
                g,
                nodes[i],
                "Policy injection"@,
                "high"@,
                "can rewrite an attached policy to grant itself more"@,
            ),
        ),
        !can_do_all(g, nodes[i]) && can(g, nodes[i], "s3:PutObject"@) ==> conferred(
            g,
            nodes,
            technique_of(
                g,
                nodes[i],
                "Object write (possible code execution)"@,
                "medium"@,
                "can write objects; RCE if a bucket has a Lambda or pipeline trigger"@,
            ),
        ),
{
    let u = nodes[i];
    let who = g.nodes[u].kind + ":"@ + g.nodes[u].id;
    lemma_can(g, u, "lambda:UpdateFunctionCode"@);
    lemma_can(g, u, "iam:PassRole"@);
    lemma_can(g, u, "iam:UpdateLoginProfile"@);
    lemma_can(g, u, "iam:CreateAccessKey"@);
    lemma_can(g, u, "iam:CreatePolicyVersion"@);
    lemma_can(g, u, "iam:PutUserPolicy"@);
    lemma_can(g, u, "iam:PutRolePolicy"@);
    lemma_can(g, u, "s3:PutObject"@);
    assert(principal(g.nodes[nodes[i]]));
    assert forall|f: FindingView| yields(granted(g, u), who, f) implies #[trigger] conferred(g, nodes, f) by {
        assert(yields(granted(g, nodes[i]), label(g.nodes[nodes[i]]), f));
    }
}

/// The finding is one that the grants of the principal at `u` account for.
pub open spec fn accounted_for(g: GraphView, u: int, f: FindingView) -> bool {
    ||| can_do_all(g, u) && f == technique_of(g, u, "Full administrative access"@, "critical"@, "holds action *"@)
    ||| !can_do_all(g, u) && can(g, u, "lambda:UpdateFunctionCode"@) && can(g, u, "iam:PassRole"@) && f == technique_of(
        g,
        u,
        "Lambda code injection (RCE)"@,
        "critical"@,
        "holds lambda:UpdateFunctionCode and iam:PassRole"@,
    )
    ||| !can_do_all(g, u) && !can(g, u, "lambda:UpdateFunctionCode"@) && can(g, u, "iam:PassRole"@) && f == technique_of(
        g,
        u,
        "iam:PassRole privilege escalation"@,
        "high"@,
        "can pass a role to a service it controls"@,
    )
    ||| !can_do_all(g, u) && (can(g, u, "iam:UpdateLoginProfile"@) || can(g, u, "iam:CreateAccessKey"@)) && f
        == technique_of(
        g,
        u,
        "Account takeover"@,
        "high"@,
        "can set another principal's console password or access key"@,
    )
    ||| !can_do_all(g, u) && (can(g, u, "iam:CreatePolicyVersion"@) || can(g, u, "iam:PutUserPolicy"@) || can(
        g,
        u,
        "iam:PutRolePolicy"@,
    )) && f == technique_of(
        g,
        u,
        "Policy injection"@,
        "high"@,
        "can rewrite an attached policy to grant itself more"@,
    )
    ||| !can_do_all(g, u) && can(g, u, "s3:PutObject"@) && f == technique_of(
        g,
        u,
        "Object write (possible code execution)"@,
        "medium"@,
        "can write objects; RCE if a bucket has a Lambda or pipeline trigger"@,
    )
}

/// Every technique that a path confers is accounted for by the grants of a user, a group, a role or a
/// service on it.
pub proof fn techniques_need_grants(g: GraphView, nodes: Seq<int>, f: FindingView)
    requires
        conferred(g, nodes, f),
    ensures
        exists|i: int|
            0 <= i < nodes.len() && accounted_for(g, #[trigger] nodes[i], f) && (g.nodes[nodes[i]].kind == "user"@
                || g.nodes[nodes[i]].kind == "group"@ || g.nodes[nodes[i]].kind == "role"@ || g.nodes[nodes[i]].kind
                == "service"@),
{
    let i = choose|i: int|
        {
            &&& 0 <= i < nodes.len()
            &&& principal(g.nodes[#[trigger] nodes[i]])
            &&& yields(granted(g, nodes[i]), label(g.nodes[nodes[i]]), f)
        };
    let u = nodes[i];
    lemma_can(g, u, "lambda:UpdateFunctionCode"@);
    lemma_can(g, u, "iam:PassRole"@);
    lemma_can(g, u, "iam:UpdateLoginProfile"@);
    lemma_can(g, u, "iam:CreateAccessKey"@);
    lemma_can(g, u, "iam:CreatePolicyVersion"@);
    lemma_can(g, u, "iam:PutUserPolicy"@);
    lemma_can(g, u, "iam:PutRolePolicy"@);
    lemma_can(g, u, "s3:PutObject"@);
    assert(accounted_for(g, nodes[i], f));
}

/// Critical findings come first, then high ones, then those of medium severity; findings of one
/// severity are in the order of their techniques, and those of one technique in the order of their
/// principals.
pub proof fn severe_findings_come_first(s: Seq<FindingView>, i: int, j: int)
    requires
        ranked(s),
        0 <= i < j < s.len(),
    ensures
        s[j].severity == "critical"@ ==> s[i].severity == "critical"@,
        s[j].severity == "high"@ ==> s[i].severity == "critical"@ || s[i].severity == "high"@,
        s[j].severity == "medium"@ ==> s[i].severity == "critical"@ || s[i].severity == "high"@ || s[i].severity
            == "medium"@,
        s[i].severity == s[j].severity ==> before(s[i].technique, s[j].technique) || (s[i].technique == s[j].technique
            && before(s[i].principal, s[j].principal)),
{
    reveal_strlit("critical");
    reveal_strlit("high");
    reveal_strlit("medium");
    assert("critical"@.len() == 8);
    assert("high"@.len() == 4);
    assert("medium"@.len() == 6);
    assert(ranks_before(s[i], s[j]));
}

/// A path that more principals are on confers at least as much.
pub proof fn longer_paths_confer_no_less(g: GraphView, nodes: Seq<int>, more: Seq<int>, f: FindingView)
    requires
        conferred(g, nodes, f),
    ensures
        conferred(g, nodes + more, f),
        conferred(g, more + nodes, f),
{
    let i = choose|i: int|
        {
            &&& 0 <= i < nodes.len()
            &&& principal(g.nodes[#[trigger] nodes[i]])
            &&& yields(granted(g, nodes[i]), label(g.nodes[nodes[i]]), f)
        };
    assert((nodes + more)[i] == nodes[i]);
    assert((more + nodes)[more.len() + i] == nodes[i]);
}

/// One more edge adds its action to what is granted to the node that it leaves, behind the others, and
/// nothing to what is granted to any other node.
pub proof fn one_more_edge_grants_its_action(g: GraphView, more: GraphView, u: int, e: EdgeView, ends: (int, int))
    requires
        g.ends.len() == g.edges.len(),
        more.edges == g.edges.push(e),
        more.ends == g.ends.push(ends),
    ensures
        granted(more, u) == if ends.0 == u && e.action is Some {
            granted(g, u).push(e.action->0)
        } else {
            granted(g, u)
        },
{
    lemma_granted_prefix(g, more, u, g.edges.len());
}

proof fn lemma_granted_prefix(g: GraphView, more: GraphView, u: int, n: nat)
    requires
        n <= g.edges.len() <= more.edges.len(),
        g.ends.len() == g.edges.len(),
        more.ends.len() == more.edges.len(),
        forall|i: int| #![trigger g.edges[i]]
            0 <= i < g.edges.len() ==> g.edges[i] == more.edges[i] && g.ends[i] == more.ends[i],
    ensures
        granted_among(g, u, n) == granted_among(more, u, n),
    decreases n,
{
    if n > 0 {
        lemma_granted_prefix(g, more, u, (n - 1) as nat);
        assert(g.edges[n - 1] == more.edges[n - 1]);
    }
}

/// Nothing is granted to a node without edges.
pub proof fn nothing_is_granted_without_edges(g: GraphView, u: int)
    requires
        g.edges.len() == 0,
    ensures
        granted(g, u) == Seq::<Seq<char>>::empty(),
{
}

/// Of two lists of actions together a primitive is held if it is held of one of them; of one action, if
/// the one stands for the other.
pub proof fn primitives_are_held_action_by_action(a: Seq<Seq<char>>, b: Seq<Seq<char>>, x: Seq<char>, primitive: Seq<char>)
    ensures
        held(a + b, primitive) <==> held(a, primitive) || held(b, primitive),
        held(seq![x], primitive) <==> stands_for(primitive, x) || stands_for(x, primitive),
        !held(Seq::empty(), primitive),
{
    let all = a + b;
    if held(a, primitive) {
        let i = choose|i: int| 0 <= i < a.len() && meet(primitive, #[trigger] a[i]);
        assert(all[i] == a[i]);
    }
    if held(b, primitive) {
        let i = choose|i: int| 0 <= i < b.len() && meet(primitive, #[trigger] b[i]);
        assert(all[a.len() + i] == b[i]);
    }
    if held(all, primitive) {
        let i = choose|i: int| 0 <= i < all.len() && meet(primitive, #[trigger] all[i]);
        if i < a.len() {
            assert(a[i] == all[i]);
        } else {
            assert(b[i - a.len()] == all[i]);
        }
    }
    assert(seq![x][0] == x);
}

/// The principals are the users, the groups, the roles and the services.
pub proof fn principals_are_of_four_kinds(n: NodeView)
    ensures
        principal(n) <==> n.kind == "user"@ || n.kind == "group"@ || n.kind == "role"@ || n.kind == "service"@,
{
}

} // verus!

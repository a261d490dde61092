//! Laws of the import of an account: the document always loads, its edges are those that the
//! policies grant, no more and no fewer, and its nodes have their kinds.
use crate::import_aws::{
    account_edges, action_edges, actions_edges, allows, arns, assumption, assumption_edges, attached_docs,
    docs, first_default, first_group, group_edges, group_id, groups_edges, grown, identities, imported,
    in_force, is_default, is_group, is_resource, kind_of, lemma_known_push, lemma_named_has,
    lemma_resource_added, lemma_resource_list, lemma_resources_kept, managed, member_edges, named,
    permission, permission_edges, resolved, resources, role_edges, roles_edges, statement_edges,
    statement_views, statements_edges, trust_edges, trusted_edges, trusts, user_edges, users_edges,
    with_resources, with_sources, AttachedPolicy, AuthDetails, GroupDetail, Ids, InlinePolicy,
    ManagedPolicy, PolicyDocument, RoleDetail, Statement, StatementView, UserDetail,
};
use crate::json::{ascending, tree_of, Tree};
use crate::model::{distinct_ids, known, members_of, repeats, EdgeView, NodeView};
use crate::text::{before, before_is_strict_order, same_letters, texts};
use vstd::prelude::*;

verus! {

/// An element is in the first of two sequences or in the second.
proof fn lemma_concat(a: Seq<EdgeView>, b: Seq<EdgeView>, e: EdgeView)
    ensures
        (a + b).contains(e) <==> a.contains(e) || b.contains(e),
{
    if a.contains(e) {
        let i = choose|i: int| 0 <= i < a.len() && a[i] == e;
        assert((a + b)[i] == e);
    }
    if b.contains(e) {
        let i = choose|i: int| 0 <= i < b.len() && b[i] == e;
        assert((a + b)[a.len() + i] == e);
    }
    if (a + b).contains(e) {
        let i = choose|i: int| 0 <= i < (a + b).len() && (a + b)[i] == e;
        if i < a.len() {
            assert(a[i] == e);
        } else {
            assert(b[i - a.len()] == e);
        }
    }
}

/// The edge is that of an action of a statement that allows, on one of its resources.
pub open spec fn allowed_by(ids: Ids, from: Seq<char>, st: Statement, e: EdgeView) -> bool {
    allows(st) && exists|a: int, r: int|
        {
            &&& 0 <= a < st.action@.len()
            &&& 0 <= r < resources(st).len()
            &&& e == permission(
                ids,
                from,
                #[trigger] texts(st.action@)[a],
                #[trigger] resources(st)[r],
                members_of(st.condition),
            )
        }
}

/// The edge is allowed by a statement of one of the documents.
pub open spec fn granted_by(ids: Ids, from: Seq<char>, list: Seq<PolicyDocument>, e: EdgeView) -> bool {
    exists|k: int, s: int|
        #![trigger list[k].statements@[s]]
        {
            &&& 0 <= k < list.len()
            &&& 0 <= s < list[k].statements@.len()
            &&& allowed_by(ids, from, list[k].statements@[s], e)
        }
}

/// The edge is that of a principal which a statement of a trust policy lets assume the role.
pub open spec fn trusted_by(ids: Ids, role: Seq<char>, trust: Option<PolicyDocument>, e: EdgeView) -> bool {
    exists|s: int, p: int| #[trigger] trusts_principal(ids, role, trust, e, s, p)
}

/// The edge is that of the principal at `p` of the statement at `s`.
pub open spec fn trusts_principal(
    ids: Ids,
    role: Seq<char>,
    trust: Option<PolicyDocument>,
    e: EdgeView,
    s: int,
    p: int,
) -> bool {
    &&& trust is Some
    &&& 0 <= s < trust->0.statements@.len()
    &&& ({
        let st = trust->0.statements@[s];
        &&& trusts(st)
        &&& 0 <= p < arns(tree_of(st.principal)).len()
        &&& e == assumption(ids, arns(tree_of(st.principal))[p], role, members_of(st.condition))
    })
}

/// The edge leads from a user to a group that the user is a member of.
pub open spec fn joins(d: AuthDetails, ids: Ids, from: Seq<char>, names: Seq<Seq<char>>, e: EdgeView) -> bool {
    exists|i: int|
        {
            &&& 0 <= i < names.len()
            &&& group_id(d, ids, #[trigger] names[i]) == Some(e.to)
            &&& e == membership(from, e.to)
        }
}

/// The edge from a member to a group.
pub open spec fn membership(from: Seq<char>, to: Seq<char>) -> EdgeView {
    EdgeView { from, to, kind: "member_of"@, action: None, resource: None, conditions: None }
}

proof fn lemma_action_edges(
    ids: Ids,
    from: Seq<char>,
    action: Seq<char>,
    list: Seq<Seq<char>>,
    condition: Option<Map<Seq<char>, Tree>>,
    e: EdgeView,
)
    ensures
        action_edges(ids, from, action, list, condition).contains(e) <==> exists|r: int|
            0 <= r < list.len() && e == permission(ids, from, action, #[trigger] list[r], condition),
{
    let all = action_edges(ids, from, action, list, condition);
    if all.contains(e) {
        let r = choose|r: int| 0 <= r < all.len() && all[r] == e;
        assert(e == permission(ids, from, action, list[r], condition));
    }
    if exists|r: int| 0 <= r < list.len() && e == permission(ids, from, action, #[trigger] list[r], condition) {
        let r = choose|r: int|
            0 <= r < list.len() && e == permission(ids, from, action, #[trigger] list[r], condition);
        assert(all[r] == e);
    }
}

proof fn lemma_actions_edges(
    ids: Ids,
    from: Seq<char>,
    actions: Seq<Seq<char>>,
    list: Seq<Seq<char>>,
    condition: Option<Map<Seq<char>, Tree>>,
    e: EdgeView,
)
    ensures
        actions_edges(ids, from, actions, list, condition).contains(e) <==> exists|a: int, r: int|
            0 <= a < actions.len() && 0 <= r < list.len() && e == permission(
                ids,
                from,
                #[trigger] actions[a],
                #[trigger] list[r],
                condition,
            ),
    decreases actions.len(),
{
    if actions.len() > 0 {
        let front = actions.drop_last();
        lemma_actions_edges(ids, from, front, list, condition, e);
        lemma_action_edges(ids, from, actions.last(), list, condition, e);
        lemma_concat(
            actions_edges(ids, from, front, list, condition),
            action_edges(ids, from, actions.last(), list, condition),
            e,
        );
        if actions_edges(ids, from, front, list, condition).contains(e) {
            let (a, r) = choose|a: int, r: int|
                0 <= a < front.len() && 0 <= r < list.len() && e == permission(
                    ids,
                    from,
                    #[trigger] front[a],
                    #[trigger] list[r],
                    condition,
                );
            assert(actions[a] == front[a]);
            assert(e == permission(ids, from, actions[a], list[r], condition));
        }
        if action_edges(ids, from, actions.last(), list, condition).contains(e) {
            let r = choose|r: int|
                0 <= r < list.len() && e == permission(ids, from, actions.last(), #[trigger] list[r], condition);
            assert(e == permission(ids, from, actions[actions.len() - 1], list[r], condition));
        }
        assert forall|a: int, r: int|
            0 <= a < actions.len() && 0 <= r < list.len() && e == permission(
                ids,
                from,
                #[trigger] actions[a],
                #[trigger] list[r],
                condition,
            ) implies actions_edges(ids, from, actions, list, condition).contains(e) by {
            if a < front.len() {
                assert(front[a] == actions[a]);
                assert(e == permission(ids, from, front[a], list[r], condition));
            }
        }
    }
}

proof fn lemma_statements_edges(ids: Ids, from: Seq<char>, sts: Seq<Statement>, e: EdgeView)
    ensures
        statements_edges(ids, from, sts).contains(e) <==> exists|s: int|
            0 <= s < sts.len() && allowed_by(ids, from, #[trigger] sts[s], e),
    decreases sts.len(),
{
    if sts.len() > 0 {
        let front = sts.drop_last();
        let st = sts.last();
        lemma_statements_edges(ids, from, front, e);
        lemma_actions_edges(ids, from, texts(st.action@), resources(st), members_of(st.condition), e);
        lemma_concat(statements_edges(ids, from, front), statement_edges(ids, from, st), e);
        assert(statement_edges(ids, from, st).contains(e) <==> allowed_by(ids, from, st, e));
        if statements_edges(ids, from, front).contains(e) {
            let s = choose|s: int| 0 <= s < front.len() && allowed_by(ids, from, #[trigger] front[s], e);
            assert(allowed_by(ids, from, sts[s], e));
        }
        if allowed_by(ids, from, st, e) {
            assert(allowed_by(ids, from, sts[sts.len() - 1], e));
        }
        assert forall|s: int| 0 <= s < sts.len() && allowed_by(ids, from, #[trigger] sts[s], e) implies statements_edges(
            ids,
            from,
            sts,
        ).contains(e) by {
            if s < front.len() {
                assert(allowed_by(ids, from, front[s], e));
            }
        }
    }
}

proof fn lemma_permission_edges(ids: Ids, from: Seq<char>, list: Seq<PolicyDocument>, e: EdgeView)
    ensures
        permission_edges(ids, from, list).contains(e) <==> granted_by(ids, from, list, e),
    decreases list.len(),
{
    if list.len() > 0 {
        let front = list.drop_last();
        let doc = list.last();
        lemma_permission_edges(ids, from, front, e);
        lemma_statements_edges(ids, from, doc.statements@, e);
        lemma_concat(permission_edges(ids, from, front), statements_edges(ids, from, doc.statements@), e);
        if granted_by(ids, from, front, e) {
            let (k, s) = choose|k: int, s: int|
                #![trigger front[k].statements@[s]]
                0 <= k < front.len() && 0 <= s < front[k].statements@.len() && allowed_by(
                    ids,
                    from,
                    front[k].statements@[s],
                    e,
                );
            assert(allowed_by(ids, from, list[k].statements@[s], e));
        }
        if statements_edges(ids, from, doc.statements@).contains(e) {
            let s = choose|s: int|
                0 <= s < doc.statements@.len() && allowed_by(ids, from, #[trigger] doc.statements@[s], e);
            assert(allowed_by(ids, from, list[list.len() - 1].statements@[s], e));
        }
        if granted_by(ids, from, list, e) {
            let (k, s) = choose|k: int, s: int|
                #![trigger list[k].statements@[s]]
                0 <= k < list.len() && 0 <= s < list[k].statements@.len() && allowed_by(
                    ids,
                    from,
                    list[k].statements@[s],
                    e,
                );
            if k < front.len() {
                assert(allowed_by(ids, from, front[k].statements@[s], e));
            } else {
                assert(allowed_by(ids, from, doc.statements@[s], e));
            }
        }
    }
}

proof fn lemma_trust_edges(ids: Ids, role: Seq<char>, sts: Seq<Statement>, e: EdgeView)
    ensures
        trust_edges(ids, role, sts).contains(e) <==> exists|s: int|
            0 <= s < sts.len() && assumption_edges(ids, role, #[trigger] sts[s]).contains(e),
    decreases sts.len(),
{
    if sts.len() > 0 {
        let front = sts.drop_last();
        lemma_trust_edges(ids, role, front, e);
        lemma_concat(trust_edges(ids, role, front), assumption_edges(ids, role, sts.last()), e);
        if trust_edges(ids, role, front).contains(e) {
            let s = choose|s: int|
                0 <= s < front.len() && assumption_edges(ids, role, #[trigger] front[s]).contains(e);
            assert(assumption_edges(ids, role, sts[s]).contains(e));
        }
        if assumption_edges(ids, role, sts.last()).contains(e) {
            assert(assumption_edges(ids, role, sts[sts.len() - 1]).contains(e));
        }
        assert forall|s: int|
            0 <= s < sts.len() && assumption_edges(ids, role, #[trigger] sts[s]).contains(e) implies trust_edges(
            ids,
            role,
            sts,
        ).contains(e) by {
            if s < front.len() {
                assert(assumption_edges(ids, role, front[s]).contains(e));
            }
        }
    }
}

proof fn lemma_trusted_edges(ids: Ids, role: Seq<char>, trust: Option<PolicyDocument>, e: EdgeView)
    ensures
        trusted_edges(ids, role, trust).contains(e) <==> trusted_by(ids, role, trust, e),
{
    if trust is Some {
        let sts = trust->0.statements@;
        lemma_trust_edges(ids, role, sts, e);
        assert forall|s: int| 0 <= s < sts.len() && assumption_edges(ids, role, #[trigger] sts[s]).contains(e) implies trusted_by(
            ids,
            role,
            trust,
            e,
        ) by {
            let all = assumption_edges(ids, role, sts[s]);
            let p = choose|p: int| 0 <= p < all.len() && all[p] == e;
            assert(trusts_principal(ids, role, trust, e, s, p));
        }
        assert forall|s: int, p: int| #[trigger] trusts_principal(ids, role, trust, e, s, p) implies trust_edges(
            ids,
            role,
            sts,
        ).contains(e) by {
            assert(assumption_edges(ids, role, sts[s])[p] == e);
            assert(assumption_edges(ids, role, sts[s]).contains(e));
        }
    }
}

proof fn lemma_member_edges(d: AuthDetails, ids: Ids, from: Seq<char>, names: Seq<Seq<char>>, e: EdgeView)
    ensures
        member_edges(d, ids, from, names).contains(e) <==> joins(d, ids, from, names, e),
    decreases names.len(),
{
    if names.len() > 0 {
        let front = names.drop_last();
        let rest = member_edges(d, ids, from, front);
        lemma_member_edges(d, ids, from, front, e);
        if joins(d, ids, from, front, e) {
            let i = choose|i: int|
                0 <= i < front.len() && group_id(d, ids, #[trigger] front[i]) == Some(e.to) && e == membership(
                    from,
                    e.to,
                );
            assert(group_id(d, ids, names[i]) == Some(e.to));
        }
        if group_id(d, ids, names.last()) is Some {
            let one = membership(from, group_id(d, ids, names.last())->0);
            lemma_concat(rest, seq![one], e);
            assert(rest.push(one) =~= rest + seq![one]);
            assert(seq![one].contains(e) <==> e == one) by {
                assert(seq![one][0] == one);
            }
            if e == one {
                assert(group_id(d, ids, names[names.len() - 1]) == Some(e.to));
            }
        }
        if joins(d, ids, from, names, e) {
            let i = choose|i: int|
                0 <= i < names.len() && group_id(d, ids, #[trigger] names[i]) == Some(e.to) && e == membership(
                    from,
                    e.to,
                );
            if i < front.len() {
                assert(group_id(d, ids, front[i]) == Some(e.to));
            }
        }
    }
}

/// The node id of each identity of an account, by ARN.
pub open spec fn account_ids(d: AuthDetails) -> Ids {
    named(identities(d)).1
}

/// The policies of the user at a place grant the edge.
pub open spec fn user_granted(d: AuthDetails, i: int, e: EdgeView) -> bool {
    let u = d.users@[i];
    let ids = account_ids(d);
    0 <= i < d.users@.len() && granted_by(ids, ids[u.arn@], docs(managed(d.policies@), u.attached@, u.inline@), e)
}

/// The policies of the group at a place grant the edge.
pub open spec fn group_granted(d: AuthDetails, i: int, e: EdgeView) -> bool {
    let g = d.groups@[i];
    let ids = account_ids(d);
    0 <= i < d.groups@.len() && granted_by(ids, ids[g.arn@], docs(managed(d.policies@), g.attached@, g.inline@), e)
}

/// The policies of the role at a place grant the edge.
pub open spec fn role_granted(d: AuthDetails, i: int, e: EdgeView) -> bool {
    let r = d.roles@[i];
    let ids = account_ids(d);
    0 <= i < d.roles@.len() && granted_by(ids, ids[r.arn@], docs(managed(d.policies@), r.attached@, r.inline@), e)
}

/// The trust policy of the role at a place makes the edge.
pub open spec fn role_trusted(d: AuthDetails, i: int, e: EdgeView) -> bool {
    let r = d.roles@[i];
    let ids = account_ids(d);
    0 <= i < d.roles@.len() && trusted_by(ids, ids[r.arn@], r.trust, e)
}

/// The group list of the user at a place makes the edge.
pub open spec fn user_joined(d: AuthDetails, i: int, e: EdgeView) -> bool {
    let u = d.users@[i];
    let ids = account_ids(d);
    0 <= i < d.users@.len() && joins(d, ids, ids[u.arn@], texts(u.groups@), e)
}

proof fn lemma_users_edges(d: AuthDetails, n: nat, e: EdgeView)
    requires
        n <= d.users@.len(),
    ensures
        users_edges(d, account_ids(d), n).contains(e) <==> exists|i: int|
            0 <= i < n && (#[trigger] user_granted(d, i, e) || user_joined(d, i, e)),
    decreases n,
{
    if n > 0 {
        let ids = account_ids(d);
        let u = d.users@[n - 1];
        let from = ids[u.arn@];
        let list = docs(managed(d.policies@), u.attached@, u.inline@);
        lemma_users_edges(d, (n - 1) as nat, e);
        lemma_member_edges(d, ids, from, texts(u.groups@), e);
        lemma_permission_edges(ids, from, list, e);
        lemma_concat(member_edges(d, ids, from, texts(u.groups@)), permission_edges(ids, from, list), e);
        lemma_concat(users_edges(d, ids, (n - 1) as nat), user_edges(d, ids, u), e);
        assert(user_edges(d, ids, u).contains(e) <==> user_granted(d, n - 1, e) || user_joined(d, n - 1, e));
    }
}

proof fn lemma_groups_edges(d: AuthDetails, n: nat, e: EdgeView)
    requires
        n <= d.groups@.len(),
    ensures
        groups_edges(d, account_ids(d), n).contains(e) <==> exists|i: int|
            0 <= i < n && #[trigger] group_granted(d, i, e),
    decreases n,
{
    if n > 0 {
        let ids = account_ids(d);
        let g = d.groups@[n - 1];
        let list = docs(managed(d.policies@), g.attached@, g.inline@);
        lemma_groups_edges(d, (n - 1) as nat, e);
        lemma_permission_edges(ids, ids[g.arn@], list, e);
        lemma_concat(groups_edges(d, ids, (n - 1) as nat), group_edges(d, ids, g), e);
        assert(group_edges(d, ids, g).contains(e) <==> group_granted(d, n - 1, e));
    }
}

proof fn lemma_roles_edges(d: AuthDetails, n: nat, e: EdgeView)
    requires
        n <= d.roles@.len(),
    ensures
        roles_edges(d, account_ids(d), n).contains(e) <==> exists|i: int|
            0 <= i < n && (#[trigger] role_granted(d, i, e) || role_trusted(d, i, e)),
    decreases n,
{
    if n > 0 {
        let ids = account_ids(d);
        let r = d.roles@[n - 1];
        let list = docs(managed(d.policies@), r.attached@, r.inline@);
        lemma_roles_edges(d, (n - 1) as nat, e);
        lemma_permission_edges(ids, ids[r.arn@], list, e);
        lemma_trusted_edges(ids, ids[r.arn@], r.trust, e);
        lemma_concat(permission_edges(ids, ids[r.arn@], list), trusted_edges(ids, ids[r.arn@], r.trust), e);
        lemma_concat(roles_edges(d, ids, (n - 1) as nat), role_edges(d, ids, r), e);
        assert(role_edges(d, ids, r).contains(e) <==> role_granted(d, n - 1, e) || role_trusted(d, n - 1, e));
    }
}

/// The kinds of edges that an import makes are three.
proof fn lemma_kinds()
    ensures
        "member_of"@ != "has_permission"@,
        "member_of"@ != "can_assume"@,
        "has_permission"@ != "can_assume"@,
{
    reveal_strlit("has_permission");
    reveal_strlit("member_of");
    reveal_strlit("can_assume");
    assert("has_permission"@.len() == 14);
    assert("member_of"@.len() == 9);
    assert("can_assume"@.len() == 10);
}

/// A policy grants the edge, a trust policy makes it or a group list makes it.
pub open spec fn said(d: AuthDetails, e: EdgeView) -> bool {
    ||| exists|i: int| #[trigger] user_granted(d, i, e)
    ||| exists|i: int| #[trigger] group_granted(d, i, e)
    ||| exists|i: int| #[trigger] role_granted(d, i, e)
    ||| exists|i: int| #[trigger] role_trusted(d, i, e)
    ||| exists|i: int| #[trigger] user_joined(d, i, e)
}

/// The edges of an import are those that a policy grants, a trust policy makes or a group list
/// makes: there is no other edge, and none of these is left out.
pub proof fn edges_are_what_the_account_says(d: AuthDetails, e: EdgeView)
    ensures
        imported(d).edges.contains(e) <==> said(d, e),
{
    let ids = account_ids(d);
    let a = users_edges(d, ids, d.users@.len());
    let b = groups_edges(d, ids, d.groups@.len());
    let c = roles_edges(d, ids, d.roles@.len());
    lemma_users_edges(d, d.users@.len(), e);
    lemma_groups_edges(d, d.groups@.len(), e);
    lemma_roles_edges(d, d.roles@.len(), e);
    lemma_concat(a, b, e);
    lemma_concat(a + b, c, e);
    assert(imported(d).edges == a + b + c);
    if a.contains(e) {
        let i = choose|i: int|
            0 <= i < d.users@.len() && (#[trigger] user_granted(d, i, e) || user_joined(d, i, e));
        assert(user_granted(d, i, e) || user_joined(d, i, e));
        assert(said(d, e));
    } else if b.contains(e) {
        let i = choose|i: int| 0 <= i < d.groups@.len() && #[trigger] group_granted(d, i, e);
        assert(group_granted(d, i, e));
        assert(said(d, e));
    } else if c.contains(e) {
        let i = choose|i: int|
            0 <= i < d.roles@.len() && (#[trigger] role_granted(d, i, e) || role_trusted(d, i, e));
        assert(role_granted(d, i, e) || role_trusted(d, i, e));
        assert(said(d, e));
    } else {
        assert forall|i: int| !#[trigger] user_granted(d, i, e) by {}
        assert forall|i: int| !#[trigger] user_joined(d, i, e) by {
            assert(!user_granted(d, i, e));
        }
        assert forall|i: int| !#[trigger] group_granted(d, i, e) by {}
        assert forall|i: int| !#[trigger] role_granted(d, i, e) by {}
        assert forall|i: int| !#[trigger] role_trusted(d, i, e) by {
            assert(!role_granted(d, i, e));
        }
    }
}

/// The permissions of an import are exactly the pairs of an action and a resource that an Allow
/// statement of a policy of the principal names, each with the condition of the statement.
pub proof fn permissions_are_the_allowed_ones(d: AuthDetails, e: EdgeView)
    requires
        e.kind == "has_permission"@,
    ensures
        imported(d).edges.contains(e) <==> {
            ||| exists|i: int| #[trigger] user_granted(d, i, e)
            ||| exists|i: int| #[trigger] group_granted(d, i, e)
            ||| exists|i: int| #[trigger] role_granted(d, i, e)
        },
{
    lemma_kinds();
    edges_are_what_the_account_says(d, e);
    assert forall|i: int| !#[trigger] role_trusted(d, i, e) by {}
    assert forall|i: int| !#[trigger] user_joined(d, i, e) by {}
}

/// The `can_assume` edges of an import are exactly those from a principal that an Allow statement
/// of a trust policy lets assume the role, each with the condition of the statement.
pub proof fn assumptions_are_the_trusted_ones(d: AuthDetails, e: EdgeView)
    requires
        e.kind == "can_assume"@,
    ensures
        imported(d).edges.contains(e) <==> exists|i: int| #[trigger] role_trusted(d, i, e),
{
    lemma_kinds();
    edges_are_what_the_account_says(d, e);
    assert forall|i: int| !#[trigger] user_granted(d, i, e) by {}
    assert forall|i: int| !#[trigger] group_granted(d, i, e) by {}
    assert forall|i: int| !#[trigger] role_granted(d, i, e) by {}
    assert forall|i: int| !#[trigger] user_joined(d, i, e) by {}
}

/// The `member_of` edges of an import are exactly those from a user to a group of the account
/// that the user lists.
pub proof fn memberships_are_the_listed_ones(d: AuthDetails, e: EdgeView)
    requires
        e.kind == "member_of"@,
    ensures
        imported(d).edges.contains(e) <==> exists|i: int| #[trigger] user_joined(d, i, e),
{
    lemma_kinds();
    edges_are_what_the_account_says(d, e);
    assert forall|i: int| !#[trigger] user_granted(d, i, e) by {}
    assert forall|i: int| !#[trigger] group_granted(d, i, e) by {}
    assert forall|i: int| !#[trigger] role_granted(d, i, e) by {}
    assert forall|i: int| !#[trigger] role_trusted(d, i, e) by {}
}

/// A statement that denies, or that says what it does not apply to, makes no edge.
pub proof fn only_allow_statements_grant(ids: Ids, from: Seq<char>, st: Statement)
    requires
        !same_letters(st.effect@, "Allow"@) || st.not_action@.len() > 0 || st.not_resource@.len() > 0,
    ensures
        statement_edges(ids, from, st).len() == 0,
{
}

/// A grant on an identity of the account leads to the node of that identity, not to a resource:
/// a role that may be passed is reached by the grant.
pub proof fn grants_on_identities_reach_them(d: AuthDetails, e: EdgeView)
    requires
        imported(d).edges.contains(e),
        e.kind == "has_permission"@,
    ensures
        e.resource is Some,
        account_ids(d).contains_key(e.resource->0) ==> e.to == account_ids(d)[e.resource->0],
        !account_ids(d).contains_key(e.resource->0) ==> e.to == e.resource->0,
{
    permissions_are_the_allowed_ones(d, e);
}

/// A node more keeps ids apart.
proof fn lemma_grown(nodes: Seq<NodeView>, id: Seq<char>, kind: Seq<char>)
    requires
        distinct_ids(nodes),
    ensures
        distinct_ids(grown(nodes, id, kind)),
        forall|k: Seq<char>| #[trigger] known(grown(nodes, id, kind), k) <==> k == id || known(nodes, k),
{
    let n = NodeView { id, kind, attrs: Map::empty() };
    lemma_known_push(nodes, n);
    if !known(nodes, id) {
        let all = nodes.push(n);
        assert forall|j: int| 0 <= j < all.len() implies !#[trigger] repeats(all, j) by {
            assert(all.take(j) =~= nodes.take(j));
            if j < nodes.len() {
                assert(!repeats(nodes, j));
            } else {
                assert(nodes.take(j) =~= nodes);
            }
        }
    }
}

/// The edge at a place leads out of a principal that may assume a role.
pub open spec fn assumes_from(edges: Seq<EdgeView>, i: int, k: Seq<char>) -> bool {
    0 <= i < edges.len() && edges[i].kind == "can_assume"@ && edges[i].from == k
}

proof fn lemma_with_sources(nodes: Seq<NodeView>, edges: Seq<EdgeView>, list: Seq<Seq<char>>)
    requires
        distinct_ids(nodes),
    ensures
        distinct_ids(with_sources(nodes, edges, list)),
        forall|k: Seq<char>| #[trigger]
            known(with_sources(nodes, edges, list), k) <==> known(nodes, k) || exists|i: int| assumes_from(edges, i, k),
    decreases edges.len(),
{
    if edges.len() > 0 {
        let front = edges.drop_last();
        lemma_with_sources(nodes, front, list);
        lemma_grown(with_sources(nodes, front, list), edges.last().from, kind_of(edges.last().from, list));
        assert forall|k: Seq<char>| #[trigger] known(with_sources(nodes, edges, list), k) <==> known(nodes, k) || exists|
            i: int,
        | assumes_from(edges, i, k) by {
            assert(known(with_sources(nodes, front, list), k) <==> known(nodes, k) || exists|i: int|
                assumes_from(front, i, k));
            if exists|i: int| assumes_from(front, i, k) {
                let i = choose|i: int| assumes_from(front, i, k);
                assert(assumes_from(edges, i, k));
            }
            if exists|i: int| assumes_from(edges, i, k) {
                let i = choose|i: int| assumes_from(edges, i, k);
                assert(i < front.len() ==> assumes_from(front, i, k));
            }
            if edges.last().kind == "can_assume"@ && edges.last().from == k {
                assert(assumes_from(edges, edges.len() - 1, k));
            }
        }
    } else {
        assert forall|k: Seq<char>| #[trigger] known(with_sources(nodes, edges, list), k) <==> known(nodes, k) || exists|
            i: int,
        | assumes_from(edges, i, k) by {}
    }
}

proof fn lemma_with_resources(nodes: Seq<NodeView>, list: Seq<Seq<char>>)
    requires
        distinct_ids(nodes),
    ensures
        distinct_ids(with_resources(nodes, list)),
        forall|k: Seq<char>| #[trigger] known(with_resources(nodes, list), k) <==> known(nodes, k) || list.contains(k),
    decreases list.len(),
{
    if list.len() > 0 {
        let front = list.drop_last();
        lemma_with_resources(nodes, front);
        lemma_grown(with_resources(nodes, front), list.last(), "resource"@);
        assert forall|k: Seq<char>| #[trigger] known(with_resources(nodes, list), k) <==> known(nodes, k)
            || list.contains(k) by {
            assert(known(with_resources(nodes, front), k) <==> known(nodes, k) || front.contains(k));
            if front.contains(k) {
                let i = choose|i: int| 0 <= i < front.len() && front[i] == k;
                assert(list[i] == k);
            }
            if list.contains(k) && k != list.last() {
                let i = choose|i: int| 0 <= i < list.len() && list[i] == k;
                assert(front[i] == k);
            }
            assert(list[list.len() - 1] == list.last());
        }
    }
}

proof fn lemma_named_distinct(list: Seq<(Seq<char>, Seq<char>, Seq<char>)>)
    ensures
        distinct_ids(named(list).0),
    decreases list.len(),
{
    if list.len() > 0 {
        lemma_named_distinct(list.drop_last());
        let nodes = named(list.drop_last()).0;
        let (name, kind, arn) = list.last();
        let id = if known(nodes, name) {
            arn
        } else {
            name
        };
        lemma_grown(nodes, id, kind);
    }
}

/// An ascending list can take one more text.
proof fn ascending_with(s: Seq<Seq<char>>, x: Seq<char>) -> (t: Seq<Seq<char>>)
    requires
        ascending(s),
    ensures
        ascending(t),
        forall|k: Seq<char>| #[trigger] t.contains(k) <==> k == x || s.contains(k),
    decreases s.len(),
{
    if s.contains(x) {
        s
    } else if s.len() == 0 || before(s.last(), x) {
        let t = s.push(x);
        assert forall|i: int, j: int| 0 <= i < j < t.len() implies before(#[trigger] t[i], #[trigger] t[j]) by {
            if j == s.len() {
                before_is_strict_order(t[i], s.last(), x);
            }
        }
        assert forall|k: Seq<char>| #[trigger] t.contains(k) <==> k == x || s.contains(k) by {
            assert(t[s.len() as int] == x);
            if s.contains(k) {
                let i = choose|i: int| 0 <= i < s.len() && s[i] == k;
                assert(t[i] == k);
            }
        }
        t
    } else {
        let last = s.last();
        let front = s.drop_last();
        assert(s[s.len() - 1] == last);
        before_is_strict_order(last, x, x);
        let r = ascending_with(front, x);
        let t = r.push(last);
        assert forall|i: int, j: int| 0 <= i < j < t.len() implies before(#[trigger] t[i], #[trigger] t[j]) by {
            if j == r.len() {
                assert(r.contains(r[i]));
                if r[i] != x {
                    let m = choose|m: int| 0 <= m < front.len() && front[m] == r[i];
                    assert(before(s[m], s[s.len() - 1]));
                }
            }
        }
        assert forall|k: Seq<char>| #[trigger] t.contains(k) <==> k == x || s.contains(k) by {
            assert(t[r.len() as int] == last);
            if r.contains(k) {
                let i = choose|i: int| 0 <= i < r.len() && r[i] == k;
                assert(t[i] == k);
            }
            if front.contains(k) {
                let i = choose|i: int| 0 <= i < front.len() && front[i] == k;
                assert(s[i] == k);
            }
            if s.contains(k) {
                let i = choose|i: int| 0 <= i < s.len() && s[i] == k;
                assert(i < front.len() ==> front[i] == k);
            }
            if t.contains(k) {
                let i = choose|i: int| 0 <= i < t.len() && t[i] == k;
                assert(i < r.len() ==> r[i] == k);
            }
        }
        t
    }
}

/// The resources of edges can be listed in ascending order.
pub proof fn listed_resources(edges: Seq<EdgeView>, ids: Ids) -> (s: Seq<Seq<char>>)
    ensures
        ascending(s),
        forall|k: Seq<char>| #[trigger] s.contains(k) <==> is_resource(edges, ids, k),
    decreases edges.len(),
{
    if edges.len() == 0 {
        Seq::empty()
    } else {
        let front = edges.drop_last();
        let e = edges.last();
        let s = listed_resources(front, ids);
        assert(front.push(e) =~= edges);
        if e.resource is Some && !ids.contains_key(e.resource->0) {
            lemma_resource_added(front, e, ids);
            ascending_with(s, e.resource->0)
        } else {
            lemma_resources_kept(front, e, ids);
            s
        }
    }
}

/// The nodes of an import are the identities, the principals that may assume a role and the
/// resources that a permission names: there is no other node, and none of these is left out.
pub proof fn nodes_are_what_the_account_names(d: AuthDetails, k: Seq<char>)
    ensures
        known(imported(d).nodes, k) <==> {
            ||| known(named(identities(d)).0, k)
            ||| exists|i: int| assumes_from(imported(d).edges, i, k)
            ||| is_resource(imported(d).edges, account_ids(d), k)
        },
{
    let (nodes, ids) = named(identities(d));
    let edges = account_edges(d, ids);
    lemma_named_distinct(identities(d));
    let list = listed_resources(edges, ids);
    lemma_with_sources(nodes, edges, list);
    lemma_resource_list(list, edges, ids);
    lemma_with_resources(with_sources(nodes, edges, list), list);
    assert(known(with_sources(nodes, edges, list), k) <==> known(nodes, k) || exists|i: int| assumes_from(edges, i, k));
}

/// Every identity of an account has a node, under the id that its ARN stands for.
pub proof fn identities_have_nodes(d: AuthDetails, i: int)
    requires
        0 <= i < identities(d).len(),
    ensures
        account_ids(d).contains_key(identities(d)[i].2),
        known(imported(d).nodes, account_ids(d)[identities(d)[i].2]),
{
    lemma_named_has(identities(d));
    nodes_are_what_the_account_names(d, account_ids(d)[identities(d)[i].2]);
}

/// The document of an account always loads: no id is given twice, and every edge joins nodes of
/// the document.
pub proof fn imports_load(d: AuthDetails)
    ensures
        imported(d).loadable(),
{
    let (nodes, ids) = named(identities(d));
    let edges = account_edges(d, ids);
    lemma_named_distinct(identities(d));
    lemma_named_has(identities(d));
    let list = listed_resources(edges, ids);
    lemma_with_sources(nodes, edges, list);
    lemma_resource_list(list, edges, ids);
    lemma_with_resources(with_sources(nodes, edges, list), list);
    let doc = imported(d);
    assert forall|j: int| 0 <= j < doc.edges.len() implies !#[trigger] doc.dangling(j) by {
        let e = doc.edges[j];
        assert(doc.edges.contains(e));
        edges_are_what_the_account_says(d, e);
        lemma_ends_known(d, j);
    }
}

proof fn lemma_ends_known(d: AuthDetails, j: int)
    requires
        0 <= j < imported(d).edges.len(),
        said(d, imported(d).edges[j]),
    ensures
        known(imported(d).nodes, imported(d).edges[j].from),
        known(imported(d).nodes, imported(d).edges[j].to),
{
    let ids = account_ids(d);
    let edges = imported(d).edges;
    let e = edges[j];
    let all = identities(d);
    lemma_kinds();
    nodes_are_what_the_account_names(d, e.from);
    nodes_are_what_the_account_names(d, e.to);
    lemma_named_has(all);
    if exists|i: int| #[trigger] user_granted(d, i, e) {
        let i = choose|i: int| #[trigger] user_granted(d, i, e);
        assert(all[i].2 == d.users@[i].arn@);
        lemma_granted_ends(d, ids[d.users@[i].arn@], docs(
            managed(d.policies@),
            d.users@[i].attached@,
            d.users@[i].inline@,
        ), j);
    } else if exists|i: int| #[trigger] group_granted(d, i, e) {
        let i = choose|i: int| #[trigger] group_granted(d, i, e);
        assert(all[d.users@.len() + i].2 == d.groups@[i].arn@);
        lemma_granted_ends(d, ids[d.groups@[i].arn@], docs(
            managed(d.policies@),
            d.groups@[i].attached@,
            d.groups@[i].inline@,
        ), j);
    } else if exists|i: int| #[trigger] role_granted(d, i, e) {
        let i = choose|i: int| #[trigger] role_granted(d, i, e);
        assert(all[d.users@.len() + d.groups@.len() + i].2 == d.roles@[i].arn@);
        lemma_granted_ends(d, ids[d.roles@[i].arn@], docs(
            managed(d.policies@),
            d.roles@[i].attached@,
            d.roles@[i].inline@,
        ), j);
    } else if exists|i: int| #[trigger] role_trusted(d, i, e) {
        let i = choose|i: int| #[trigger] role_trusted(d, i, e);
        assert(all[d.users@.len() + d.groups@.len() + i].2 == d.roles@[i].arn@);
        assert(assumes_from(edges, j, e.from));
    } else {
        let i = choose|i: int| #[trigger] user_joined(d, i, e);
        assert(user_joined(d, i, e));
        assert(all[i].2 == d.users@[i].arn@);
        let names = texts(d.users@[i].groups@);
        let k = choose|k: int|
            0 <= k < names.len() && group_id(d, ids, #[trigger] names[k]) == Some(e.to) && e == membership(
                ids[d.users@[i].arn@],
                e.to,
            );
        let g = choose|g: int| first_group(d, names[k], g);
        assert(first_group(d, names[k], g));
        assert(all[d.users@.len() + g].2 == d.groups@[g].arn@);
    }
}

/// Both ends of a granted edge are nodes.
proof fn lemma_granted_ends(d: AuthDetails, from: Seq<char>, list: Seq<PolicyDocument>, j: int)
    requires
        0 <= j < imported(d).edges.len(),
        granted_by(account_ids(d), from, list, imported(d).edges[j]),
        known(named(identities(d)).0, from),
    ensures
        known(imported(d).nodes, imported(d).edges[j].from),
        known(imported(d).nodes, imported(d).edges[j].to),
{
    let ids = account_ids(d);
    let e = imported(d).edges[j];
    lemma_named_has(identities(d));
    nodes_are_what_the_account_names(d, e.from);
    nodes_are_what_the_account_names(d, e.to);
    assert(e.from == from && e.resource is Some && e.to == resolved(ids, e.resource->0));
    if ids.contains_key(e.resource->0) {
        assert(known(named(identities(d)).0, e.to));
    } else {
        assert(is_resource(imported(d).edges, ids, e.to));
    }
}

/// The node is that of the identity at a place: it has the kind of the identity, and its name or its
/// ARN for an id.
pub open spec fn stands_for_identity(list: Seq<(Seq<char>, Seq<char>, Seq<char>)>, i: int, n: NodeView) -> bool {
    0 <= i < list.len() && n.kind == list[i].1 && (n.id == list[i].0 || n.id == list[i].2)
}

pub proof fn lemma_named_from(list: Seq<(Seq<char>, Seq<char>, Seq<char>)>, j: int)
    requires
        0 <= j < named(list).0.len(),
    ensures
        exists|i: int| stands_for_identity(list, i, named(list).0[j]),
    decreases list.len(),
{
    if list.len() > 0 {
        let front = list.drop_last();
        let nodes = named(front).0;
        let n = named(list).0[j];
        if j < nodes.len() {
            lemma_named_from(front, j);
            let i = choose|i: int| stands_for_identity(front, i, nodes[j]);
            assert(list[i] == front[i]);
            assert(stands_for_identity(list, i, n));
        } else {
            assert(stands_for_identity(list, list.len() - 1, n));
        }
    }
}

/// Every node that an import makes for identities is that of an identity: a user, a group or a role
/// of the account, under its name or its ARN.
pub proof fn identity_nodes_are_of_identities(d: AuthDetails, j: int)
    requires
        0 <= j < named(identities(d)).0.len(),
    ensures
        exists|i: int| stands_for_identity(identities(d), i, named(identities(d)).0[j]),
{
    lemma_named_from(identities(d), j);
}

/// The first nodes stay, and each further one has the kind that its id asks for.
proof fn lemma_source_kinds(nodes: Seq<NodeView>, edges: Seq<EdgeView>, list: Seq<Seq<char>>)
    ensures
        with_sources(nodes, edges, list).len() >= nodes.len(),
        forall|j: int|
            0 <= j < with_sources(nodes, edges, list).len() ==> if j < nodes.len() {
                #[trigger] with_sources(nodes, edges, list)[j] == nodes[j]
            } else {
                with_sources(nodes, edges, list)[j].kind == kind_of(with_sources(nodes, edges, list)[j].id, list)
            },
    decreases edges.len(),
{
    if edges.len() > 0 {
        lemma_source_kinds(nodes, edges.drop_last(), list);
        let rest = with_sources(nodes, edges.drop_last(), list);
        let all = with_sources(nodes, edges, list);
        assert forall|j: int| 0 <= j < all.len() implies if j < nodes.len() {
            #[trigger] all[j] == nodes[j]
        } else {
            all[j].kind == kind_of(all[j].id, list)
        } by {
            if j < rest.len() {
                assert(all[j] == rest[j]);
            }
        }
    }
}

/// The first nodes stay, and each further one is a listed resource.
proof fn lemma_resource_kinds(nodes: Seq<NodeView>, list: Seq<Seq<char>>)
    ensures
        with_resources(nodes, list).len() >= nodes.len(),
        forall|j: int|
            0 <= j < with_resources(nodes, list).len() ==> if j < nodes.len() {
                #[trigger] with_resources(nodes, list)[j] == nodes[j]
            } else {
                with_resources(nodes, list)[j].kind == "resource"@ && list.contains(with_resources(nodes, list)[j].id)
            },
    decreases list.len(),
{
    if list.len() > 0 {
        let front = list.drop_last();
        lemma_resource_kinds(nodes, front);
        let rest = with_resources(nodes, front);
        let all = with_resources(nodes, list);
        assert forall|j: int| 0 <= j < all.len() implies if j < nodes.len() {
            #[trigger] all[j] == nodes[j]
        } else {
            all[j].kind == "resource"@ && list.contains(all[j].id)
        } by {
            if j < rest.len() {
                assert(all[j] == rest[j]);
                if j >= nodes.len() {
                    let i = choose|i: int| 0 <= i < front.len() && front[i] == all[j].id;
                    assert(list[i] == all[j].id);
                }
            } else {
                assert(list[list.len() - 1] == all[j].id);
            }
        }
    }
}

/// The nodes of an import are those of the identities, and behind them one of kind `resource` for
/// each resource and one of kind `external` for each other principal.
pub proof fn nodes_have_their_kinds(d: AuthDetails, j: int)
    requires
        0 <= j < imported(d).nodes.len(),
    ensures
        imported(d).nodes.len() >= named(identities(d)).0.len(),
        j < named(identities(d)).0.len() ==> imported(d).nodes[j] == named(identities(d)).0[j],
        j >= named(identities(d)).0.len() ==> imported(d).nodes[j].kind == if is_resource(
            imported(d).edges,
            account_ids(d),
            imported(d).nodes[j].id,
        ) {
            "resource"@
        } else {
            "external"@
        },
{
    let (nodes, ids) = named(identities(d));
    let edges = account_edges(d, ids);
    let list = listed_resources(edges, ids);
    lemma_resource_list(list, edges, ids);
    let sourced = with_sources(nodes, edges, list);
    lemma_source_kinds(nodes, edges, list);
    lemma_resource_kinds(sourced, list);
    let n = imported(d).nodes[j];
    assert(n == with_resources(sourced, list)[j]);
    if j < sourced.len() {
        assert(n == sourced[j]);
    }
    assert(list.contains(n.id) <==> is_resource(edges, ids, n.id));
}

/// A resource that a permission names has a node of kind `resource`, also where a role trusts a
/// principal of the same name. An identity keeps its own kind, where its node has the name of the
/// resource for an id.
pub proof fn resources_are_of_kind_resource(d: AuthDetails, k: Seq<char>)
    requires
        is_resource(imported(d).edges, account_ids(d), k),
        !known(named(identities(d)).0, k),
    ensures
        exists|j: int| 0 <= j < imported(d).nodes.len() && #[trigger] imported(d).nodes[j].id == k,
        forall|j: int|
            0 <= j < imported(d).nodes.len() && #[trigger] imported(d).nodes[j].id == k ==> imported(d).nodes[j].kind
                == "resource"@,
{
    nodes_are_what_the_account_names(d, k);
    assert forall|j: int| 0 <= j < imported(d).nodes.len() && #[trigger] imported(d).nodes[j].id == k implies imported(
        d,
    ).nodes[j].kind == "resource"@ by {
        nodes_have_their_kinds(d, j);
        if j < named(identities(d)).0.len() {
            assert(named(identities(d)).0[j].id == k);
        }
    }
}

// ---- What does not allow is left out ----

/// The statements of a policy that grant something, in their order.
pub open spec fn allowing(sts: Seq<Statement>) -> Seq<StatementView> {
    statement_views(sts.filter(|st: Statement| allows(st)))
}

/// Two policies have the same statements that grant something.
pub open spec fn same_grants(a: PolicyDocument, b: PolicyDocument) -> bool {
    allowing(a.statements@) == allowing(b.statements@)
}

/// The ARNs of attached policies.
pub open spec fn attached_arns(list: Seq<AttachedPolicy>) -> Seq<Seq<char>> {
    list.map_values(|a: AttachedPolicy| a.arn@)
}

/// Two lists of policies of an identity have the same grants one by one.
pub open spec fn same_inline(a: Seq<InlinePolicy>, b: Seq<InlinePolicy>) -> bool {
    &&& a.len() == b.len()
    &&& forall|i: int| #![trigger a[i]] #![trigger b[i]] 0 <= i < a.len() ==> same_grants(a[i].document, b[i].document)
}

/// Two users are the same but for statements that grant nothing.
pub open spec fn same_user(a: UserDetail, b: UserDetail) -> bool {
    &&& a.name@ == b.name@
    &&& a.arn@ == b.arn@
    &&& texts(a.groups@) == texts(b.groups@)
    &&& attached_arns(a.attached@) == attached_arns(b.attached@)
    &&& same_inline(a.inline@, b.inline@)
}

/// Two groups are the same but for statements that grant nothing.
pub open spec fn same_group(a: GroupDetail, b: GroupDetail) -> bool {
    &&& a.name@ == b.name@
    &&& a.arn@ == b.arn@
    &&& attached_arns(a.attached@) == attached_arns(b.attached@)
    &&& same_inline(a.inline@, b.inline@)
}

/// The statements of a trust policy, where there is one.
pub open spec fn trust_views(trust: Option<PolicyDocument>) -> Option<Seq<StatementView>> {
    match trust {
        Some(t) => Some(statement_views(t.statements@)),
        None => None,
    }
}

/// Two roles are the same but for statements that grant nothing.
pub open spec fn same_role(a: RoleDetail, b: RoleDetail) -> bool {
    &&& a.name@ == b.name@
    &&& a.arn@ == b.arn@
    &&& trust_views(a.trust) == trust_views(b.trust)
    &&& attached_arns(a.attached@) == attached_arns(b.attached@)
    &&& same_inline(a.inline@, b.inline@)
}

/// Two managed policies are the same but for statements that grant nothing.
pub open spec fn same_policy(a: ManagedPolicy, b: ManagedPolicy) -> bool {
    &&& a.arn@ == b.arn@
    &&& a.default_version@ == b.default_version@
    &&& a.versions@.len() == b.versions@.len()
    &&& forall|i: int| #![trigger a.versions@[i]] #![trigger b.versions@[i]]
        0 <= i < a.versions@.len() ==> a.versions@[i].version_id@ == b.versions@[i].version_id@ && same_grants(
            a.versions@[i].document,
            b.versions@[i].document,
        )
}

/// Two accounts are the same but for statements of permission policies that grant nothing: those
/// that deny, and those with `NotAction` or `NotResource`.
pub open spec fn same_account(a: AuthDetails, b: AuthDetails) -> bool {
    &&& a.users@.len() == b.users@.len()
    &&& a.groups@.len() == b.groups@.len()
    &&& a.roles@.len() == b.roles@.len()
    &&& a.policies@.len() == b.policies@.len()
    &&& forall|i: int| #![trigger a.users@[i]] #![trigger b.users@[i]]
        0 <= i < a.users@.len() ==> same_user(a.users@[i], b.users@[i])
    &&& forall|i: int| #![trigger a.groups@[i]] #![trigger b.groups@[i]]
        0 <= i < a.groups@.len() ==> same_group(a.groups@[i], b.groups@[i])
    &&& forall|i: int| #![trigger a.roles@[i]] #![trigger b.roles@[i]]
        0 <= i < a.roles@.len() ==> same_role(a.roles@[i], b.roles@[i])
    &&& forall|i: int| #![trigger a.policies@[i]] #![trigger b.policies@[i]]
        0 <= i < a.policies@.len() ==> same_policy(a.policies@[i], b.policies@[i])
}

proof fn lemma_filter_insert(sts: Seq<Statement>, k: int, st: Statement)
    requires
        0 <= k <= sts.len(),
        !allows(st),
    ensures
        sts.insert(k, st).filter(|x: Statement| allows(x)) == sts.filter(|x: Statement| allows(x)),
    decreases sts.len(),
{
    reveal(Seq::filter);
    let all = sts.insert(k, st);
    if k == sts.len() {
        assert(all.drop_last() =~= sts);
        assert(all.last() == st);
    } else {
        assert(all.last() == sts.last());
        assert(all.drop_last() =~= sts.drop_last().insert(k, st));
        lemma_filter_insert(sts.drop_last(), k, st);
    }
}

/// One more statement that grants nothing, wherever it stands in a policy, leaves the statements
/// that grant something as they are.
pub proof fn one_more_refusal_is_no_grant(sts: Seq<Statement>, k: int, st: Statement)
    requires
        0 <= k <= sts.len(),
        !allows(st),
    ensures
        allowing(sts.insert(k, st)) == allowing(sts),
{
    lemma_filter_insert(sts, k, st);
}

proof fn lemma_allowing_edges(ids: Ids, from: Seq<char>, sts: Seq<Statement>)
    ensures
        statements_edges(ids, from, sts) == statements_edges(ids, from, sts.filter(|st: Statement| allows(st))),
    decreases sts.len(),
{
    reveal(Seq::filter);
    if sts.len() > 0 {
        let keep = |st: Statement| allows(st);
        let front = sts.drop_last();
        let st = sts.last();
        lemma_allowing_edges(ids, from, front);
        if allows(st) {
            assert(sts.filter(keep).drop_last() =~= front.filter(keep));
            assert(sts.filter(keep).last() == st);
        } else {
            assert(statement_edges(ids, from, st) =~= Seq::empty());
            assert(statements_edges(ids, from, sts) =~= statements_edges(ids, from, front));
        }
    }
}

/// Statements that are the same make the same edges.
proof fn lemma_same_statements(ids: Ids, from: Seq<char>, a: Seq<Statement>, b: Seq<Statement>)
    requires
        statement_views(a) == statement_views(b),
    ensures
        statements_edges(ids, from, a) == statements_edges(ids, from, b),
        trust_edges(ids, from, a) == trust_edges(ids, from, b),
    decreases a.len(),
{
    assert(statement_views(a).len() == a.len());
    assert(statement_views(b).len() == b.len());
    if a.len() > 0 {
        assert(statement_views(a.drop_last()) =~= statement_views(a).drop_last());
        assert(statement_views(b.drop_last()) =~= statement_views(b).drop_last());
        lemma_same_statements(ids, from, a.drop_last(), b.drop_last());
        let s = a.last();
        let t = b.last();
        assert(statement_views(a).last() == s@);
        assert(statement_views(b).last() == t@);
        assert(s@ == t@);
        assert(texts(s.not_action@).len() == s.not_action@.len());
        assert(texts(t.not_action@).len() == t.not_action@.len());
        assert(texts(s.not_resource@).len() == s.not_resource@.len());
        assert(texts(t.not_resource@).len() == t.not_resource@.len());
        assert(texts(s.resource@).len() == s.resource@.len());
        assert(texts(t.resource@).len() == t.resource@.len());
        assert(texts(s.action@).len() == s.action@.len());
        assert(texts(t.action@).len() == t.action@.len());
        assert(texts(s.action@) == texts(t.action@));
        assert(trusts(s) == trusts(t)) by {
            if trusts(s) {
                let i = choose|i: int|
                    0 <= i < s.action@.len() && same_letters(#[trigger] texts(s.action@)[i], "sts:AssumeRole"@);
                assert(same_letters(texts(t.action@)[i], "sts:AssumeRole"@));
            }
            if trusts(t) {
                let i = choose|i: int|
                    0 <= i < t.action@.len() && same_letters(#[trigger] texts(t.action@)[i], "sts:AssumeRole"@);
                assert(same_letters(texts(s.action@)[i], "sts:AssumeRole"@));
            }
        }
    }
}

/// Two lists of documents have the same grants one by one.
spec fn same_docs(a: Seq<PolicyDocument>, b: Seq<PolicyDocument>) -> bool {
    &&& a.len() == b.len()
    &&& forall|i: int| #![trigger a[i]] #![trigger b[i]] 0 <= i < a.len() ==> same_grants(a[i], b[i])
}

proof fn lemma_same_permissions(ids: Ids, from: Seq<char>, a: Seq<PolicyDocument>, b: Seq<PolicyDocument>)
    requires
        same_docs(a, b),
    ensures
        permission_edges(ids, from, a) == permission_edges(ids, from, b),
    decreases a.len(),
{
    if a.len() > 0 {
        assert forall|i: int| 0 <= i < a.len() - 1 implies same_grants(#[trigger] a.drop_last()[i], b.drop_last()[i]) by {
            assert(same_grants(a[i], b[i]));
        }
        lemma_same_permissions(ids, from, a.drop_last(), b.drop_last());
        assert(same_grants(a[a.len() - 1], b[b.len() - 1]));
        lemma_allowing_edges(ids, from, a.last().statements@);
        lemma_allowing_edges(ids, from, b.last().statements@);
        lemma_same_statements(
            ids,
            from,
            a.last().statements@.filter(|st: Statement| allows(st)),
            b.last().statements@.filter(|st: Statement| allows(st)),
        );
    }
}

/// Two indexes of managed policies have the same ARNs, with the same grants.
spec fn same_managed(a: Map<Seq<char>, PolicyDocument>, b: Map<Seq<char>, PolicyDocument>) -> bool {
    &&& forall|k: Seq<char>| #[trigger] a.contains_key(k) <==> b.contains_key(k)
    &&& forall|k: Seq<char>| #[trigger] a.contains_key(k) ==> same_grants(a[k], b[k])
}

proof fn lemma_same_in_force(a: ManagedPolicy, b: ManagedPolicy)
    requires
        same_policy(a, b),
    ensures
        in_force(a) == in_force(b),
        in_force(a) is Some ==> 0 <= in_force(a)->0 < a.versions@.len(),
{
    assert forall|i: int| #[trigger] is_default(a, i) == is_default(b, i) by {
        if 0 <= i < a.versions@.len() {
            assert(a.versions@[i].version_id@ == b.versions@[i].version_id@);
        }
    }
    assert forall|i: int| #[trigger] first_default(a, i) == first_default(b, i) by {
        if first_default(a, i) {
            assert forall|j: int| 0 <= j < i implies !is_default(b, j) by {
                assert(!is_default(a, j));
            }
            assert(is_default(a, i));
        }
        if first_default(b, i) {
            assert forall|j: int| 0 <= j < i implies !is_default(a, j) by {
                assert(!is_default(b, j));
            }
            assert(is_default(b, i));
            assert(is_default(a, i) == is_default(b, i));
        }
    }
    if exists|i: int| first_default(a, i) {
        let i = choose|i: int| first_default(a, i);
        assert(first_default(b, i));
        let k = choose|k: int| first_default(b, k);
        assert(first_default(b, k));
        assert(first_default(a, k) == first_default(b, k));
        assert(is_default(a, k) && is_default(a, i));
        assert(i == k);
    } else if exists|i: int| first_default(b, i) {
        let i = choose|i: int| first_default(b, i);
        assert(first_default(a, i) == first_default(b, i));
    }
}

proof fn lemma_same_managed(a: Seq<ManagedPolicy>, b: Seq<ManagedPolicy>)
    requires
        a.len() == b.len(),
        forall|i: int| #![trigger a[i]] 0 <= i < a.len() ==> same_policy(a[i], b[i]),
    ensures
        same_managed(managed(a), managed(b)),
    decreases a.len(),
{
    if a.len() > 0 {
        assert forall|i: int| 0 <= i < a.len() - 1 implies same_policy(#[trigger] a.drop_last()[i], b.drop_last()[i]) by {
            assert(same_policy(a[i], b[i]));
        }
        lemma_same_managed(a.drop_last(), b.drop_last());
        let p = a.last();
        let q = b.last();
        assert(same_policy(a[a.len() - 1], b[b.len() - 1]));
        lemma_same_in_force(p, q);
        if in_force(p) is Some {
            let i = in_force(p)->0;
            assert(p.versions@[i].version_id@ == q.versions@[i].version_id@);
            assert(same_grants(p.versions@[i].document, q.versions@[i].document));
        }
    }
}

proof fn lemma_same_attached(
    m: Map<Seq<char>, PolicyDocument>,
    n: Map<Seq<char>, PolicyDocument>,
    a: Seq<AttachedPolicy>,
    b: Seq<AttachedPolicy>,
)
    requires
        same_managed(m, n),
        attached_arns(a) == attached_arns(b),
    ensures
        same_docs(attached_docs(m, a), attached_docs(n, b)),
    decreases a.len(),
{
    assert(attached_arns(a).len() == a.len());
    assert(attached_arns(b).len() == b.len());
    if a.len() > 0 {
        assert(attached_arns(a.drop_last()) =~= attached_arns(a).drop_last());
        assert(attached_arns(b.drop_last()) =~= attached_arns(b).drop_last());
        lemma_same_attached(m, n, a.drop_last(), b.drop_last());
        assert(attached_arns(a).last() == a.last().arn@);
        assert(attached_arns(b).last() == b.last().arn@);
        let x = attached_docs(m, a);
        let y = attached_docs(n, b);
        let k = a.last().arn@;
        assert(m.contains_key(k) <==> n.contains_key(k));
        let p = attached_docs(m, a.drop_last());
        let q = attached_docs(n, b.drop_last());
        assert forall|i: int| 0 <= i < x.len() implies same_grants(#[trigger] x[i], y[i]) by {
            if i < p.len() {
                assert(x[i] == p[i]);
                assert(y[i] == q[i]);
                assert(same_grants(p[i], q[i]));
            }
        }
    }
}

/// The grants of an identity are the same in both accounts.
proof fn lemma_same_docs(
    d: AuthDetails,
    e: AuthDetails,
    ids: Ids,
    from: Seq<char>,
    a: Seq<AttachedPolicy>,
    b: Seq<AttachedPolicy>,
    x: Seq<InlinePolicy>,
    y: Seq<InlinePolicy>,
)
    requires
        same_account(d, e),
        attached_arns(a) == attached_arns(b),
        same_inline(x, y),
    ensures
        permission_edges(ids, from, docs(managed(d.policies@), a, x)) == permission_edges(
            ids,
            from,
            docs(managed(e.policies@), b, y),
        ),
{
    let m = managed(d.policies@);
    let n = managed(e.policies@);
    lemma_same_managed(d.policies@, e.policies@);
    lemma_same_attached(m, n, a, b);
    let p = attached_docs(m, a);
    let q = attached_docs(n, b);
    let u = docs(m, a, x);
    let v = docs(n, b, y);
    assert forall|i: int| 0 <= i < u.len() implies same_grants(#[trigger] u[i], v[i]) by {
        if i < p.len() {
            assert(u[i] == p[i] && v[i] == q[i]);
            assert(same_grants(p[i], q[i]));
        } else {
            let k = i - p.len();
            assert(u[i] == x[k].document && v[i] == y[k].document);
            assert(same_grants(x[k].document, y[k].document));
        }
    }
    lemma_same_permissions(ids, from, u, v);
}

proof fn lemma_same_group_id(d: AuthDetails, e: AuthDetails, ids: Ids, name: Seq<char>)
    requires
        same_account(d, e),
    ensures
        group_id(d, ids, name) == group_id(e, ids, name),
{
    assert forall|i: int| #[trigger] is_group(d, name, i) == is_group(e, name, i) by {
        if 0 <= i < d.groups@.len() {
            assert(same_group(d.groups@[i], e.groups@[i]));
        }
    }
    assert forall|i: int| #[trigger] first_group(d, name, i) implies first_group(e, name, i) by {
        assert(is_group(d, name, i));
        assert forall|j: int| 0 <= j < i implies !is_group(e, name, j) by {
            assert(!is_group(d, name, j));
        }
    }
    assert forall|i: int| #[trigger] first_group(e, name, i) implies first_group(d, name, i) by {
        assert(is_group(d, name, i) == is_group(e, name, i));
        assert forall|j: int| 0 <= j < i implies !is_group(d, name, j) by {
            assert(is_group(d, name, j) == is_group(e, name, j));
        }
    }
    if exists|i: int| first_group(d, name, i) {
        let i = choose|i: int| first_group(d, name, i);
        assert(first_group(e, name, i));
        let k = choose|k: int| first_group(e, name, k);
        assert(first_group(e, name, k));
        assert(is_group(e, name, i) && is_group(e, name, k));
        assert(i == k);
        assert(same_group(d.groups@[i], e.groups@[i]));
    }
}

proof fn lemma_same_members(d: AuthDetails, e: AuthDetails, ids: Ids, from: Seq<char>, names: Seq<Seq<char>>)
    requires
        same_account(d, e),
    ensures
        member_edges(d, ids, from, names) == member_edges(e, ids, from, names),
    decreases names.len(),
{
    if names.len() > 0 {
        lemma_same_members(d, e, ids, from, names.drop_last());
        lemma_same_group_id(d, e, ids, names.last());
    }
}

proof fn lemma_same_users(d: AuthDetails, e: AuthDetails, ids: Ids, n: nat)
    requires
        same_account(d, e),
        n <= d.users@.len(),
    ensures
        users_edges(d, ids, n) == users_edges(e, ids, n),
    decreases n,
{
    if n > 0 {
        lemma_same_users(d, e, ids, (n - 1) as nat);
        let u = d.users@[n - 1];
        let v = e.users@[n - 1];
        assert(same_user(u, v));
        lemma_same_members(d, e, ids, ids[u.arn@], texts(u.groups@));
        lemma_same_docs(d, e, ids, ids[u.arn@], u.attached@, v.attached@, u.inline@, v.inline@);
    }
}

proof fn lemma_same_groups(d: AuthDetails, e: AuthDetails, ids: Ids, n: nat)
    requires
        same_account(d, e),
        n <= d.groups@.len(),
    ensures
        groups_edges(d, ids, n) == groups_edges(e, ids, n),
    decreases n,
{
    if n > 0 {
        lemma_same_groups(d, e, ids, (n - 1) as nat);
        let u = d.groups@[n - 1];
        let v = e.groups@[n - 1];
        assert(same_group(u, v));
        lemma_same_docs(d, e, ids, ids[u.arn@], u.attached@, v.attached@, u.inline@, v.inline@);
    }
}

proof fn lemma_same_roles(d: AuthDetails, e: AuthDetails, ids: Ids, n: nat)
    requires
        same_account(d, e),
        n <= d.roles@.len(),
    ensures
        roles_edges(d, ids, n) == roles_edges(e, ids, n),
    decreases n,
{
    if n > 0 {
        lemma_same_roles(d, e, ids, (n - 1) as nat);
        let u = d.roles@[n - 1];
        let v = e.roles@[n - 1];
        assert(same_role(u, v));
        if u.trust is Some {
            lemma_same_statements(ids, ids[u.arn@], u.trust->0.statements@, v.trust->0.statements@);
        }
        lemma_same_docs(d, e, ids, ids[u.arn@], u.attached@, v.attached@, u.inline@, v.inline@);
    }
}

/// Accounts that differ only in statements of permission policies that deny, or that have
/// `NotAction` or `NotResource`, are imported as the same document, nodes and edges in the same
/// order.
pub proof fn refusals_leave_an_import_unchanged(d: AuthDetails, e: AuthDetails)
    requires
        same_account(d, e),
    ensures
        imported(d) == imported(e),
{
    let a = identities(d);
    let b = identities(e);
    assert(a.len() == b.len());
    let n = d.users@.len();
    let m = d.groups@.len();
    assert forall|i: int| 0 <= i < a.len() implies a[i] == b[i] by {
        if i < n {
            assert(same_user(d.users@[i], e.users@[i]));
        } else if i < n + m {
            assert(same_group(d.groups@[i - n], e.groups@[i - n]));
        } else {
            assert(same_role(d.roles@[i - n - m], e.roles@[i - n - m]));
        }
    }
    assert(a =~= b);
    let ids = account_ids(d);
    lemma_same_users(d, e, ids, d.users@.len());
    lemma_same_groups(d, e, ids, d.groups@.len());
    lemma_same_roles(d, e, ids, d.roles@.len());
}

} // verus!

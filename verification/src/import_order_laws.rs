//! The order and the number of the edges that the import of an account makes.
use crate::import_aws::{
    account_edges, action_edges, actions_edges, docs, group_edges, groups_edges, identities, imported,
    lemma_resource_list, managed, member_edges, named, permission, permission_edges, resources, role_edges,
    roles_edges, statement_edges, statements_edges, trust_edges, trusted_edges, user_edges, users_edges,
    with_resources, with_sources, AttachedPolicy, AuthDetails, InlinePolicy, PolicyDocument, RoleDetail,
    Statement, UserDetail,
};
use crate::import_laws::{account_ids, listed_resources};
use crate::json::{ascending, Tree};
use crate::model::{known, members_of, EdgeView, NodeView};
use crate::text::{before, same_letters, texts};
use vstd::prelude::*;

verus! {

/// An Allow statement makes an edge for each pair of an action and a resource, or for each action on
/// `*` where it names no resource, and no other edge. They come action by action, and those of one
/// action resource by resource.
pub proof fn pairs_come_action_by_action(
    ids: Map<Seq<char>, Seq<char>>,
    from: Seq<char>,
    st: Statement,
    a: int,
    r: int,
)
    requires
        same_letters(st.effect@, "Allow"@),
        st.not_action@.len() == 0,
        st.not_resource@.len() == 0,
    ensures
        st.resource@.len() == 0 ==> statement_edges(ids, from, st).len() == st.action@.len(),
        st.resource@.len() > 0 ==> statement_edges(ids, from, st).len() == st.action@.len() * st.resource@.len(),
        st.resource@.len() == 0 && 0 <= a < st.action@.len() ==> statement_edges(ids, from, st)[a] == pair_edge(
            ids,
            from,
            st,
            st.action@[a]@,
            "*"@,
        ),
        0 <= a < st.action@.len() && 0 <= r < st.resource@.len() ==> statement_edges(ids, from, st)[a
            * st.resource@.len() + r] == pair_edge(ids, from, st, st.action@[a]@, st.resource@[r]@),
{
    let list = resources(st);
    lemma_pairs(ids, from, texts(st.action@), list, members_of(st.condition));
    if st.resource@.len() == 0 {
        assert(list.len() == 1);
        assert(st.action@.len() * 1 == st.action@.len()) by (nonlinear_arith);
        if 0 <= a < st.action@.len() {
            assert(a * 1 + 0 == a) by (nonlinear_arith);
            assert(pair_at(ids, from, texts(st.action@), list, members_of(st.condition), a, 0));
        }
    } else if 0 <= a < st.action@.len() && 0 <= r < st.resource@.len() {
        assert(pair_at(ids, from, texts(st.action@), list, members_of(st.condition), a, r));
    }
}

/// The edge of an action on a resource.
pub open spec fn pair_edge(
    ids: Map<Seq<char>, Seq<char>>,
    from: Seq<char>,
    st: Statement,
    action: Seq<char>,
    resource: Seq<char>,
) -> EdgeView {
    EdgeView {
        from,
        to: if ids.contains_key(resource) {
            ids[resource]
        } else {
            resource
        },
        kind: "has_permission"@,
        action: Some(action),
        resource: Some(resource),
        conditions: members_of(st.condition),
    }
}

spec fn pair_at(
    ids: Map<Seq<char>, Seq<char>>,
    from: Seq<char>,
    actions: Seq<Seq<char>>,
    list: Seq<Seq<char>>,
    condition: Option<Map<Seq<char>, Tree>>,
    a: int,
    r: int,
) -> bool {
    actions_edges(ids, from, actions, list, condition)[a * list.len() + r] == permission(
        ids,
        from,
        actions[a],
        list[r],
        condition,
    )
}

proof fn lemma_pairs(
    ids: Map<Seq<char>, Seq<char>>,
    from: Seq<char>,
    actions: Seq<Seq<char>>,
    list: Seq<Seq<char>>,
    condition: Option<Map<Seq<char>, Tree>>,
)
    ensures
        actions_edges(ids, from, actions, list, condition).len() == actions.len() * list.len(),
        forall|a: int, r: int|
            0 <= a < actions.len() && 0 <= r < list.len() ==> #[trigger] pair_at(
                ids,
                from,
                actions,
                list,
                condition,
                a,
                r,
            ),
    decreases actions.len(),
{
    let n = list.len();
    if actions.len() > 0 {
        let m = actions.len();
        let front = actions.drop_last();
        lemma_pairs(ids, from, front, list, condition);
        let before = actions_edges(ids, from, front, list, condition);
        let last = action_edges(ids, from, actions.last(), list, condition);
        assert((m - 1) * n + n == m * n) by (nonlinear_arith);
        assert forall|a: int, r: int| 0 <= a < m && 0 <= r < n implies #[trigger] pair_at(
            ids,
            from,
            actions,
            list,
            condition,
            a,
            r,
        ) by {
            let k = a * n + r;
            if a < m - 1 {
                assert(pair_at(ids, from, front, list, condition, a, r));
                assert(0 <= k < (m - 1) * n) by (nonlinear_arith)
                    requires
                        0 <= a < m - 1,
                        0 <= r < n,
                        k == a * n + r,
                ;
                assert((before + last)[k] == before[k]);
            } else {
                assert((before + last)[before.len() + r] == last[r]);
            }
        }
    } else {
        assert(0 * n == 0) by (nonlinear_arith);
    }
}

/// Statements make their edges one behind the other.
pub proof fn statements_come_one_by_one(
    ids: Map<Seq<char>, Seq<char>>,
    from: Seq<char>,
    sts: Seq<Statement>,
    st: Statement,
)
    ensures
        statements_edges(ids, from, Seq::empty()).len() == 0,
        statements_edges(ids, from, sts.push(st)) == statements_edges(ids, from, sts) + statement_edges(ids, from, st),
{
    assert(sts.push(st).drop_last() =~= sts);
}

/// Policies make their edges one behind the other.
pub proof fn policies_come_one_by_one(
    ids: Map<Seq<char>, Seq<char>>,
    from: Seq<char>,
    list: Seq<PolicyDocument>,
    doc: PolicyDocument,
)
    ensures
        permission_edges(ids, from, Seq::empty()).len() == 0,
        permission_edges(ids, from, list.push(doc)) == permission_edges(ids, from, list) + statements_edges(
            ids,
            from,
            doc.statements@,
        ),
{
    assert(list.push(doc).drop_last() =~= list);
}

/// One more attached policy adds its document, where it is known, behind those of the others; one more
/// policy of the identity itself adds its own behind all; and those attached come first.
pub proof fn attached_policies_come_first(
    m: Map<Seq<char>, PolicyDocument>,
    attached: Seq<AttachedPolicy>,
    inline: Seq<InlinePolicy>,
    p: AttachedPolicy,
    i: InlinePolicy,
)
    ensures
        docs(m, Seq::empty(), Seq::empty()).len() == 0,
        docs(m, attached, inline) == docs(m, attached, Seq::empty()) + docs(m, Seq::empty(), inline),
        docs(m, attached.push(p), Seq::empty()) == docs(m, attached, Seq::empty()) + if m.contains_key(p.arn@) {
            seq![m[p.arn@]]
        } else {
            Seq::empty()
        },
        docs(m, attached, inline.push(i)) == docs(m, attached, inline).push(i.document),
{
    let f = |x: InlinePolicy| x.document;
    let none = Seq::<InlinePolicy>::empty();
    assert(attached.push(p).drop_last() =~= attached);
    assert(none.map_values(f) =~= Seq::empty());
    assert(docs(m, attached, inline) =~= docs(m, attached, none) + docs(m, Seq::empty(), inline));
    assert(docs(m, attached.push(p), none) =~= docs(m, attached, none) + if m.contains_key(p.arn@) {
        seq![m[p.arn@]]
    } else {
        Seq::empty()
    });
    assert(inline.push(i).map_values(f) =~= inline.map_values(f).push(i.document));
    assert(docs(m, attached, inline.push(i)) =~= docs(m, attached, inline).push(i.document));
}

/// The ARN of an identity of the account: users first, then groups, then roles.
pub open spec fn arn_in_order(d: AuthDetails, i: int) -> Seq<char> {
    let n = d.users@.len() as int;
    let m = d.groups@.len() as int;
    if i < n {
        d.users@[i].arn@
    } else if i < n + m {
        d.groups@[i - n].arn@
    } else {
        d.roles@[i - n - m].arn@
    }
}

/// The edge is one of the identity at a place: it comes from it, or lets a principal assume it.
pub open spec fn edge_of(d: AuthDetails, ids: Map<Seq<char>, Seq<char>>, e: EdgeView, i: int) -> bool {
    ids[arn_in_order(d, i)] == if e.kind == "can_assume"@ {
        e.to
    } else {
        e.from
    }
}

/// The edges at two places are those of identities in that order, among the ones from `lo` to `hi`.
pub open spec fn in_order(
    d: AuthDetails,
    ids: Map<Seq<char>, Seq<char>>,
    e: EdgeView,
    f: EdgeView,
    lo: int,
    hi: int,
) -> bool {
    exists|i: int, j: int| lo <= i <= j < hi && #[trigger] edge_of(d, ids, e, i) && #[trigger] edge_of(d, ids, f, j)
}

spec fn sorted(d: AuthDetails, ids: Map<Seq<char>, Seq<char>>, s: Seq<EdgeView>, lo: int, hi: int) -> bool {
    &&& lo <= hi
    &&& forall|a: int, b: int| #![trigger s[a], s[b]] 0 <= a <= b < s.len() ==> in_order(d, ids, s[a], s[b], lo, hi)
}

proof fn lemma_sorted_join(
    d: AuthDetails,
    ids: Map<Seq<char>, Seq<char>>,
    s: Seq<EdgeView>,
    t: Seq<EdgeView>,
    lo: int,
    mid: int,
    hi: int,
)
    requires
        sorted(d, ids, s, lo, mid),
        sorted(d, ids, t, mid, hi),
    ensures
        sorted(d, ids, s + t, lo, hi),
{
    let all = s + t;
    assert forall|a: int, b: int| #![trigger all[a], all[b]] 0 <= a <= b < all.len() implies in_order(
        d,
        ids,
        all[a],
        all[b],
        lo,
        hi,
    ) by {
        let n = s.len() as int;
        if b < n {
            assert(all[a] == s[a] && all[b] == s[b]);
            assert(in_order(d, ids, s[a], s[b], lo, mid));
        } else if a >= n {
            assert(all[a] == t[a - n] && all[b] == t[b - n]);
            assert(in_order(d, ids, t[a - n], t[b - n], mid, hi));
        } else {
            assert(all[a] == s[a] && all[b] == t[b - n]);
            assert(in_order(d, ids, s[a], s[a], lo, mid));
            assert(in_order(d, ids, t[b - n], t[b - n], mid, hi));
            let (i, _) = choose|i: int, k: int|
                lo <= i <= k < mid && #[trigger] edge_of(d, ids, s[a], i) && #[trigger] edge_of(d, ids, s[a], k);
            let (j, _) = choose|j: int, k: int|
                mid <= j <= k < hi && #[trigger] edge_of(d, ids, t[b - n], j) && #[trigger] edge_of(d, ids, t[b - n], k);
            assert(edge_of(d, ids, s[a], i) && edge_of(d, ids, t[b - n], j));
        }
    }
}

proof fn lemma_sorted_one(d: AuthDetails, ids: Map<Seq<char>, Seq<char>>, s: Seq<EdgeView>, i: int)
    requires
        forall|a: int| 0 <= a < s.len() ==> edge_of(d, ids, #[trigger] s[a], i),
    ensures
        sorted(d, ids, s, i, i + 1),
{
    assert forall|a: int, b: int| #![trigger s[a], s[b]] 0 <= a <= b < s.len() implies in_order(
        d,
        ids,
        s[a],
        s[b],
        i,
        i + 1,
    ) by {
        assert(edge_of(d, ids, s[a], i) && edge_of(d, ids, s[b], i));
    }
}

/// The kinds of edges that an import makes differ.
proof fn lemma_edge_kinds()
    ensures
        "has_permission"@ != "can_assume"@,
        "member_of"@ != "can_assume"@,
        "member_of"@ != "has_permission"@,
{
    reveal_strlit("has_permission");
    reveal_strlit("can_assume");
    reveal_strlit("member_of");
    assert("has_permission"@[0] == 'h');
    assert("can_assume"@[0] == 'c');
    assert("member_of"@[0] == 'm');
}

proof fn lemma_actions_from(
    ids: Map<Seq<char>, Seq<char>>,
    from: Seq<char>,
    actions: Seq<Seq<char>>,
    list: Seq<Seq<char>>,
    condition: Option<Map<Seq<char>, Tree>>,
)
    ensures
        forall|k: int| #![trigger actions_edges(ids, from, actions, list, condition)[k]]
            0 <= k < actions_edges(ids, from, actions, list, condition).len() ==> {
                let e = actions_edges(ids, from, actions, list, condition)[k];
                e.from == from && e.kind == "has_permission"@
            },
    decreases actions.len(),
{
    if actions.len() > 0 {
        lemma_actions_from(ids, from, actions.drop_last(), list, condition);
    }
}

proof fn lemma_statements_from(ids: Map<Seq<char>, Seq<char>>, from: Seq<char>, sts: Seq<Statement>)
    ensures
        forall|k: int| #![trigger statements_edges(ids, from, sts)[k]]
            0 <= k < statements_edges(ids, from, sts).len() ==> {
                let e = statements_edges(ids, from, sts)[k];
                e.from == from && e.kind == "has_permission"@
            },
    decreases sts.len(),
{
    if sts.len() > 0 {
        let st = sts.last();
        lemma_statements_from(ids, from, sts.drop_last());
        lemma_actions_from(ids, from, texts(st.action@), resources(st), members_of(st.condition));
    }
}

proof fn lemma_permissions_from(ids: Map<Seq<char>, Seq<char>>, from: Seq<char>, list: Seq<PolicyDocument>)
    ensures
        forall|k: int| #![trigger permission_edges(ids, from, list)[k]]
            0 <= k < permission_edges(ids, from, list).len() ==> {
                let e = permission_edges(ids, from, list)[k];
                e.from == from && e.kind == "has_permission"@
            },
    decreases list.len(),
{
    if list.len() > 0 {
        lemma_permissions_from(ids, from, list.drop_last());
        lemma_statements_from(ids, from, list.last().statements@);
    }
}

proof fn lemma_members_from(d: AuthDetails, ids: Map<Seq<char>, Seq<char>>, from: Seq<char>, names: Seq<Seq<char>>)
    ensures
        forall|k: int| #![trigger member_edges(d, ids, from, names)[k]]
            0 <= k < member_edges(d, ids, from, names).len() ==> {
                let e = member_edges(d, ids, from, names)[k];
                e.from == from && e.kind == "member_of"@
            },
    decreases names.len(),
{
    if names.len() > 0 {
        lemma_members_from(d, ids, from, names.drop_last());
    }
}

proof fn lemma_trust_to(ids: Map<Seq<char>, Seq<char>>, role: Seq<char>, sts: Seq<Statement>)
    ensures
        forall|k: int| #![trigger trust_edges(ids, role, sts)[k]]
            0 <= k < trust_edges(ids, role, sts).len() ==> {
                let e = trust_edges(ids, role, sts)[k];
                e.to == role && e.kind == "can_assume"@
            },
    decreases sts.len(),
{
    if sts.len() > 0 {
        lemma_trust_to(ids, role, sts.drop_last());
    }
}

/// A user's memberships come before the permissions.
pub proof fn memberships_come_before_permissions(d: AuthDetails, ids: Map<Seq<char>, Seq<char>>, u: UserDetail, a: int, b: int)
    requires
        0 <= a < b < user_edges(d, ids, u).len(),
        user_edges(d, ids, u)[b].kind == "member_of"@,
    ensures
        user_edges(d, ids, u)[a].kind == "member_of"@,
{
    lemma_edge_kinds();
    let list = docs(managed(d.policies@), u.attached@, u.inline@);
    lemma_members_from(d, ids, ids[u.arn@], texts(u.groups@));
    lemma_permissions_from(ids, ids[u.arn@], list);
    let n = member_edges(d, ids, ids[u.arn@], texts(u.groups@)).len();
    if b >= n {
        assert(user_edges(d, ids, u)[b] == permission_edges(ids, ids[u.arn@], list)[b - n]);
    } else {
        assert(user_edges(d, ids, u)[a] == member_edges(d, ids, ids[u.arn@], texts(u.groups@))[a]);
    }
}

/// A role's permissions come before the edges of those that may assume it.
pub proof fn permissions_come_before_assumptions(d: AuthDetails, ids: Map<Seq<char>, Seq<char>>, r: RoleDetail, a: int, b: int)
    requires
        0 <= a < b < role_edges(d, ids, r).len(),
        role_edges(d, ids, r)[b].kind == "has_permission"@,
    ensures
        role_edges(d, ids, r)[a].kind == "has_permission"@,
{
    lemma_edge_kinds();
    let list = docs(managed(d.policies@), r.attached@, r.inline@);
    lemma_permissions_from(ids, ids[r.arn@], list);
    let n = permission_edges(ids, ids[r.arn@], list).len();
    if b >= n {
        if let Some(t) = r.trust {
            lemma_trust_to(ids, ids[r.arn@], t.statements@);
        }
        assert(role_edges(d, ids, r)[b] == trusted_edges(ids, ids[r.arn@], r.trust)[b - n]);
    } else {
        assert(role_edges(d, ids, r)[a] == permission_edges(ids, ids[r.arn@], list)[a]);
    }
}

proof fn lemma_users_sorted(d: AuthDetails, ids: Map<Seq<char>, Seq<char>>, n: nat)
    requires
        n <= d.users@.len(),
    ensures
        sorted(d, ids, users_edges(d, ids, n), 0, n as int),
    decreases n,
{
    if n > 0 {
        let i = n - 1;
        let u = d.users@[i];
        lemma_users_sorted(d, ids, i as nat);
        lemma_edge_kinds();
        lemma_members_from(d, ids, ids[u.arn@], texts(u.groups@));
        lemma_permissions_from(ids, ids[u.arn@], docs(managed(d.policies@), u.attached@, u.inline@));
        assert forall|k: int| 0 <= k < user_edges(d, ids, u).len() implies edge_of(
            d,
            ids,
            #[trigger] user_edges(d, ids, u)[k],
            i,
        ) by {}
        lemma_sorted_one(d, ids, user_edges(d, ids, u), i);
        lemma_sorted_join(d, ids, users_edges(d, ids, i as nat), user_edges(d, ids, u), 0, i, n as int);
    }
}

proof fn lemma_groups_sorted(d: AuthDetails, ids: Map<Seq<char>, Seq<char>>, n: nat)
    requires
        n <= d.groups@.len(),
    ensures
        sorted(d, ids, groups_edges(d, ids, n), d.users@.len() as int, (d.users@.len() + n) as int),
    decreases n,
{
    if n > 0 {
        let lo = d.users@.len() as int;
        let i = lo + n - 1;
        let g = d.groups@[n - 1];
        lemma_groups_sorted(d, ids, (n - 1) as nat);
        lemma_edge_kinds();
        lemma_permissions_from(ids, ids[g.arn@], docs(managed(d.policies@), g.attached@, g.inline@));
        assert forall|k: int| 0 <= k < group_edges(d, ids, g).len() implies edge_of(
            d,
            ids,
            #[trigger] group_edges(d, ids, g)[k],
            i,
        ) by {}
        lemma_sorted_one(d, ids, group_edges(d, ids, g), i);
        lemma_sorted_join(d, ids, groups_edges(d, ids, (n - 1) as nat), group_edges(d, ids, g), lo, i, lo + n);
    }
}

proof fn lemma_roles_sorted(d: AuthDetails, ids: Map<Seq<char>, Seq<char>>, n: nat)
    requires
        n <= d.roles@.len(),
    ensures
        sorted(
            d,
            ids,
            roles_edges(d, ids, n),
            (d.users@.len() + d.groups@.len()) as int,
            (d.users@.len() + d.groups@.len() + n) as int,
        ),
    decreases n,
{
    if n > 0 {
        let lo = (d.users@.len() + d.groups@.len()) as int;
        let i = lo + n - 1;
        let r = d.roles@[n - 1];
        lemma_roles_sorted(d, ids, (n - 1) as nat);
        lemma_edge_kinds();
        lemma_permissions_from(ids, ids[r.arn@], docs(managed(d.policies@), r.attached@, r.inline@));
        if let Some(t) = r.trust {
            lemma_trust_to(ids, ids[r.arn@], t.statements@);
        }
        assert forall|k: int| 0 <= k < role_edges(d, ids, r).len() implies edge_of(
            d,
            ids,
            #[trigger] role_edges(d, ids, r)[k],
            i,
        ) by {}
        lemma_sorted_one(d, ids, role_edges(d, ids, r), i);
        lemma_sorted_join(d, ids, roles_edges(d, ids, (n - 1) as nat), role_edges(d, ids, r), lo, i, lo + n);
    }
}

/// The edges of an import come identity by identity: first those of the users, then those of the
/// groups, then those of the roles, each in the order of the account.
pub proof fn edges_come_identity_by_identity(d: AuthDetails, a: int, b: int)
    requires
        0 <= a <= b < imported(d).edges.len(),
    ensures
        in_order(
            d,
            account_ids(d),
            imported(d).edges[a],
            imported(d).edges[b],
            0,
            (d.users@.len() + d.groups@.len() + d.roles@.len()) as int,
        ),
{
    let ids = account_ids(d);
    let n = d.users@.len() as int;
    let m = n + d.groups@.len();
    let k = m + d.roles@.len();
    lemma_users_sorted(d, ids, d.users@.len());
    lemma_groups_sorted(d, ids, d.groups@.len());
    lemma_roles_sorted(d, ids, d.roles@.len());
    let users = users_edges(d, ids, d.users@.len());
    let groups = groups_edges(d, ids, d.groups@.len());
    lemma_sorted_join(d, ids, users, groups, 0, n, m);
    lemma_sorted_join(d, ids, users + groups, roles_edges(d, ids, d.roles@.len()), 0, m, k);
    let all = account_edges(d, ids);
    assert(imported(d).edges == all) by {
        assert(named(identities(d)).1 == ids);
    }
    assert(in_order(d, ids, all[a], all[b], 0, k));
}

/// The edge at a place lets the principal assume a role.
pub open spec fn lets_in(edges: Seq<EdgeView>, x: int, principal: Seq<char>) -> bool {
    0 <= x < edges.len() && edges[x].kind == "can_assume"@ && edges[x].from == principal
}

/// Some edge lets the principal assume a role.
pub open spec fn is_let_in(edges: Seq<EdgeView>, principal: Seq<char>) -> bool {
    exists|x: int| lets_in(edges, x, principal)
}

/// Some edge lets the first principal assume a role, and none up to it the second.
pub open spec fn is_let_in_first(edges: Seq<EdgeView>, first: Seq<char>, second: Seq<char>) -> bool {
    exists|x: int| #[trigger] lets_in(edges, x, first) && forall|y: int| y <= x ==> !#[trigger] lets_in(edges, y, second)
}

/// The node has no attributes.
pub open spec fn is_plain(n: NodeView) -> bool {
    n.attrs == Map::<Seq<char>, Tree>::empty()
}

/// Behind the first `n` nodes, those up to `k` are principals that edges let assume a role, in the order
/// of the first such edge, and the rest are resources in ascending order. None of them has attributes.
pub open spec fn principals_and_then_resources(nodes: Seq<NodeView>, edges: Seq<EdgeView>, n: int, k: int) -> bool {
    &&& n <= k <= nodes.len()
    &&& forall|j: int| #![trigger nodes[j]] n <= j < k ==> is_let_in(edges, nodes[j].id)
    &&& forall|a: int, b: int|
        #![trigger nodes[a], nodes[b]]
        n <= a < b < k ==> is_let_in_first(edges, nodes[a].id, nodes[b].id)
    &&& forall|j: int| #![trigger nodes[j]] k <= j < nodes.len() ==> nodes[j].kind == "resource"@
    &&& forall|a: int, b: int|
        #![trigger nodes[a], nodes[b]]
        k <= a < b < nodes.len() ==> before(nodes[a].id, nodes[b].id)
    &&& forall|j: int| #![trigger nodes[j]] n <= j < nodes.len() ==> is_plain(nodes[j])
}

proof fn lemma_sources_in_order(nodes: Seq<NodeView>, edges: Seq<EdgeView>, list: Seq<Seq<char>>)
    ensures
        ({
            let r = with_sources(nodes, edges, list);
            &&& nodes.len() <= r.len()
            &&& r.take(nodes.len() as int) == nodes
            &&& forall|j: int| #![trigger r[j]]
                nodes.len() <= j < r.len() ==> is_plain(r[j]) && is_let_in(
                    edges,
                    r[j].id,
                )
            &&& forall|x: int| #![trigger edges[x]]
                0 <= x < edges.len() && edges[x].kind == "can_assume"@ ==> known(r, edges[x].from)
            &&& forall|a: int, b: int|
                #![trigger r[a], r[b]]
                nodes.len() <= a < b < r.len() ==> is_let_in_first(edges, r[a].id, r[b].id)
        }),
    decreases edges.len(),
{
    let n = nodes.len() as int;
    let r = with_sources(nodes, edges, list);
    if edges.len() == 0 {
        assert(r.take(n) =~= nodes);
    } else {
        let front = edges.drop_last();
        let last = edges.last();
        let m = edges.len() - 1;
        let s = with_sources(nodes, front, list);
        lemma_sources_in_order(nodes, front, list);
        assert forall|p: Seq<char>, x: int| #[trigger] lets_in(front, x, p) implies lets_in(edges, x, p) by {}
        assert forall|p: Seq<char>, x: int| x < m && #[trigger] lets_in(edges, x, p) implies lets_in(front, x, p) by {}
        assert forall|i: int| 0 <= i < s.len() implies s[i] == #[trigger] r[i] by {}
        assert(r.take(n) =~= nodes) by {
            assert(s.take(n) =~= r.take(n));
        }
        assert forall|x: int| #![trigger edges[x]] 0 <= x < edges.len() && edges[x].kind == "can_assume"@ implies known(
            r,
            edges[x].from,
        ) by {
            if x < m {
                assert(front[x] == edges[x]);
                assert(known(s, edges[x].from));
                let i = choose|i: int| 0 <= i < s.len() && #[trigger] s[i].id == edges[x].from;
                assert(r[i].id == edges[x].from);
            } else if known(s, last.from) {
            } else {
                assert(r[r.len() - 1].id == last.from);
            }
        }
        assert forall|j: int| #![trigger r[j]] n <= j < r.len() implies is_plain(r[j])
            && is_let_in(edges, r[j].id) by {
            if j < s.len() {
                assert(s[j] == r[j]);
                assert(is_let_in(front, s[j].id));
                let x = choose|x: int| lets_in(front, x, s[j].id);
                assert(lets_in(edges, x, r[j].id));
            } else {
                assert(lets_in(edges, m, r[j].id));
            }
        }
        assert forall|a: int, b: int| #![trigger r[a], r[b]] n <= a < b < r.len() implies is_let_in_first(
            edges,
            r[a].id,
            r[b].id,
        ) by {
            assert(s[a] == r[a]);
            if b < s.len() {
                assert(s[b] == r[b]);
                let x = choose|x: int| #[trigger]
                    lets_in(front, x, s[a].id) && forall|y: int| y <= x ==> !#[trigger] lets_in(front, y, s[b].id);
                assert(lets_in(edges, x, r[a].id));
                assert forall|y: int| y <= x implies !#[trigger] lets_in(edges, y, r[b].id) by {
                    assert(!lets_in(front, y, s[b].id));
                }
            } else {
                assert(is_let_in(front, s[a].id));
                let x = choose|x: int| lets_in(front, x, s[a].id);
                assert(lets_in(edges, x, r[a].id));
                assert(!known(s, last.from));
                assert forall|y: int| y <= x implies !#[trigger] lets_in(edges, y, r[b].id) by {
                    if lets_in(edges, y, r[b].id) {
                        assert(front[y] == edges[y]);
                    }
                }
            }
        }
    }
}

proof fn lemma_resources_in_order(nodes: Seq<NodeView>, list: Seq<Seq<char>>)
    requires
        ascending(list),
    ensures
        ({
            let r = with_resources(nodes, list);
            &&& nodes.len() <= r.len()
            &&& r.take(nodes.len() as int) == nodes
            &&& forall|j: int| #![trigger r[j]]
                nodes.len() <= j < r.len() ==> is_plain(r[j]) && r[j].kind == "resource"@
                    && list.contains(r[j].id)
            &&& forall|a: int, b: int|
                #![trigger r[a], r[b]]
                nodes.len() <= a < b < r.len() ==> before(r[a].id, r[b].id)
        }),
    decreases list.len(),
{
    let n = nodes.len() as int;
    let r = with_resources(nodes, list);
    if list.len() == 0 {
        assert(r.take(n) =~= nodes);
    } else {
        let front = list.drop_last();
        let s = with_resources(nodes, front);
        assert(ascending(front)) by {
            assert forall|i: int, j: int| 0 <= i < j < front.len() implies before(#[trigger] front[i], #[trigger] front[j]) by {
                assert(front[i] == list[i] && front[j] == list[j]);
            }
        }
        lemma_resources_in_order(nodes, front);
        assert(r.take(n) =~= nodes) by {
            assert(s.take(n) =~= r.take(n));
        }
        assert forall|k: Seq<char>| #[trigger] front.contains(k) implies list.contains(k) && before(k, list.last()) by {
            let i = choose|i: int| 0 <= i < front.len() && front[i] == k;
            assert(list[i] == k);
            assert(before(list[i], list[list.len() - 1]));
        }
        assert(list.contains(list.last()));
        assert forall|a: int, b: int| #![trigger r[a], r[b]] n <= a < b < r.len() implies before(r[a].id, r[b].id) by {
            assert(s[a] == r[a]);
            if b < s.len() {
                assert(s[b] == r[b]);
            } else {
                assert(front.contains(s[a].id));
            }
        }
    }
}

/// Behind the nodes of the identities come those of the other principals that may assume a role, in the
/// order of the edges, and then those of the resources that have none yet, in ascending order.
pub proof fn other_nodes_come_in_order(d: AuthDetails)
    ensures
        exists|k: int| #[trigger]
            principals_and_then_resources(
                imported(d).nodes,
                imported(d).edges,
                named(identities(d)).0.len() as int,
                k,
            ),
{
    let (nodes, ids) = named(identities(d));
    let edges = account_edges(d, ids);
    let list = listed_resources(edges, ids);
    lemma_resource_list(list, edges, ids);
    let s = with_sources(nodes, edges, list);
    let r = with_resources(s, list);
    lemma_sources_in_order(nodes, edges, list);
    lemma_resources_in_order(s, list);
    let n = nodes.len() as int;
    let k = s.len() as int;
    assert forall|j: int| 0 <= j < k implies s[j] == #[trigger] r[j] by {
        assert(r.take(k)[j] == r[j]);
    }
    assert(principals_and_then_resources(r, edges, n, k)) by {
        assert forall|a: int, b: int| #![trigger r[a], r[b]] n <= a < b < k implies is_let_in_first(
            edges,
            r[a].id,
            r[b].id,
        ) by {
            assert(s[a] == r[a] && s[b] == r[b]);
        }
        assert forall|j: int| #![trigger r[j]] n <= j < k implies is_let_in(edges, r[j].id) by {
            assert(s[j] == r[j]);
        }
        assert forall|j: int| #![trigger r[j]] n <= j < r.len() implies is_plain(r[j]) by {
            if j < k {
                assert(s[j] == r[j]);
            }
        }
    }
    assert(imported(d).nodes == r && imported(d).edges == edges);
}

} // verus!

//! What the import of an account makes of its policies, stated over the fields of the account.
use crate::import_aws::{
    arns, as_list, attached_docs, docs, first_default, first_group, group_id, identities, imported, in_force,
    is_default, is_group, managed, named, permission, resources, texts_among, AttachedPolicy, AuthDetails,
    InlinePolicy, ManagedPolicy, OneOrMany, PolicyDocument, Statement,
};
use crate::import_laws::{
    account_ids, allowed_by, assumptions_are_the_trusted_ones, granted_by, group_granted, identities_have_nodes,
    lemma_named_from, membership, memberships_are_the_listed_ones, nodes_have_their_kinds,
    permissions_are_the_allowed_ones, role_granted, role_trusted, stands_for_identity, trusts_principal,
    user_granted, user_joined,
};
use crate::json::{tree_of, Tree};
use crate::model::{known, members_of, EdgeView};
use crate::text::{same_letters, texts};
use vstd::prelude::*;

verus! {

/// The version at `v` is the one that counts: the first whose id is the default one, or the first of
/// all where none has that id.
pub open spec fn counting_version(p: ManagedPolicy, v: int) -> bool {
    &&& 0 <= v < p.versions@.len()
    &&& {
        ||| p.versions@[v].version_id@ == p.default_version@ && forall|w: int|
            0 <= w < v ==> (#[trigger] p.versions@[w]).version_id@ != p.default_version@
        ||| v == 0 && forall|w: int|
            0 <= w < p.versions@.len() ==> (#[trigger] p.versions@[w]).version_id@ != p.default_version@
    }
}

/// The document is that of the managed policy with the ARN: the last with that ARN that has a version.
pub open spec fn managed_document(policies: Seq<ManagedPolicy>, arn: Seq<char>, j: int, v: int, doc: PolicyDocument) -> bool {
    &&& 0 <= j < policies.len()
    &&& policies[j].arn@ == arn
    &&& counting_version(policies[j], v)
    &&& policies[j].versions@[v].document == doc
    &&& forall|k: int|
        j < k < policies.len() && (#[trigger] policies[k]).arn@ == arn ==> policies[k].versions@.len() == 0
}

/// The document applies to an identity: it is one of its own, or that of a managed policy which is
/// attached to it.
pub open spec fn applies(d: AuthDetails, attached: Seq<AttachedPolicy>, inline: Seq<InlinePolicy>, doc: PolicyDocument) -> bool {
    ||| exists|k: int| 0 <= k < inline.len() && (#[trigger] inline[k]).document == doc
    ||| exists|k: int, j: int, v: int|
        0 <= k < attached.len() && #[trigger] managed_document(
            d.policies@,
            (#[trigger] attached[k]).arn@,
            j,
            v,
            doc,
        )
}

/// The statement allows the action on the resource. One that names no resource allows it on `*`.
pub open spec fn lets(st: Statement, action: Seq<char>, resource: Seq<char>) -> bool {
    &&& same_letters(st.effect@, "Allow"@)
    &&& st.not_action@.len() == 0
    &&& st.not_resource@.len() == 0
    &&& exists|a: int| 0 <= a < st.action@.len() && (#[trigger] st.action@[a])@ == action
    &&& if st.resource@.len() == 0 {
        resource == "*"@
    } else {
        exists|r: int| 0 <= r < st.resource@.len() && (#[trigger] st.resource@[r])@ == resource
    }
}

/// The node that a name stands for: that of the identity with this ARN, or the name itself.
pub open spec fn node_for(d: AuthDetails, arn: Seq<char>) -> Seq<char> {
    if account_ids(d).contains_key(arn) {
        account_ids(d)[arn]
    } else {
        arn
    }
}

/// The edge of a permission that a statement gives to the identity with an ARN.
pub open spec fn grant_edge(d: AuthDetails, arn: Seq<char>, st: Statement, action: Seq<char>, resource: Seq<char>) -> EdgeView {
    EdgeView {
        from: account_ids(d)[arn],
        to: node_for(d, resource),
        kind: "has_permission"@,
        action: Some(action),
        resource: Some(resource),
        conditions: members_of(st.condition),
    }
}

proof fn lemma_counting(p: ManagedPolicy)
    ensures
        in_force(p) is Some <==> p.versions@.len() > 0,
        in_force(p) is Some ==> counting_version(p, in_force(p)->0),
        forall|v: int| #[trigger] counting_version(p, v) ==> in_force(p) == Some(v),
{
    if exists|i: int| first_default(p, i) {
        let i = choose|i: int| first_default(p, i);
        assert(first_default(p, i));
        assert forall|w: int| 0 <= w < i implies (#[trigger] p.versions@[w]).version_id@ != p.default_version@ by {
            assert(!is_default(p, w));
        }
        assert(is_default(p, i));
        assert forall|v: int| #[trigger] counting_version(p, v) implies v == i by {
            assert(p.versions@[i].version_id@ == p.default_version@);
            if v < i {
                assert(!is_default(p, v));
            }
        }
    } else {
        assert forall|w: int| 0 <= w < p.versions@.len() implies (#[trigger] p.versions@[w]).version_id@
            != p.default_version@ by {
            if is_default(p, w) {
                lemma_some_first(p, w);
            }
        }
    }
}

proof fn lemma_some_first(p: ManagedPolicy, w: int)
    requires
        is_default(p, w),
    ensures
        exists|i: int| first_default(p, i),
    decreases w,
{
    if forall|j: int| 0 <= j < w ==> !is_default(p, j) {
        assert(first_default(p, w));
    } else {
        let j = choose|j: int| 0 <= j < w && is_default(p, j);
        lemma_some_first(p, j);
    }
}

proof fn lemma_managed(policies: Seq<ManagedPolicy>, arn: Seq<char>)
    ensures
        managed(policies).contains_key(arn) <==> exists|j: int, v: int, doc: PolicyDocument| #[trigger]
            managed_document(policies, arn, j, v, doc),
        forall|j: int, v: int, doc: PolicyDocument| #[trigger]
            managed_document(policies, arn, j, v, doc) ==> managed(policies)[arn] == doc,
    decreases policies.len(),
{
    if policies.len() > 0 {
        let front = policies.drop_last();
        let p = policies.last();
        let n = policies.len() - 1;
        lemma_managed(front, arn);
        lemma_counting(p);
        let all = managed(policies);
        if p.arn@ == arn && in_force(p) is Some {
            let v = in_force(p)->0;
            assert(managed_document(policies, arn, n, v, p.versions@[v].document));
            assert forall|j: int, w: int, doc: PolicyDocument| #[trigger]
                managed_document(policies, arn, j, w, doc) implies all[arn] == doc by {
                if j < n {
                    assert(policies[n].arn@ == arn);
                }
            }
        } else {
            assert(all.contains_key(arn) == managed(front).contains_key(arn));
            assert(all.contains_key(arn) ==> all[arn] == managed(front)[arn]);
            assert forall|j: int, w: int, doc: PolicyDocument| #[trigger] managed_document(
                policies,
                arn,
                j,
                w,
                doc,
            ) implies managed_document(front, arn, j, w, doc) by {
                assert(j < n);
                assert(front[j] == policies[j]);
                assert forall|k: int| j < k < front.len() && (#[trigger] front[k]).arn@ == arn implies front[k].versions@.len()
                    == 0 by {
                    assert(policies[k] == front[k]);
                }
            }
            assert forall|j: int, w: int, doc: PolicyDocument| #[trigger] managed_document(
                front,
                arn,
                j,
                w,
                doc,
            ) implies managed_document(policies, arn, j, w, doc) by {
                assert(front[j] == policies[j]);
                assert forall|k: int| j < k < policies.len() && (#[trigger] policies[k]).arn@ == arn implies policies[k].versions@.len()
                    == 0 by {
                    if k < n {
                        assert(policies[k] == front[k]);
                    }
                }
            }
            if managed(front).contains_key(arn) {
                let (j, w, doc) = choose|j: int, w: int, doc: PolicyDocument| #[trigger]
                    managed_document(front, arn, j, w, doc);
                assert(managed_document(policies, arn, j, w, doc));
            }
        }
    }
}

proof fn lemma_attached(d: AuthDetails, attached: Seq<AttachedPolicy>, doc: PolicyDocument)
    ensures
        attached_docs(managed(d.policies@), attached).contains(doc) <==> exists|k: int, j: int, v: int|
            0 <= k < attached.len() && #[trigger] managed_document(
                d.policies@,
                (#[trigger] attached[k]).arn@,
                j,
                v,
                doc,
            ),
    decreases attached.len(),
{
    if attached.len() > 0 {
        let m = managed(d.policies@);
        let front = attached.drop_last();
        let arn = attached.last().arn@;
        let rest = attached_docs(m, front);
        let all = attached_docs(m, attached);
        lemma_attached(d, front, doc);
        lemma_managed(d.policies@, arn);
        assert(attached[attached.len() - 1].arn@ == arn);
        if rest.contains(doc) {
            let i = choose|i: int| 0 <= i < rest.len() && rest[i] == doc;
            assert(all[i] == doc);
            let (k, j, v) = choose|k: int, j: int, v: int|
                0 <= k < front.len() && #[trigger] managed_document(
                    d.policies@,
                    (#[trigger] front[k]).arn@,
                    j,
                    v,
                    doc,
                );
            assert(attached[k] == front[k]);
            assert(managed_document(d.policies@, attached[k].arn@, j, v, doc));
        } else if all.contains(doc) {
            let i = choose|i: int| 0 <= i < all.len() && all[i] == doc;
            assert(i == rest.len()) by {
                if i < rest.len() {
                    assert(rest[i] == doc);
                }
            }
            let (j, v, other) = choose|j: int, v: int, other: PolicyDocument| #[trigger]
                managed_document(d.policies@, arn, j, v, other);
            assert(other == doc);
            assert(managed_document(d.policies@, attached[attached.len() - 1].arn@, j, v, doc));
        }
        if exists|k: int, j: int, v: int|
            0 <= k < attached.len() && #[trigger] managed_document(
                d.policies@,
                (#[trigger] attached[k]).arn@,
                j,
                v,
                doc,
            ) {
            let (k, j, v) = choose|k: int, j: int, v: int|
                0 <= k < attached.len() && #[trigger] managed_document(
                    d.policies@,
                    (#[trigger] attached[k]).arn@,
                    j,
                    v,
                    doc,
                );
            if k < front.len() {
                assert(front[k] == attached[k]);
                assert(managed_document(d.policies@, front[k].arn@, j, v, doc));
                let i = choose|i: int| 0 <= i < rest.len() && rest[i] == doc;
                assert(all[i] == doc);
            } else {
                assert(m.contains_key(arn));
                assert(all[all.len() - 1] == doc);
            }
        }
    }
}

proof fn lemma_applies(d: AuthDetails, attached: Seq<AttachedPolicy>, inline: Seq<InlinePolicy>, doc: PolicyDocument)
    ensures
        docs(managed(d.policies@), attached, inline).contains(doc) <==> applies(d, attached, inline, doc),
{
    let a = attached_docs(managed(d.policies@), attached);
    let b = inline.map_values(|i: InlinePolicy| i.document);
    let all = docs(managed(d.policies@), attached, inline);
    lemma_attached(d, attached, doc);
    if all.contains(doc) {
        let i = choose|i: int| 0 <= i < all.len() && all[i] == doc;
        if i < a.len() {
            assert(a[i] == doc);
            assert(a.contains(doc));
        } else {
            assert(b[i - a.len()] == doc);
            assert(inline[i - a.len()].document == doc);
        }
    }
    if a.contains(doc) {
        let i = choose|i: int| 0 <= i < a.len() && a[i] == doc;
        assert(all[i] == doc);
    }
    if exists|k: int| 0 <= k < inline.len() && (#[trigger] inline[k]).document == doc {
        let k = choose|k: int| 0 <= k < inline.len() && (#[trigger] inline[k]).document == doc;
        assert(b[k] == doc);
        assert(all[a.len() + k] == doc);
    }
}

proof fn lemma_lets(d: AuthDetails, arn: Seq<char>, st: Statement, e: EdgeView)
    ensures
        allowed_by(account_ids(d), account_ids(d)[arn], st, e) <==> exists|action: Seq<char>, resource: Seq<char>| #[trigger]
            lets(st, action, resource) && e == grant_edge(d, arn, st, action, resource),
{
    let ids = account_ids(d);
    let from = ids[arn];
    if allowed_by(ids, from, st, e) {
        let (a, r) = choose|a: int, r: int|
            {
                &&& 0 <= a < st.action@.len()
                &&& 0 <= r < resources(st).len()
                &&& e == permission(
                    ids,
                    from,
                    #[trigger] texts(st.action@)[a],
                    #[trigger] resources(st)[r],
                    members_of(st.condition),
                )
            };
        let action = texts(st.action@)[a];
        let resource = resources(st)[r];
        assert(st.action@[a]@ == action);
        if st.resource@.len() > 0 {
            assert(st.resource@[r]@ == resource);
        }
        assert(lets(st, action, resource) && e == grant_edge(d, arn, st, action, resource));
    }
    if exists|action: Seq<char>, resource: Seq<char>| #[trigger]
        lets(st, action, resource) && e == grant_edge(d, arn, st, action, resource) {
        let (action, resource) = choose|action: Seq<char>, resource: Seq<char>| #[trigger]
            lets(st, action, resource) && e == grant_edge(d, arn, st, action, resource);
        let a = choose|a: int| 0 <= a < st.action@.len() && (#[trigger] st.action@[a])@ == action;
        assert(texts(st.action@)[a] == action);
        if st.resource@.len() == 0 {
            assert(resources(st)[0] == resource);
        } else {
            let r = choose|r: int| 0 <= r < st.resource@.len() && (#[trigger] st.resource@[r])@ == resource;
            assert(resources(st)[r] == resource);
        }
    }
}

/// The policies of the identity with an ARN allow what the edge says: some document that applies to
/// it has a statement that allows the action on the resource.
pub open spec fn policies_allow(
    d: AuthDetails,
    arn: Seq<char>,
    attached: Seq<AttachedPolicy>,
    inline: Seq<InlinePolicy>,
    e: EdgeView,
) -> bool {
    exists|doc: PolicyDocument, s: int, action: Seq<char>, resource: Seq<char>|
        {
            &&& #[trigger] applies(d, attached, inline, doc)
            &&& 0 <= s < doc.statements@.len()
            &&& #[trigger] lets(doc.statements@[s], action, resource)
            &&& e == grant_edge(d, arn, doc.statements@[s], action, resource)
        }
}

proof fn lemma_policies_allow(
    d: AuthDetails,
    arn: Seq<char>,
    attached: Seq<AttachedPolicy>,
    inline: Seq<InlinePolicy>,
    e: EdgeView,
)
    ensures
        granted_by(account_ids(d), account_ids(d)[arn], docs(managed(d.policies@), attached, inline), e)
            <==> policies_allow(d, arn, attached, inline, e),
{
    let ids = account_ids(d);
    let from = ids[arn];
    let list = docs(managed(d.policies@), attached, inline);
    if granted_by(ids, from, list, e) {
        let (k, s) = choose|k: int, s: int|
            #![trigger list[k].statements@[s]]
            0 <= k < list.len() && 0 <= s < list[k].statements@.len() && allowed_by(ids, from, list[k].statements@[s], e);
        let doc = list[k];
        assert(list.contains(doc));
        lemma_applies(d, attached, inline, doc);
        lemma_lets(d, arn, doc.statements@[s], e);
        let (action, resource) = choose|action: Seq<char>, resource: Seq<char>| #[trigger]
            lets(doc.statements@[s], action, resource) && e == grant_edge(d, arn, doc.statements@[s], action, resource);
        assert(applies(d, attached, inline, doc) && lets(doc.statements@[s], action, resource));
    }
    if policies_allow(d, arn, attached, inline, e) {
        let (doc, s, action, resource) = choose|doc: PolicyDocument, s: int, action: Seq<char>, resource: Seq<char>|
            {
                &&& #[trigger] applies(d, attached, inline, doc)
                &&& 0 <= s < doc.statements@.len()
                &&& #[trigger] lets(doc.statements@[s], action, resource)
                &&& e == grant_edge(d, arn, doc.statements@[s], action, resource)
            };
        lemma_applies(d, attached, inline, doc);
        lemma_lets(d, arn, doc.statements@[s], e);
        let k = choose|k: int| 0 <= k < list.len() && list[k] == doc;
        assert(allowed_by(ids, from, list[k].statements@[s], e));
    }
}

/// The permissions of an import are exactly what the policies of its users, groups and roles allow:
/// every action on every resource of every Allow statement of every document that applies, with the
/// condition of the statement.
pub proof fn permissions_are_what_policies_allow(d: AuthDetails, e: EdgeView)
    requires
        e.kind == "has_permission"@,
    ensures
        imported(d).edges.contains(e) <==> {
            ||| exists|i: int|
                0 <= i < d.users@.len() && policies_allow(
                    d,
                    (#[trigger] d.users@[i]).arn@,
                    d.users@[i].attached@,
                    d.users@[i].inline@,
                    e,
                )
            ||| exists|i: int|
                0 <= i < d.groups@.len() && policies_allow(
                    d,
                    (#[trigger] d.groups@[i]).arn@,
                    d.groups@[i].attached@,
                    d.groups@[i].inline@,
                    e,
                )
            ||| exists|i: int|
                0 <= i < d.roles@.len() && policies_allow(
                    d,
                    (#[trigger] d.roles@[i]).arn@,
                    d.roles@[i].attached@,
                    d.roles@[i].inline@,
                    e,
                )
        },
{
    permissions_are_the_allowed_ones(d, e);
    assert forall|i: int| #[trigger] user_granted(d, i, e) <==> 0 <= i < d.users@.len() && policies_allow(
        d,
        d.users@[i].arn@,
        d.users@[i].attached@,
        d.users@[i].inline@,
        e,
    ) by {
        lemma_policies_allow(d, d.users@[i].arn@, d.users@[i].attached@, d.users@[i].inline@, e);
    }
    assert forall|i: int| #[trigger] group_granted(d, i, e) <==> 0 <= i < d.groups@.len() && policies_allow(
        d,
        d.groups@[i].arn@,
        d.groups@[i].attached@,
        d.groups@[i].inline@,
        e,
    ) by {
        lemma_policies_allow(d, d.groups@[i].arn@, d.groups@[i].attached@, d.groups@[i].inline@, e);
    }
    assert forall|i: int| #[trigger] role_granted(d, i, e) <==> 0 <= i < d.roles@.len() && policies_allow(
        d,
        d.roles@[i].arn@,
        d.roles@[i].attached@,
        d.roles@[i].inline@,
        e,
    ) by {
        lemma_policies_allow(d, d.roles@[i].arn@, d.roles@[i].attached@, d.roles@[i].inline@, e);
    }
    assert forall|i: int| 0 <= i < d.users@.len() && policies_allow(
        d,
        (#[trigger] d.users@[i]).arn@,
        d.users@[i].attached@,
        d.users@[i].inline@,
        e,
    ) implies user_granted(d, i, e) by {}
    assert forall|i: int| 0 <= i < d.groups@.len() && policies_allow(
        d,
        (#[trigger] d.groups@[i]).arn@,
        d.groups@[i].attached@,
        d.groups@[i].inline@,
        e,
    ) implies group_granted(d, i, e) by {}
    assert forall|i: int| 0 <= i < d.roles@.len() && policies_allow(
        d,
        (#[trigger] d.roles@[i]).arn@,
        d.roles@[i].attached@,
        d.roles@[i].inline@,
        e,
    ) implies role_granted(d, i, e) by {}
    if exists|i: int| #[trigger] user_granted(d, i, e) {
        let i = choose|i: int| #[trigger] user_granted(d, i, e);
        assert(policies_allow(d, d.users@[i].arn@, d.users@[i].attached@, d.users@[i].inline@, e));
    }
    if exists|i: int| #[trigger] group_granted(d, i, e) {
        let i = choose|i: int| #[trigger] group_granted(d, i, e);
        assert(policies_allow(d, d.groups@[i].arn@, d.groups@[i].attached@, d.groups@[i].inline@, e));
    }
    if exists|i: int| #[trigger] role_granted(d, i, e) {
        let i = choose|i: int| #[trigger] role_granted(d, i, e);
        assert(policies_allow(d, d.roles@[i].arn@, d.roles@[i].attached@, d.roles@[i].inline@, e));
    }
}

/// Every policy that is attached to a user counts, whatever else is attached: where the account has
/// the policy, each action on each resource of each Allow statement of its version that counts is an
/// edge from the user.
pub proof fn every_attached_policy_of_a_user_counts(
    d: AuthDetails,
    i: int,
    k: int,
    j: int,
    v: int,
    s: int,
    action: Seq<char>,
    resource: Seq<char>,
)
    requires
        0 <= i < d.users@.len(),
        0 <= k < d.users@[i].attached@.len(),
        managed_document(d.policies@, d.users@[i].attached@[k].arn@, j, v, d.policies@[j].versions@[v].document),
        0 <= s < d.policies@[j].versions@[v].document.statements@.len(),
        lets(d.policies@[j].versions@[v].document.statements@[s], action, resource),
    ensures
        imported(d).edges.contains(
            grant_edge(
                d,
                d.users@[i].arn@,
                d.policies@[j].versions@[v].document.statements@[s],
                action,
                resource,
            ),
        ),
{
    let u = d.users@[i];
    let doc = d.policies@[j].versions@[v].document;
    let e = grant_edge(d, u.arn@, doc.statements@[s], action, resource);
    assert(managed_document(d.policies@, u.attached@[k].arn@, j, v, doc));
    assert(applies(d, u.attached@, u.inline@, doc));
    assert(policies_allow(d, u.arn@, u.attached@, u.inline@, e));
    permissions_are_what_policies_allow(d, e);
}

/// Every policy that is attached to a group counts, whatever else is attached.
pub proof fn every_attached_policy_of_a_group_counts(
    d: AuthDetails,
    i: int,
    k: int,
    j: int,
    v: int,
    s: int,
    action: Seq<char>,
    resource: Seq<char>,
)
    requires
        0 <= i < d.groups@.len(),
        0 <= k < d.groups@[i].attached@.len(),
        managed_document(d.policies@, d.groups@[i].attached@[k].arn@, j, v, d.policies@[j].versions@[v].document),
        0 <= s < d.policies@[j].versions@[v].document.statements@.len(),
        lets(d.policies@[j].versions@[v].document.statements@[s], action, resource),
    ensures
        imported(d).edges.contains(
            grant_edge(
                d,
                d.groups@[i].arn@,
                d.policies@[j].versions@[v].document.statements@[s],
                action,
                resource,
            ),
        ),
{
    let u = d.groups@[i];
    let doc = d.policies@[j].versions@[v].document;
    let e = grant_edge(d, u.arn@, doc.statements@[s], action, resource);
    assert(managed_document(d.policies@, u.attached@[k].arn@, j, v, doc));
    assert(applies(d, u.attached@, u.inline@, doc));
    assert(policies_allow(d, u.arn@, u.attached@, u.inline@, e));
    permissions_are_what_policies_allow(d, e);
}

/// Every policy that is attached to a role counts, whatever else is attached.
pub proof fn every_attached_policy_of_a_role_counts(
    d: AuthDetails,
    i: int,
    k: int,
    j: int,
    v: int,
    s: int,
    action: Seq<char>,
    resource: Seq<char>,
)
    requires
        0 <= i < d.roles@.len(),
        0 <= k < d.roles@[i].attached@.len(),
        managed_document(d.policies@, d.roles@[i].attached@[k].arn@, j, v, d.policies@[j].versions@[v].document),
        0 <= s < d.policies@[j].versions@[v].document.statements@.len(),
        lets(d.policies@[j].versions@[v].document.statements@[s], action, resource),
    ensures
        imported(d).edges.contains(
            grant_edge(
                d,
                d.roles@[i].arn@,
                d.policies@[j].versions@[v].document.statements@[s],
                action,
                resource,
            ),
        ),
{
    let u = d.roles@[i];
    let doc = d.policies@[j].versions@[v].document;
    let e = grant_edge(d, u.arn@, doc.statements@[s], action, resource);
    assert(managed_document(d.policies@, u.attached@[k].arn@, j, v, doc));
    assert(applies(d, u.attached@, u.inline@, doc));
    assert(policies_allow(d, u.arn@, u.attached@, u.inline@, e));
    permissions_are_what_policies_allow(d, e);
}

/// The `Principal` block names the principal under `AWS`, alone or in a list.
pub open spec fn names_principal(principal: Option<Tree>, arn: Seq<char>) -> bool {
    &&& principal is Some
    &&& principal->0 is Object
    &&& principal->0->Object_0.contains_key("AWS"@)
    &&& ({
        let aws = principal->0->Object_0["AWS"@];
        ||| aws == Tree::Text(arn)
        ||| aws is Array && exists|i: int| 0 <= i < aws->Array_0.len() && #[trigger] aws->Array_0[i] == Tree::Text(arn)
    })
}

proof fn lemma_texts_among(items: Seq<Tree>, arn: Seq<char>)
    ensures
        texts_among(items).contains(arn) <==> exists|i: int| 0 <= i < items.len() && #[trigger] items[i] == Tree::Text(arn),
    decreases items.len(),
{
    if items.len() > 0 {
        let front = items.drop_last();
        let rest = texts_among(front);
        let all = texts_among(items);
        lemma_texts_among(front, arn);
        if rest.contains(arn) {
            let i = choose|i: int| 0 <= i < rest.len() && rest[i] == arn;
            assert(all[i] == arn);
            let k = choose|k: int| 0 <= k < front.len() && #[trigger] front[k] == Tree::Text(arn);
            assert(items[k] == Tree::Text(arn));
        } else if all.contains(arn) {
            let i = choose|i: int| 0 <= i < all.len() && all[i] == arn;
            if i < rest.len() {
                assert(rest[i] == arn);
            }
            assert(items[items.len() - 1] == Tree::Text(arn));
        }
        if exists|i: int| 0 <= i < items.len() && #[trigger] items[i] == Tree::Text(arn) {
            let i = choose|i: int| 0 <= i < items.len() && #[trigger] items[i] == Tree::Text(arn);
            if i < front.len() {
                assert(front[i] == Tree::Text(arn));
            } else {
                assert(all[all.len() - 1] == arn);
            }
        }
    }
}

/// The principals that a `Principal` block is read as are those that it names.
pub proof fn principals_are_those_the_block_names(principal: Option<Tree>, arn: Seq<char>)
    ensures
        arns(principal).contains(arn) <==> names_principal(principal, arn),
{
    if principal is Some && principal->0 is Object && principal->0->Object_0.contains_key("AWS"@) {
        let aws = principal->0->Object_0["AWS"@];
        if aws is Array {
            lemma_texts_among(aws->Array_0, arn);
        }
        if aws is Text {
            assert(seq![aws->Text_0][0] == aws->Text_0);
        }
    }
}

/// The statement of a trust policy lets principals assume the role.
pub open spec fn lets_assume(st: Statement) -> bool {
    &&& same_letters(st.effect@, "Allow"@)
    &&& exists|a: int| 0 <= a < st.action@.len() && same_letters((#[trigger] st.action@[a])@, "sts:AssumeRole"@)
}

/// The `can_assume` edges of an import are exactly those from each principal that an Allow statement
/// on assuming the role names to the role, with the condition of the statement.
pub proof fn assumptions_are_what_trust_policies_say(d: AuthDetails, e: EdgeView)
    requires
        e.kind == "can_assume"@,
    ensures
        imported(d).edges.contains(e) <==> exists|i: int, s: int, arn: Seq<char>| #[trigger] trust_says(d, i, s, arn, e),
{
    assumptions_are_the_trusted_ones(d, e);
    let ids = account_ids(d);
    if exists|i: int| #[trigger] role_trusted(d, i, e) {
        let i = choose|i: int| #[trigger] role_trusted(d, i, e);
        let r = d.roles@[i];
        let (s, p) = choose|s: int, p: int| #[trigger] trusts_principal(ids, ids[r.arn@], r.trust, e, s, p);
        assert(trusts_principal(ids, ids[r.arn@], r.trust, e, s, p));
        let st = r.trust->0.statements@[s];
        let list = arns(tree_of(st.principal));
        let arn = list[p];
        assert(list.contains(arn));
        principals_are_those_the_block_names(tree_of(st.principal), arn);
        let a = choose|a: int|
            0 <= a < st.action@.len() && same_letters(#[trigger] texts(st.action@)[a], "sts:AssumeRole"@);
        assert(same_letters(st.action@[a]@, "sts:AssumeRole"@));
        assert(trust_says(d, i, s, arn, e));
    }
    if exists|i: int, s: int, arn: Seq<char>| #[trigger] trust_says(d, i, s, arn, e) {
        let (i, s, arn) = choose|i: int, s: int, arn: Seq<char>| #[trigger] trust_says(d, i, s, arn, e);
        let r = d.roles@[i];
        let st = r.trust->0.statements@[s];
        let list = arns(tree_of(st.principal));
        principals_are_those_the_block_names(tree_of(st.principal), arn);
        let p = choose|p: int| 0 <= p < list.len() && list[p] == arn;
        let a = choose|a: int| 0 <= a < st.action@.len() && same_letters((#[trigger] st.action@[a])@, "sts:AssumeRole"@);
        assert(same_letters(texts(st.action@)[a], "sts:AssumeRole"@));
        assert(trusts_principal(ids, ids[r.arn@], r.trust, e, s, p));
        assert(role_trusted(d, i, e));
    }
}

/// The statement at `s` of the trust policy of the role at `i` names the principal, and the edge is
/// that from the principal to the role.
pub open spec fn trust_says(d: AuthDetails, i: int, s: int, arn: Seq<char>, e: EdgeView) -> bool {
    &&& 0 <= i < d.roles@.len()
    &&& d.roles@[i].trust is Some
    &&& 0 <= s < d.roles@[i].trust->0.statements@.len()
    &&& lets_assume(d.roles@[i].trust->0.statements@[s])
    &&& names_principal(tree_of(d.roles@[i].trust->0.statements@[s].principal), arn)
    &&& e == EdgeView {
        from: node_for(d, arn),
        to: account_ids(d)[d.roles@[i].arn@],
        kind: "can_assume"@,
        action: Some("sts:AssumeRole"@),
        resource: None,
        conditions: members_of(d.roles@[i].trust->0.statements@[s].condition),
    }
}

/// The user at `i` lists the name of the group at `j`, which is the first of that name, and the edge
/// is that from the user to the group.
pub open spec fn listing_says(d: AuthDetails, i: int, j: int, e: EdgeView) -> bool {
    &&& 0 <= i < d.users@.len()
    &&& 0 <= j < d.groups@.len()
    &&& exists|k: int| 0 <= k < d.users@[i].groups@.len() && (#[trigger] d.users@[i].groups@[k])@ == d.groups@[j].name@
    &&& forall|m: int| 0 <= m < j ==> (#[trigger] d.groups@[m]).name@ != d.groups@[j].name@
    &&& e == EdgeView {
        from: account_ids(d)[d.users@[i].arn@],
        to: account_ids(d)[d.groups@[j].arn@],
        kind: "member_of"@,
        action: None,
        resource: None,
        conditions: None,
    }
}

/// The `member_of` edges of an import are exactly those from each user to each group of the account
/// whose name the user lists.
pub proof fn memberships_are_what_users_list(d: AuthDetails, e: EdgeView)
    requires
        e.kind == "member_of"@,
    ensures
        imported(d).edges.contains(e) <==> exists|i: int, j: int| #[trigger] listing_says(d, i, j, e),
{
    memberships_are_the_listed_ones(d, e);
    let ids = account_ids(d);
    if exists|i: int| #[trigger] user_joined(d, i, e) {
        let i = choose|i: int| #[trigger] user_joined(d, i, e);
        let u = d.users@[i];
        let names = texts(u.groups@);
        let k = choose|k: int|
            0 <= k < names.len() && group_id(d, ids, #[trigger] names[k]) == Some(e.to) && e == membership(
                ids[u.arn@],
                e.to,
            );
        let name = names[k];
        let j = choose|j: int| first_group(d, name, j);
        assert(first_group(d, name, j));
        assert(u.groups@[k]@ == d.groups@[j].name@);
        assert forall|m: int| 0 <= m < j implies (#[trigger] d.groups@[m]).name@ != d.groups@[j].name@ by {
            assert(!is_group(d, name, m));
        }
        assert(listing_says(d, i, j, e));
    }
    if exists|i: int, j: int| #[trigger] listing_says(d, i, j, e) {
        let (i, j) = choose|i: int, j: int| #[trigger] listing_says(d, i, j, e);
        let u = d.users@[i];
        let name = d.groups@[j].name@;
        let k = choose|k: int| 0 <= k < u.groups@.len() && (#[trigger] u.groups@[k])@ == name;
        assert(first_group(d, name, j)) by {
            assert forall|m: int| 0 <= m < j implies !is_group(d, name, m) by {
                assert(d.groups@[m].name@ != name);
            }
        }
        let c = choose|c: int| first_group(d, name, c);
        assert(first_group(d, name, c));
        assert(is_group(d, name, c) && is_group(d, name, j));
        assert(c == j);
        assert(texts(u.groups@)[k] == name);
        assert(group_id(d, ids, texts(u.groups@)[k]) == Some(e.to));
        assert(user_joined(d, i, e));
    }
}

/// An ARN stands for the node of an identity exactly if some user, group or role has it.
pub proof fn identities_are_users_groups_and_roles(d: AuthDetails, arn: Seq<char>)
    ensures
        account_ids(d).contains_key(arn) <==> {
            ||| exists|i: int| 0 <= i < d.users@.len() && (#[trigger] d.users@[i]).arn@ == arn
            ||| exists|i: int| 0 <= i < d.groups@.len() && (#[trigger] d.groups@[i]).arn@ == arn
            ||| exists|i: int| 0 <= i < d.roles@.len() && (#[trigger] d.roles@[i]).arn@ == arn
        },
{
    let all = identities(d);
    let n = d.users@.len() as int;
    let m = d.groups@.len() as int;
    lemma_named_keys(all, arn);
    if account_ids(d).contains_key(arn) {
        let i = choose|i: int| 0 <= i < all.len() && (#[trigger] all[i]).2 == arn;
        if i < n {
            assert(d.users@[i].arn@ == arn);
        } else if i < n + m {
            assert(d.groups@[i - n].arn@ == arn);
        } else {
            assert(d.roles@[i - n - m].arn@ == arn);
        }
    }
    if exists|i: int| 0 <= i < d.users@.len() && (#[trigger] d.users@[i]).arn@ == arn {
        let i = choose|i: int| 0 <= i < d.users@.len() && (#[trigger] d.users@[i]).arn@ == arn;
        assert(all[i].2 == arn);
    }
    if exists|i: int| 0 <= i < d.groups@.len() && (#[trigger] d.groups@[i]).arn@ == arn {
        let i = choose|i: int| 0 <= i < d.groups@.len() && (#[trigger] d.groups@[i]).arn@ == arn;
        assert(all[n + i].2 == arn);
    }
    if exists|i: int| 0 <= i < d.roles@.len() && (#[trigger] d.roles@[i]).arn@ == arn {
        let i = choose|i: int| 0 <= i < d.roles@.len() && (#[trigger] d.roles@[i]).arn@ == arn;
        assert(all[n + m + i].2 == arn);
    }
}

proof fn lemma_named_keys(list: Seq<(Seq<char>, Seq<char>, Seq<char>)>, arn: Seq<char>)
    ensures
        named(list).1.contains_key(arn) <==> exists|i: int| 0 <= i < list.len() && (#[trigger] list[i]).2 == arn,
    decreases list.len(),
{
    if list.len() > 0 {
        let front = list.drop_last();
        lemma_named_keys(front, arn);
        if named(front).1.contains_key(arn) {
            let i = choose|i: int| 0 <= i < front.len() && (#[trigger] front[i]).2 == arn;
            assert(list[i].2 == arn);
        }
        if list.last().2 == arn {
            assert(list[list.len() - 1].2 == arn);
        }
        if exists|i: int| 0 <= i < list.len() && (#[trigger] list[i]).2 == arn {
            let i = choose|i: int| 0 <= i < list.len() && (#[trigger] list[i]).2 == arn;
            if i < front.len() {
                assert(front[i].2 == arn);
            }
        }
    }
}

/// The identities of an account are its users, its groups and its roles, in this order, each with its
/// name, its kind and its ARN.
pub proof fn identities_come_in_order(d: AuthDetails)
    ensures
        identities(d).len() == d.users@.len() + d.groups@.len() + d.roles@.len(),
        forall|i: int| #![trigger d.users@[i]]
            0 <= i < d.users@.len() ==> identities(d)[i] == (d.users@[i].name@, "user"@, d.users@[i].arn@),
        forall|i: int| #![trigger d.groups@[i]]
            0 <= i < d.groups@.len() ==> identities(d)[d.users@.len() + i] == (
                d.groups@[i].name@,
                "group"@,
                d.groups@[i].arn@,
            ),
        forall|i: int| #![trigger d.roles@[i]]
            0 <= i < d.roles@.len() ==> identities(d)[d.users@.len() + d.groups@.len() + i] == (
                d.roles@[i].name@,
                "role"@,
                d.roles@[i].arn@,
            ),
{
}

/// No other of the identities has the name or the ARN of the one at `i`, nor its name for an ARN.
pub open spec fn apart(list: Seq<(Seq<char>, Seq<char>, Seq<char>)>, i: int) -> bool {
    forall|j: int| #![trigger list[j]]
        0 <= j < list.len() && j != i ==> list[j].0 != list[i].0 && list[j].2 != list[i].0 && list[j].2 != list[i].2
}

proof fn lemma_called(list: Seq<(Seq<char>, Seq<char>, Seq<char>)>, i: int)
    requires
        0 <= i < list.len(),
        apart(list, i),
    ensures
        named(list).1[list[i].2] == list[i].0,
        exists|j: int|
            0 <= j < named(list).0.len() && (#[trigger] named(list).0[j]).id == list[i].0 && named(list).0[j].kind
                == list[i].1,
    decreases list.len(),
{
    let front = list.drop_last();
    let nodes = named(front).0;
    let all = named(list).0;
    let (name, kind, arn) = list.last();
    if i == list.len() - 1 {
        assert(!known(nodes, name)) by {
            if known(nodes, name) {
                let j = choose|j: int| 0 <= j < nodes.len() && #[trigger] nodes[j].id == name;
                lemma_named_from(front, j);
                let k = choose|k: int| stands_for_identity(front, k, nodes[j]);
                assert(list[k] == front[k]);
            }
        }
        assert(all[nodes.len() as int].id == name);
    } else {
        assert forall|j: int| #![trigger front[j]] 0 <= j < front.len() && j != i implies front[j].0 != front[i].0
            && front[j].2 != front[i].0 && front[j].2 != front[i].2 by {
            assert(list[j] == front[j]);
            assert(list[i] == front[i]);
        }
        lemma_called(front, i);
        assert(list[list.len() - 1].2 != list[i].2);
        let j = choose|j: int|
            0 <= j < nodes.len() && (#[trigger] nodes[j]).id == front[i].0 && nodes[j].kind == front[i].1;
        assert(all[j] == nodes[j]);
    }
}

/// An identity that shares its name and its ARN with no other is called by its name: that is the id
/// which its ARN stands for, and a node of its kind has it.
pub proof fn identities_are_called_by_their_names(d: AuthDetails, i: int)
    requires
        0 <= i < identities(d).len(),
        apart(identities(d), i),
    ensures
        account_ids(d)[identities(d)[i].2] == identities(d)[i].0,
        exists|j: int|
            0 <= j < imported(d).nodes.len() && (#[trigger] imported(d).nodes[j]).id == identities(d)[i].0 && imported(
                d,
            ).nodes[j].kind == identities(d)[i].1,
{
    let all = identities(d);
    lemma_called(all, i);
    let own = named(all).0;
    let j = choose|j: int| 0 <= j < own.len() && (#[trigger] own[j]).id == all[i].0 && own[j].kind == all[i].1;
    identities_have_nodes(d, i);
    let k = choose|k: int| 0 <= k < imported(d).nodes.len() && #[trigger] imported(d).nodes[k].id == account_ids(
        d,
    )[all[i].2];
    nodes_have_their_kinds(d, k);
    nodes_have_their_kinds(d, j);
    assert(imported(d).nodes[j] == own[j]);
}

proof fn lemma_names_known(list: Seq<(Seq<char>, Seq<char>, Seq<char>)>, i: int)
    requires
        0 <= i < list.len(),
    ensures
        known(named(list).0, list[i].0),
    decreases list.len(),
{
    let front = list.drop_last();
    let nodes = named(front).0;
    let all = named(list).0;
    if i == list.len() - 1 {
        if known(nodes, list[i].0) {
            let j = choose|j: int| 0 <= j < nodes.len() && #[trigger] nodes[j].id == list[i].0;
            assert(all[j].id == list[i].0);
        } else {
            assert(all[nodes.len() as int].id == list[i].0);
        }
    } else {
        lemma_names_known(front, i);
        assert(front[i] == list[i]);
        let j = choose|j: int| 0 <= j < nodes.len() && #[trigger] nodes[j].id == list[i].0;
        assert(all[j].id == list[i].0);
    }
}

proof fn lemma_called_by_arn(list: Seq<(Seq<char>, Seq<char>, Seq<char>)>, i: int, j: int)
    requires
        0 <= j < i < list.len(),
        list[j].0 == list[i].0,
        forall|k: int| i < k < list.len() ==> (#[trigger] list[k]).2 != list[i].2,
    ensures
        named(list).1[list[i].2] == list[i].2,
    decreases list.len(),
{
    let front = list.drop_last();
    if i == list.len() - 1 {
        lemma_names_known(front, j);
        assert(front[j] == list[j]);
    } else {
        assert forall|k: int| i < k < front.len() implies (#[trigger] front[k]).2 != front[i].2 by {
            assert(list[k] == front[k]);
        }
        lemma_called_by_arn(front, i, j);
        assert(list[list.len() - 1].2 != list[i].2);
    }
}

/// An identity whose name an earlier one has is called by its ARN.
pub proof fn later_namesakes_are_called_by_their_arns(d: AuthDetails, i: int, j: int)
    requires
        0 <= j < i < identities(d).len(),
        identities(d)[j].0 == identities(d)[i].0,
        forall|k: int| i < k < identities(d).len() ==> (#[trigger] identities(d)[k]).2 != identities(d)[i].2,
    ensures
        account_ids(d)[identities(d)[i].2] == identities(d)[i].2,
{
    lemma_called_by_arn(identities(d), i, j);
}

/// No identity has the text for its name or for its ARN.
pub open spec fn no_identity(d: AuthDetails, k: Seq<char>) -> bool {
    forall|i: int| #![trigger identities(d)[i]]
        0 <= i < identities(d).len() ==> identities(d)[i].0 != k && identities(d)[i].2 != k
}

proof fn lemma_no_identity(d: AuthDetails, k: Seq<char>)
    requires
        no_identity(d, k),
    ensures
        !known(named(identities(d)).0, k),
        !account_ids(d).contains_key(k),
{
    let all = identities(d);
    let own = named(all).0;
    if known(own, k) {
        let j = choose|j: int| 0 <= j < own.len() && #[trigger] own[j].id == k;
        lemma_named_from(all, j);
        let i = choose|i: int| stands_for_identity(all, i, own[j]);
        assert(all[i].0 == k || all[i].2 == k);
    }
    lemma_named_keys(all, k);
    if account_ids(d).contains_key(k) {
        let i = choose|i: int| 0 <= i < all.len() && (#[trigger] all[i]).2 == k;
        assert(all[i].2 == k);
    }
}

/// The node of what a permission is granted on is of kind `resource`, and that of a principal outside
/// the account, which nothing is granted on, is of kind `external`, where no identity has the name.
pub proof fn other_nodes_are_resources_or_external(d: AuthDetails, e: int, j: int)
    requires
        0 <= e < imported(d).edges.len(),
        0 <= j < imported(d).nodes.len(),
        no_identity(d, imported(d).nodes[j].id),
    ensures
        imported(d).edges[e].resource == Some(imported(d).nodes[j].id) ==> imported(d).nodes[j].kind == "resource"@,
        (forall|i: int|
            0 <= i < imported(d).edges.len() ==> (#[trigger] imported(d).edges[i]).resource != Some(
                imported(d).nodes[j].id,
            )) ==> imported(d).nodes[j].kind == "external"@,
{
    let k = imported(d).nodes[j].id;
    lemma_no_identity(d, k);
    nodes_have_their_kinds(d, j);
    if j < named(identities(d)).0.len() {
        assert(named(identities(d)).0[j].id == k);
    }
}

/// One value counts as a list of one, a list as it is, and no value as an empty list.
pub proof fn one_counts_as_a_list_of_one<T>(x: T, list: Vec<T>)
    ensures
        as_list(None::<OneOrMany<T>>) == Seq::<T>::empty(),
        as_list(Some(OneOrMany::One(x))) == seq![x],
        as_list(Some(OneOrMany::Many(list))) == list@,
{
}

} // verus!

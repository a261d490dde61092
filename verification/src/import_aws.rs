//! Import of an AWS account into a graph document.
//!
//! The input is what `aws iam get-account-authorization-details` reports. What comes of it:
//! - a node per user, group and role (kinds `user`, `group`, `role`)
//! - a node of kind `resource` per resource that a permission names and that is no identity of the
//!   account
//! - a node of kind `external` per other principal outside the account that a role trusts
//! - `member_of` edges from users to groups
//! - `can_assume` edges from the principals that a role trusts to the role
//! - `has_permission` edges for every Allow statement, one per action and resource, with the
//!   action, the resource and the condition block
//!
//! `Deny` statements are not evaluated, and statements with `NotAction` or `NotResource` are
//! skipped, so the paths in the graph are potential ones.
use crate::json::{as_items, as_text, ascending, lemma_ascending_unique, member, no_members, tree, tree_of, trees, Tree};
use crate::model::{
    edge_views, known, members_of, node_views, text_of, DocView, Edge, EdgeView, GraphDoc, Node, NodeView,
};
use crate::text::{
    before, before_is_strict_order, comes_before, holds_text, same, same_ignoring_case, same_letters, texts,
};
use vstd::hash_map::StringHashMap;
use vstd::prelude::*;

verus! {

/// The identities and policies of an account.
pub struct AuthDetails {
    pub users: Vec<UserDetail>,
    pub groups: Vec<GroupDetail>,
    pub roles: Vec<RoleDetail>,
    pub policies: Vec<ManagedPolicy>,
}

pub struct UserDetail {
    pub name: String,
    pub arn: String,
    pub groups: Vec<String>,
    pub attached: Vec<AttachedPolicy>,
    pub inline: Vec<InlinePolicy>,
}

pub struct GroupDetail {
    pub name: String,
    pub arn: String,
    pub attached: Vec<AttachedPolicy>,
    pub inline: Vec<InlinePolicy>,
}

pub struct RoleDetail {
    pub name: String,
    pub arn: String,
    pub trust: Option<PolicyDocument>,
    pub attached: Vec<AttachedPolicy>,
    pub inline: Vec<InlinePolicy>,
}

pub struct AttachedPolicy {
    pub arn: String,
}

pub struct InlinePolicy {
    pub document: PolicyDocument,
}

pub struct ManagedPolicy {
    pub arn: String,
    pub default_version: String,
    pub versions: Vec<PolicyVersion>,
}

pub struct PolicyVersion {
    pub document: PolicyDocument,
    pub version_id: String,
}

pub struct PolicyDocument {
    pub statements: Vec<Statement>,
}

pub struct Statement {
    pub effect: String,
    pub action: Vec<String>,
    pub not_action: Vec<String>,
    pub resource: Vec<String>,
    pub not_resource: Vec<String>,
    pub condition: Option<serde_json::Map<String, serde_json::Value>>,
    pub principal: Option<serde_json::Value>,
}

/// What a statement is.
pub ghost struct StatementView {
    pub effect: Seq<char>,
    pub action: Seq<Seq<char>>,
    pub not_action: Seq<Seq<char>>,
    pub resource: Seq<Seq<char>>,
    pub not_resource: Seq<Seq<char>>,
    pub condition: Option<Map<Seq<char>, Tree>>,
    pub principal: Option<Tree>,
}

impl View for Statement {
    type V = StatementView;

    open spec fn view(&self) -> StatementView {
        StatementView {
            effect: self.effect@,
            action: texts(self.action@),
            not_action: texts(self.not_action@),
            resource: texts(self.resource@),
            not_resource: texts(self.not_resource@),
            condition: members_of(self.condition),
            principal: tree_of(self.principal),
        }
    }
}

/// What each of a sequence of statements is.
pub open spec fn statement_views(sts: Seq<Statement>) -> Seq<StatementView> {
    sts.map_values(|st: Statement| st@)
}

/// One text or several, as policy documents write actions and resources.
pub enum OneOrMany<T> {
    One(T),
    Many(Vec<T>),
}

/// The list that one or many things are; nothing is an empty list.
pub open spec fn as_list<T>(v: Option<OneOrMany<T>>) -> Seq<T> {
    match v {
        Some(OneOrMany::One(x)) => seq![x],
        Some(OneOrMany::Many(list)) => list@,
        None => Seq::empty(),
    }
}

/// The list of the texts of a field that holds one text or several.
pub fn string_or_vec(v: Option<OneOrMany<String>>) -> (r: Vec<String>)
    ensures
        r@ == as_list(v),
{
    match v {
        Some(OneOrMany::One(s)) => vec![s],
        Some(OneOrMany::Many(list)) => list,
        None => vec![],
    }
}

/// The list of the statements of a document that holds one statement or several.
pub fn one_or_many_stmt(v: Option<OneOrMany<Statement>>) -> (r: Vec<Statement>)
    ensures
        r@ == as_list(v),
{
    match v {
        Some(OneOrMany::One(s)) => vec![s],
        Some(OneOrMany::Many(list)) => list,
        None => vec![],
    }
}

// ---- What an import is ----

/// The node id of each identity, by its ARN.
pub type Ids = Map<Seq<char>, Seq<char>>;

/// The nodes with one more, unless its id is taken.
pub open spec fn grown(nodes: Seq<NodeView>, id: Seq<char>, kind: Seq<char>) -> Seq<NodeView> {
    if known(nodes, id) {
        nodes
    } else {
        nodes.push(NodeView { id, kind, attrs: Map::empty() })
    }
}

/// The name, the kind and the ARN of each identity: the users, the groups, the roles.
pub open spec fn identities(d: AuthDetails) -> Seq<(Seq<char>, Seq<char>, Seq<char>)> {
    d.users@.map_values(|u: UserDetail| (u.name@, "user"@, u.arn@)) + d.groups@.map_values(
        |g: GroupDetail| (g.name@, "group"@, g.arn@),
    ) + d.roles@.map_values(|r: RoleDetail| (r.name@, "role"@, r.arn@))
}

/// The nodes of identities and the id of each. An identity is called by its name, or by its ARN
/// where the name is taken.
pub open spec fn named(list: Seq<(Seq<char>, Seq<char>, Seq<char>)>) -> (Seq<NodeView>, Ids)
    decreases list.len(),
{
    if list.len() == 0 {
        (Seq::empty(), Map::empty())
    } else {
        let (nodes, ids) = named(list.drop_last());
        let (name, kind, arn) = list.last();
        let id = if known(nodes, name) {
            arn
        } else {
            name
        };
        (grown(nodes, id, kind), ids.insert(arn, id))
    }
}

/// The version of a managed policy that is in force: the default one, or else the first.
pub open spec fn in_force(p: ManagedPolicy) -> Option<int> {
    if exists|i: int| first_default(p, i) {
        Some(choose|i: int| first_default(p, i))
    } else if p.versions@.len() > 0 {
        Some(0)
    } else {
        None
    }
}

/// The version at a place is the default one.
pub open spec fn is_default(p: ManagedPolicy, i: int) -> bool {
    0 <= i < p.versions@.len() && p.versions@[i].version_id@ == p.default_version@
}

/// The version at a place is the first default one.
pub open spec fn first_default(p: ManagedPolicy, i: int) -> bool {
    is_default(p, i) && forall|j: int| 0 <= j < i ==> !is_default(p, j)
}

/// The document in force of each managed policy, by ARN. A later policy of the same ARN counts.
pub open spec fn managed(policies: Seq<ManagedPolicy>) -> Map<Seq<char>, PolicyDocument>
    decreases policies.len(),
{
    if policies.len() == 0 {
        Map::empty()
    } else {
        let rest = managed(policies.drop_last());
        let p = policies.last();
        match in_force(p) {
            Some(i) => rest.insert(p.arn@, p.versions@[i].document),
            None => rest,
        }
    }
}

/// The documents of those attached policies that are known.
pub open spec fn attached_docs(m: Map<Seq<char>, PolicyDocument>, attached: Seq<AttachedPolicy>) -> Seq<PolicyDocument>
    decreases attached.len(),
{
    if attached.len() == 0 {
        Seq::empty()
    } else {
        let rest = attached_docs(m, attached.drop_last());
        if m.contains_key(attached.last().arn@) {
            rest.push(m[attached.last().arn@])
        } else {
            rest
        }
    }
}

/// The documents that apply to an identity: those attached, then its own.
pub open spec fn docs(
    m: Map<Seq<char>, PolicyDocument>,
    attached: Seq<AttachedPolicy>,
    inline: Seq<InlinePolicy>,
) -> Seq<PolicyDocument> {
    attached_docs(m, attached) + inline.map_values(|i: InlinePolicy| i.document)
}

/// The statement grants something: it allows, and it says what it applies to.
pub open spec fn allows(st: Statement) -> bool {
    same_letters(st.effect@, "Allow"@) && st.not_action@.len() == 0 && st.not_resource@.len() == 0
}

/// The resources of a statement; one that names none applies to all.
pub open spec fn resources(st: Statement) -> Seq<Seq<char>> {
    if st.resource@.len() == 0 {
        seq!["*"@]
    } else {
        texts(st.resource@)
    }
}

/// The node id that an ARN stands for: that of the identity it belongs to, or the ARN.
pub open spec fn resolved(ids: Ids, arn: Seq<char>) -> Seq<char> {
    if ids.contains_key(arn) {
        ids[arn]
    } else {
        arn
    }
}

/// The edge of one action on one resource.
pub open spec fn permission(
    ids: Ids,
    from: Seq<char>,
    action: Seq<char>,
    resource: Seq<char>,
    condition: Option<Map<Seq<char>, Tree>>,
) -> EdgeView {
    EdgeView {
        from,
        to: resolved(ids, resource),
        kind: "has_permission"@,
        action: Some(action),
        resource: Some(resource),
        conditions: condition,
    }
}

/// The edges of one action on each of the resources.
pub open spec fn action_edges(
    ids: Ids,
    from: Seq<char>,
    action: Seq<char>,
    list: Seq<Seq<char>>,
    condition: Option<Map<Seq<char>, Tree>>,
) -> Seq<EdgeView> {
    list.map_values(|r: Seq<char>| permission(ids, from, action, r, condition))
}

/// The edges of each of the actions on each of the resources.
pub open spec fn actions_edges(
    ids: Ids,
    from: Seq<char>,
    actions: Seq<Seq<char>>,
    list: Seq<Seq<char>>,
    condition: Option<Map<Seq<char>, Tree>>,
) -> Seq<EdgeView>
    decreases actions.len(),
{
    if actions.len() == 0 {
        Seq::empty()
    } else {
        actions_edges(ids, from, actions.drop_last(), list, condition) + action_edges(
            ids,
            from,
            actions.last(),
            list,
            condition,
        )
    }
}

/// The edges of a statement.
pub open spec fn statement_edges(ids: Ids, from: Seq<char>, st: Statement) -> Seq<EdgeView> {
    if allows(st) {
        actions_edges(ids, from, texts(st.action@), resources(st), members_of(st.condition))
    } else {
        Seq::empty()
    }
}

/// The edges of statements.
pub open spec fn statements_edges(ids: Ids, from: Seq<char>, sts: Seq<Statement>) -> Seq<EdgeView>
    decreases sts.len(),
{
    if sts.len() == 0 {
        Seq::empty()
    } else {
        statements_edges(ids, from, sts.drop_last()) + statement_edges(ids, from, sts.last())
    }
}

/// The edges of policy documents.
pub open spec fn permission_edges(ids: Ids, from: Seq<char>, list: Seq<PolicyDocument>) -> Seq<EdgeView>
    decreases list.len(),
{
    if list.len() == 0 {
        Seq::empty()
    } else {
        permission_edges(ids, from, list.drop_last()) + statements_edges(ids, from, list.last().statements@)
    }
}

/// The id of the first group with a name, where there is one.
pub open spec fn group_id(d: AuthDetails, ids: Ids, name: Seq<char>) -> Option<Seq<char>> {
    if exists|i: int| first_group(d, name, i) {
        let i = choose|i: int| first_group(d, name, i);
        Some(ids[d.groups@[i].arn@])
    } else {
        None
    }
}

/// The group at a place has the name.
pub open spec fn is_group(d: AuthDetails, name: Seq<char>, i: int) -> bool {
    0 <= i < d.groups@.len() && d.groups@[i].name@ == name
}

/// The group at a place is the first with the name.
pub open spec fn first_group(d: AuthDetails, name: Seq<char>, i: int) -> bool {
    is_group(d, name, i) && forall|j: int| 0 <= j < i ==> !is_group(d, name, j)
}

/// The edges from a user to the groups of the given names that exist.
pub open spec fn member_edges(d: AuthDetails, ids: Ids, from: Seq<char>, names: Seq<Seq<char>>) -> Seq<EdgeView>
    decreases names.len(),
{
    if names.len() == 0 {
        Seq::empty()
    } else {
        let rest = member_edges(d, ids, from, names.drop_last());
        match group_id(d, ids, names.last()) {
            Some(to) => rest.push(
                EdgeView { from, to, kind: "member_of"@, action: None, resource: None, conditions: None },
            ),
            None => rest,
        }
    }
}

/// The texts among JSON values.
pub open spec fn texts_among(items: Seq<Tree>) -> Seq<Seq<char>>
    decreases items.len(),
{
    if items.len() == 0 {
        Seq::empty()
    } else {
        let rest = texts_among(items.drop_last());
        match items.last() {
            Tree::Text(s) => rest.push(s),
            _ => rest,
        }
    }
}

/// The `AWS` principals of a statement: one text, or the texts of a list.
pub open spec fn arns(principal: Option<Tree>) -> Seq<Seq<char>> {
    match principal {
        Some(Tree::Object(m)) => if m.contains_key("AWS"@) {
            match m["AWS"@] {
                Tree::Text(s) => seq![s],
                Tree::Array(items) => texts_among(items),
                _ => Seq::empty(),
            }
        } else {
            Seq::empty()
        },
        _ => Seq::empty(),
    }
}

/// The statement lets principals assume a role.
pub open spec fn trusts(st: Statement) -> bool {
    same_letters(st.effect@, "Allow"@) && exists|i: int|
        0 <= i < st.action@.len() && same_letters(#[trigger] texts(st.action@)[i], "sts:AssumeRole"@)
}

/// The edge from a trusted principal to a role.
pub open spec fn assumption(
    ids: Ids,
    arn: Seq<char>,
    role: Seq<char>,
    condition: Option<Map<Seq<char>, Tree>>,
) -> EdgeView {
    EdgeView {
        from: resolved(ids, arn),
        to: role,
        kind: "can_assume"@,
        action: Some("sts:AssumeRole"@),
        resource: None,
        conditions: condition,
    }
}

/// The edges of one statement of a trust policy.
pub open spec fn assumption_edges(ids: Ids, role: Seq<char>, st: Statement) -> Seq<EdgeView> {
    if trusts(st) {
        arns(tree_of(st.principal)).map_values(
            |arn: Seq<char>| assumption(ids, arn, role, members_of(st.condition)),
        )
    } else {
        Seq::empty()
    }
}

/// The edges of the statements of a trust policy.
pub open spec fn trust_edges(ids: Ids, role: Seq<char>, sts: Seq<Statement>) -> Seq<EdgeView>
    decreases sts.len(),
{
    if sts.len() == 0 {
        Seq::empty()
    } else {
        trust_edges(ids, role, sts.drop_last()) + assumption_edges(ids, role, sts.last())
    }
}

/// The edges out of a user.
pub open spec fn user_edges(d: AuthDetails, ids: Ids, u: UserDetail) -> Seq<EdgeView> {
    member_edges(d, ids, ids[u.arn@], texts(u.groups@)) + permission_edges(
        ids,
        ids[u.arn@],
        docs(managed(d.policies@), u.attached@, u.inline@),
    )
}

/// The edges out of a group.
pub open spec fn group_edges(d: AuthDetails, ids: Ids, g: GroupDetail) -> Seq<EdgeView> {
    permission_edges(ids, ids[g.arn@], docs(managed(d.policies@), g.attached@, g.inline@))
}

/// The edges out of a role, and those of its trust policy into it.
pub open spec fn role_edges(d: AuthDetails, ids: Ids, r: RoleDetail) -> Seq<EdgeView> {
    permission_edges(ids, ids[r.arn@], docs(managed(d.policies@), r.attached@, r.inline@)) + trusted_edges(
        ids,
        ids[r.arn@],
        r.trust,
    )
}

/// The edges of the trust policy of a role, where it has one.
pub open spec fn trusted_edges(ids: Ids, role: Seq<char>, trust: Option<PolicyDocument>) -> Seq<EdgeView> {
    match trust {
        Some(t) => trust_edges(ids, role, t.statements@),
        None => Seq::empty(),
    }
}

/// The edges of the first `n` users.
pub open spec fn users_edges(d: AuthDetails, ids: Ids, n: nat) -> Seq<EdgeView>
    decreases n,
{
    if n == 0 {
        Seq::empty()
    } else {
        users_edges(d, ids, (n - 1) as nat) + user_edges(d, ids, d.users@[n - 1])
    }
}

/// The edges of the first `n` groups.
pub open spec fn groups_edges(d: AuthDetails, ids: Ids, n: nat) -> Seq<EdgeView>
    decreases n,
{
    if n == 0 {
        Seq::empty()
    } else {
        groups_edges(d, ids, (n - 1) as nat) + group_edges(d, ids, d.groups@[n - 1])
    }
}

/// The edges of the first `n` roles.
pub open spec fn roles_edges(d: AuthDetails, ids: Ids, n: nat) -> Seq<EdgeView>
    decreases n,
{
    if n == 0 {
        Seq::empty()
    } else {
        roles_edges(d, ids, (n - 1) as nat) + role_edges(d, ids, d.roles@[n - 1])
    }
}

/// The edges of an account.
pub open spec fn account_edges(d: AuthDetails, ids: Ids) -> Seq<EdgeView> {
    users_edges(d, ids, d.users@.len()) + groups_edges(d, ids, d.groups@.len()) + roles_edges(d, ids, d.roles@.len())
}

/// The kind of a node that is no identity: a resource where the list names it, else a principal
/// outside the account.
pub open spec fn kind_of(id: Seq<char>, list: Seq<Seq<char>>) -> Seq<char> {
    if list.contains(id) {
        "resource"@
    } else {
        "external"@
    }
}

/// The nodes with one more for each source of a `can_assume` edge that has none. A source that is
/// a resource too gets the kind of a resource.
pub open spec fn with_sources(nodes: Seq<NodeView>, edges: Seq<EdgeView>, list: Seq<Seq<char>>) -> Seq<NodeView>
    decreases edges.len(),
{
    if edges.len() == 0 {
        nodes
    } else {
        let rest = with_sources(nodes, edges.drop_last(), list);
        if edges.last().kind == "can_assume"@ {
            grown(rest, edges.last().from, kind_of(edges.last().from, list))
        } else {
            rest
        }
    }
}

/// Some edge is granted on the resource, which is no identity.
pub open spec fn is_resource(edges: Seq<EdgeView>, ids: Ids, k: Seq<char>) -> bool {
    !ids.contains_key(k) && exists|i: int| 0 <= i < edges.len() && (#[trigger] edges[i]).resource == Some(k)
}

/// The resources that edges are granted on and that are no identities, in ascending order.
pub open spec fn resource_list(edges: Seq<EdgeView>, ids: Ids) -> Seq<Seq<char>> {
    choose|s: Seq<Seq<char>>|
        ascending(s) && forall|k: Seq<char>| #[trigger] s.contains(k) <==> is_resource(edges, ids, k)
}

/// The nodes with one more for each resource that has none.
pub open spec fn with_resources(nodes: Seq<NodeView>, list: Seq<Seq<char>>) -> Seq<NodeView>
    decreases list.len(),
{
    if list.len() == 0 {
        nodes
    } else {
        grown(with_resources(nodes, list.drop_last()), list.last(), "resource"@)
    }
}

/// The document that an account is imported as.
pub open spec fn imported(d: AuthDetails) -> DocView {
    let (nodes, ids) = named(identities(d));
    let edges = account_edges(d, ids);
    let list = resource_list(edges, ids);
    DocView { nodes: with_resources(with_sources(nodes, edges, list), list), edges }
}

// ---- Lemmas ----

/// A group that is the first of its name is the one whose id counts.
proof fn lemma_group_id(d: AuthDetails, ids: Ids, name: Seq<char>, i: int)
    requires
        first_group(d, name, i),
    ensures
        group_id(d, ids, name) == Some(ids[d.groups@[i].arn@]),
{
    let k = choose|k: int| first_group(d, name, k);
    assert(first_group(d, name, k));
    assert(k == i) by {
        assert(is_group(d, name, k) && is_group(d, name, i));
    }
}

// ---- Builder ----

/// A copy of an optional condition block.
fn copied(m: &Option<serde_json::Map<String, serde_json::Value>>) -> (r: Option<
    serde_json::Map<String, serde_json::Value>,
>)
    ensures
        members_of(r) == members_of(*m),
{
    match m {
        Some(x) => Some(x.clone()),
        None => None,
    }
}

/// Puts a text in its place in an ascending list, unless it is there.
fn insert_ascending(list: &mut Vec<String>, s: &str)
    requires
        ascending(texts(old(list)@)),
    ensures
        ascending(texts(final(list)@)),
        forall|k: Seq<char>| #[trigger]
            texts(final(list)@).contains(k) <==> k == s@ || texts(old(list)@).contains(k),
{
    let ghost was = texts(list@);
    let mut i: usize = 0;
    while i < list.len() && comes_before(list[i].as_str(), s)
        invariant
            i <= list.len(),
            was == texts(list@),
            forall|j: int| 0 <= j < i ==> before(#[trigger] was[j], s@),
        decreases list.len() - i,
    {
        assert(was[i as int] == list@[i as int]@);
        i = i + 1;
    }
    if i < list.len() && same(list[i].as_str(), s) {
        assert(was[i as int] == s@);
        return;
    }
    list.insert(i, s.to_owned());
    proof {
        let now = texts(list@);
        assert(now =~= was.insert(i as int, s@));
        assert forall|j: int| i <= j < was.len() implies before(s@, #[trigger] was[j]) by {
            before_is_strict_order(s@, was[i as int], was[j]);
        }
        assert(now[i as int] == s@);
        assert forall|k: Seq<char>| #[trigger] now.contains(k) <==> k == s@ || was.contains(k) by {
            if was.contains(k) {
                let j = choose|j: int| 0 <= j < was.len() && was[j] == k;
                if j < i {
                    assert(now[j] == k);
                } else {
                    assert(now[j + 1] == k);
                }
            }
            if now.contains(k) && k != s@ {
                let j = choose|j: int| 0 <= j < now.len() && now[j] == k;
                if j < i {
                    assert(was[j] == k);
                } else {
                    assert(was[j - 1] == k);
                }
            }
        }
    }
}

/// The `AWS` principals that the `Principal` block of a trust statement names.
pub fn principal_arns(principal: &Option<serde_json::Value>) -> (r: Vec<String>)
    ensures
        texts(r@) == arns(tree_of(*principal)),
{
    let mut out: Vec<String> = Vec::new();
    if let Some(p) = principal {
        if let Some(aws) = member(p, "AWS") {
            if let Some(s) = as_text(aws) {
                out.push(s.to_owned());
                assert(texts(out@) =~= seq![s@]);
                return out;
            }
            if let Some(items) = as_items(aws) {
                for i in 0..items.len()
                    invariant
                        texts(out@) == texts_among(trees(items@).take(i as int)),
                {
                    let ghost seen = trees(items@).take(i as int);
                    let ghost more = trees(items@).take(i + 1);
                    assert(more.drop_last() =~= seen);
                    assert(more.last() == tree(items@[i as int]));
                    if let Some(s) = as_text(&items[i]) {
                        out.push(s.to_owned());
                        assert(texts(out@) =~= texts_among(seen).push(s@));
                    }
                }
                assert(trees(items@).take(items.len() as int) =~= trees(items@));
                return out;
            }
        }
    }
    assert(texts(out@) =~= Seq::empty());
    out
}

/// The place of the version of a managed policy that is in force.
fn version_in_force(p: &ManagedPolicy) -> (r: Option<usize>)
    ensures
        match r {
            Some(i) => in_force(*p) == Some(i as int) && i < p.versions@.len(),
            None => in_force(*p) is None,
        },
{
    for i in 0..p.versions.len()
        invariant
            forall|j: int| 0 <= j < i ==> !is_default(*p, j),
    {
        if same(p.versions[i].version_id.as_str(), p.default_version.as_str()) {
            proof {
                assert(first_default(*p, i as int));
                let k = choose|k: int| first_default(*p, k);
                assert(first_default(*p, k));
                assert(is_default(*p, k) && is_default(*p, i as int));
            }
            return Some(i);
        }
    }
    assert(!exists|i: int| first_default(*p, i)) by {
        if exists|i: int| first_default(*p, i) {
            let i = choose|i: int| first_default(*p, i);
            assert(is_default(*p, i));
        }
    }
    if p.versions.len() > 0 {
        Some(0)
    } else {
        None
    }
}

struct Builder<'a> {
    details: &'a AuthDetails,
    /// The ARN of a managed policy gives its place and that of its version in force.
    managed: StringHashMap<(usize, usize)>,
    /// The ARN of an identity gives its node id.
    arn_to_id: StringHashMap<String>,
    nodes: Vec<Node>,
    /// The ids of the nodes.
    node_ids: StringHashMap<bool>,
    edges: Vec<Edge>,
    /// The resources that have no node yet, in ascending order.
    resource_nodes: Vec<String>,
}

/// The index of managed policies gives the documents in force.
spec fn manages(index: Map<Seq<char>, (usize, usize)>, policies: Seq<ManagedPolicy>, m: Map<Seq<char>, PolicyDocument>) -> bool {
    &&& forall|k: Seq<char>| #[trigger] index.contains_key(k) <==> m.contains_key(k)
    &&& forall|k: Seq<char>| #[trigger]
        index.contains_key(k) ==> {
            let (i, j) = index[k];
            &&& i < policies.len()
            &&& j < policies[i as int].versions@.len()
            &&& policies[i as int].versions@[j as int].document == m[k]
        }
}

/// What one builder has more than another: edges.
spec fn grew(was: &Builder, now: &Builder, more: Seq<EdgeView>) -> bool {
    &&& now.inv()
    &&& now.details == was.details
    &&& now.ids() == was.ids()
    &&& edge_views(now.edges@) == edge_views(was.edges@) + more
    &&& now.nodes == was.nodes
}

proof fn lemma_grew_none(b: &Builder)
    requires
        b.inv(),
    ensures
        grew(b, b, Seq::empty()),
{
    assert(edge_views(b.edges@) + Seq::<EdgeView>::empty() =~= edge_views(b.edges@));
}

proof fn lemma_grew_twice(a: &Builder, b: &Builder, c: &Builder, first: Seq<EdgeView>, second: Seq<EdgeView>)
    requires
        grew(a, b, first),
        grew(b, c, second),
    ensures
        grew(a, c, first + second),
{
    assert(edge_views(a.edges@) + (first + second) =~= edge_views(a.edges@) + first + second);
}

/// A resource of the edges stays one when an edge comes that is granted on none or on an identity.
pub proof fn lemma_resources_kept(edges: Seq<EdgeView>, e: EdgeView, ids: Ids)
    requires
        e.resource is None || ids.contains_key(e.resource->0),
    ensures
        forall|k: Seq<char>| #[trigger] is_resource(edges.push(e), ids, k) <==> is_resource(edges, ids, k),
{
    assert forall|k: Seq<char>| #[trigger] is_resource(edges.push(e), ids, k) <==> is_resource(edges, ids, k) by {
        if is_resource(edges, ids, k) {
            let i = choose|i: int| 0 <= i < edges.len() && (#[trigger] edges[i]).resource == Some(k);
            assert(edges.push(e)[i].resource == Some(k));
        }
        if is_resource(edges.push(e), ids, k) {
            let i = choose|i: int| 0 <= i < edges.push(e).len() && (#[trigger] edges.push(e)[i]).resource == Some(k);
            assert(i < edges.len());
            assert(edges[i].resource == Some(k));
        }
    }
}

/// An edge that is granted on a resource adds it.
pub proof fn lemma_resource_added(edges: Seq<EdgeView>, e: EdgeView, ids: Ids)
    requires
        e.resource is Some,
        !ids.contains_key(e.resource->0),
    ensures
        forall|k: Seq<char>| #[trigger]
            is_resource(edges.push(e), ids, k) <==> k == e.resource->0 || is_resource(edges, ids, k),
{
    assert forall|k: Seq<char>| #[trigger] is_resource(edges.push(e), ids, k) <==> k == e.resource->0
        || is_resource(edges, ids, k) by {
        assert(edges.push(e)[edges.len() as int].resource == e.resource);
        if is_resource(edges, ids, k) {
            let i = choose|i: int| 0 <= i < edges.len() && (#[trigger] edges[i]).resource == Some(k);
            assert(edges.push(e)[i].resource == Some(k));
        }
        if is_resource(edges.push(e), ids, k) && k != e.resource->0 {
            let i = choose|i: int| 0 <= i < edges.push(e).len() && (#[trigger] edges.push(e)[i]).resource == Some(k);
            assert(i < edges.len());
            assert(edges[i].resource == Some(k));
        }
    }
}

/// A node list with one node more knows its id besides.
pub proof fn lemma_known_push(nodes: Seq<NodeView>, n: NodeView)
    ensures
        forall|k: Seq<char>| #[trigger] known(nodes.push(n), k) <==> k == n.id || known(nodes, k),
{
    assert forall|k: Seq<char>| #[trigger] known(nodes.push(n), k) <==> k == n.id || known(nodes, k) by {
        assert(nodes.push(n)[nodes.len() as int].id == n.id);
        if known(nodes, k) {
            let i = choose|i: int| 0 <= i < nodes.len() && #[trigger] nodes[i].id == k;
            assert(nodes.push(n)[i].id == k);
        }
        if known(nodes.push(n), k) && k != n.id {
            let i = choose|i: int| 0 <= i < nodes.push(n).len() && #[trigger] nodes.push(n)[i].id == k;
            assert(nodes[i].id == k);
        }
    }
}

impl<'a> Builder<'a> {
    /// The node id of each identity by its ARN.
    spec fn ids(&self) -> Ids {
        self.arn_to_id@.map_values(|s: String| s@)
    }

    spec fn inv(&self) -> bool {
        &&& manages(self.managed@, self.details.policies@, managed(self.details.policies@))
        &&& forall|k: Seq<char>| #[trigger] self.node_ids@.contains_key(k) <==> known(node_views(self.nodes@), k)
        &&& ascending(texts(self.resource_nodes@))
        &&& forall|k: Seq<char>| #[trigger]
            texts(self.resource_nodes@).contains(k) <==> is_resource(edge_views(self.edges@), self.ids(), k)
    }

    fn new(details: &'a AuthDetails) -> (r: Self)
        ensures
            r.inv(),
            r.details == details,
            r.nodes@.len() == 0,
            r.edges@.len() == 0,
            r.ids() == Map::<Seq<char>, Seq<char>>::empty(),
    {
        let mut index: StringHashMap<(usize, usize)> = StringHashMap::new();
        for i in 0..details.policies.len()
            invariant
                manages(index@, details.policies@, managed(details.policies@.take(i as int))),
        {
            let ghost seen = details.policies@.take(i as int);
            let ghost more = details.policies@.take(i + 1);
            assert(more.drop_last() =~= seen);
            let p = &details.policies[i];
            assert(more.last() == *p);
            if let Some(version) = version_in_force(p) {
                index.insert(p.arn.clone(), (i, version));
            }
        }
        assert(details.policies@.take(details.policies.len() as int) =~= details.policies@);
        let b = Builder {
            details,
            managed: index,
            arn_to_id: StringHashMap::new(),
            nodes: Vec::new(),
            node_ids: StringHashMap::new(),
            edges: Vec::new(),
            resource_nodes: Vec::new(),
        };
        assert(b.ids() =~= Map::<Seq<char>, Seq<char>>::empty());
        assert(node_views(b.nodes@) =~= Seq::empty());
        assert(edge_views(b.edges@) =~= Seq::empty());
        assert(texts(b.resource_nodes@) =~= Seq::empty());
        b
    }

    /// Adds a node, unless its id is taken.
    fn add_node(&mut self, id: String, kind: &str)
        requires
            old(self).inv(),
        ensures
            final(self).inv(),
            final(self).details == old(self).details,
            final(self).ids() == old(self).ids(),
            final(self).edges == old(self).edges,
            final(self).resource_nodes == old(self).resource_nodes,
            node_views(final(self).nodes@) == grown(node_views(old(self).nodes@), id@, kind@),
    {
        if self.node_ids.contains_key(id.as_str()) {
            return;
        }
        self.node_ids.insert(id.clone(), true);
        let n = Node { id, kind: kind.to_owned(), attrs: no_members() };
        proof {
            lemma_known_push(node_views(self.nodes@), n@);
            assert(n@.attrs =~= Map::<Seq<char>, Tree>::empty());
        }
        let ghost was = node_views(self.nodes@);
        self.nodes.push(n);
        assert(node_views(self.nodes@) =~= was.push(n@));
    }

    /// Adds the node of an identity, under its name, or under its ARN where the name is taken.
    fn add_identity(&mut self, name: &str, kind: &str, arn: &str) -> (r: String)
        requires
            old(self).inv(),
        ensures
            final(self).inv(),
            final(self).details == old(self).details,
            final(self).ids() == old(self).ids(),
            final(self).edges == old(self).edges,
            final(self).resource_nodes == old(self).resource_nodes,
            r@ == if known(node_views(old(self).nodes@), name@) { arn@ } else { name@ },
            node_views(final(self).nodes@) == grown(node_views(old(self).nodes@), r@, kind@),
    {
        let id = if self.node_ids.contains_key(name) {
            arn.to_owned()
        } else {
            name.to_owned()
        };
        self.add_node(id.clone(), kind);
        id
    }

    /// The id of the first group with a name.
    fn group_id_by_name(&self, name: &str) -> (r: Option<String>)
        requires
            forall|i: int| 0 <= i < self.details.groups@.len() ==> self.ids().contains_key(
                (#[trigger] self.details.groups@[i]).arn@,
            ),
        ensures
            text_of(r) == group_id(*self.details, self.ids(), name@),
    {
        for i in 0..self.details.groups.len()
            invariant
                forall|i: int| 0 <= i < self.details.groups@.len() ==> self.ids().contains_key(
                    (#[trigger] self.details.groups@[i]).arn@,
                ),
                forall|j: int| 0 <= j < i ==> !is_group(*self.details, name@, j),
        {
            let g = &self.details.groups[i];
            if same(g.name.as_str(), name) {
                proof {
                    assert(first_group(*self.details, name@, i as int));
                    lemma_group_id(*self.details, self.ids(), name@, i as int);
                    assert(self.ids().contains_key(g.arn@));
                }
                return match self.arn_to_id.get(g.arn.as_str()) {
                    Some(id) => Some(id.clone()),
                    None => None,
                };
            }
        }
        proof {
            if exists|j: int| first_group(*self.details, name@, j) {
                let j = choose|j: int| first_group(*self.details, name@, j);
                assert(is_group(*self.details, name@, j));
            }
        }
        None
    }

    /// The documents that apply to an identity.
    fn docs_for(&self, attached: &Vec<AttachedPolicy>, inline: &'a Vec<InlinePolicy>) -> (r: Vec<&'a PolicyDocument>)
        requires
            self.inv(),
        ensures
            r@.map_values(|d: &PolicyDocument| *d) == docs(managed(self.details.policies@), attached@, inline@),
    {
        let ghost m = managed(self.details.policies@);
        let mut out: Vec<&'a PolicyDocument> = Vec::new();
        for k in 0..attached.len()
            invariant
                self.inv(),
                m == managed(self.details.policies@),
                out@.map_values(|d: &PolicyDocument| *d) == attached_docs(m, attached@.take(k as int)),
        {
            assert(attached@.take(k + 1).drop_last() =~= attached@.take(k as int));
            let ghost was = out@.map_values(|d: &PolicyDocument| *d);
            if let Some(at) = self.managed.get(attached[k].arn.as_str()) {
                let details = self.details;
                let doc = &details.policies[at.0].versions[at.1].document;
                out.push(doc);
                assert(out@.map_values(|d: &PolicyDocument| *d) =~= was.push(*doc));
            }
        }
        assert(attached@.take(attached.len() as int) =~= attached@);
        for k in 0..inline.len()
            invariant
                out@.map_values(|d: &PolicyDocument| *d) == attached_docs(m, attached@) + inline@.take(
                    k as int,
                ).map_values(|i: InlinePolicy| i.document),
        {
            let ghost was = out@.map_values(|d: &PolicyDocument| *d);
            let doc = &inline[k].document;
            out.push(doc);
            assert(out@.map_values(|d: &PolicyDocument| *d) =~= was.push(*doc));
            assert(inline@.take(k + 1).map_values(|i: InlinePolicy| i.document) =~= inline@.take(k as int).map_values(
                |i: InlinePolicy| i.document,
            ).push(*doc));
            assert(out@.map_values(|d: &PolicyDocument| *d) =~= attached_docs(m, attached@) + inline@.take(
                k + 1,
            ).map_values(|i: InlinePolicy| i.document));
        }
        assert(inline@.take(inline.len() as int) =~= inline@);
        out
    }

    /// Adds the edge of one action on one resource.
    fn emit_permission(
        &mut self,
        from: &str,
        action: &str,
        resource: &str,
        condition: &Option<serde_json::Map<String, serde_json::Value>>,
    )
        requires
            old(self).inv(),
        ensures
            grew(
                old(self),
                final(self),
                seq![permission(old(self).ids(), from@, action@, resource@, members_of(*condition))],
            ),
    {
        let ghost ids = self.ids();
        let ghost edges = edge_views(self.edges@);
        let ghost e = permission(ids, from@, action@, resource@, members_of(*condition));
        let to = match self.arn_to_id.get(resource) {
            Some(id) => {
                proof {
                    lemma_resources_kept(edges, e, ids);
                }
                id.clone()
            },
            None => {
                insert_ascending(&mut self.resource_nodes, resource);
                proof {
                    lemma_resource_added(edges, e, ids);
                }
                resource.to_owned()
            },
        };
        self.edges.push(
            Edge {
                from: from.to_owned(),
                to,
                kind: "has_permission".to_owned(),
                action: Some(action.to_owned()),
                resource: Some(resource.to_owned()),
                conditions: copied(condition),
            },
        );
        proof {
            assert(edge_views(self.edges@) =~= edges.push(e));
            assert(edges.push(e) =~= edges + seq![e]);
        }
    }

    /// Adds the edges of one statement.
    fn emit_statement(&mut self, from: &str, st: &Statement)
        requires
            old(self).inv(),
        ensures
            grew(old(self), final(self), statement_edges(old(self).ids(), from@, *st)),
    {
        let ghost start = *self;
        let ghost ids = self.ids();
        let ghost condition = members_of(st.condition);
        proof {
            lemma_grew_none(&start);
        }
        if !same_ignoring_case(st.effect.as_str(), "Allow") {
            return;
        }
        if st.not_action.len() > 0 || st.not_resource.len() > 0 {
            return;
        }
        let any: Vec<String> = vec!["*".to_owned()];
        let resources = if st.resource.len() == 0 {
            &any
        } else {
            &st.resource
        };
        let ghost list = texts(resources@);
        assert(list =~= self::resources(*st));
        for i in 0..st.action.len()
            invariant
                list == texts(resources@),
                ids == start.ids(),
                condition == members_of(st.condition),
                grew(
                    &start,
                    self,
                    actions_edges(ids, from@, texts(st.action@).take(i as int), list, condition),
                ),
        {
            let ghost mid = *self;
            let ghost action = st.action@[i as int]@;
            proof {
                lemma_grew_none(&mid);
                assert(action_edges(ids, from@, action, list.take(0), condition) =~= Seq::empty());
            }
            for j in 0..resources.len()
                invariant
                    i < st.action@.len(),
                    list == texts(resources@),
                    ids == mid.ids(),
                    condition == members_of(st.condition),
                    action == st.action@[i as int]@,
                    grew(&mid, self, action_edges(ids, from@, action, list.take(j as int), condition)),
            {
                let ghost here = *self;
                self.emit_permission(from, st.action[i].as_str(), resources[j].as_str(), &st.condition);
                proof {
                    let e = permission(ids, from@, action, resources@[j as int]@, condition);
                    let seen = action_edges(ids, from@, action, list.take(j as int), condition);
                    lemma_grew_twice(&mid, &here, self, seen, seq![e]);
                    assert(action_edges(ids, from@, action, list.take(j + 1), condition) =~= seen + seq![e]);
                }
            }
            proof {
                assert(list.take(resources.len() as int) =~= list);
                let seen = texts(st.action@).take(i as int);
                let more = texts(st.action@).take(i + 1);
                assert(more.drop_last() =~= seen);
                assert(more.last() == action);
                lemma_grew_twice(
                    &start,
                    &mid,
                    self,
                    actions_edges(ids, from@, seen, list, condition),
                    action_edges(ids, from@, action, list, condition),
                );
            }
        }
        assert(texts(st.action@).take(st.action.len() as int) =~= texts(st.action@));
    }

    /// Adds the edges that policy documents grant to an identity.
    fn emit_permissions(&mut self, from: &str, docs: &Vec<&PolicyDocument>)
        requires
            old(self).inv(),
        ensures
            grew(
                old(self),
                final(self),
                permission_edges(old(self).ids(), from@, docs@.map_values(|d: &PolicyDocument| *d)),
            ),
    {
        let ghost start = *self;
        let ghost ids = self.ids();
        let ghost list = docs@.map_values(|d: &PolicyDocument| *d);
        proof {
            lemma_grew_none(&start);
        }
        for i in 0..docs.len()
            invariant
                list == docs@.map_values(|d: &PolicyDocument| *d),
                ids == start.ids(),
                grew(&start, self, permission_edges(ids, from@, list.take(i as int))),
        {
            let ghost mid = *self;
            let doc = docs[i];
            proof {
                lemma_grew_none(&mid);
            }
            for j in 0..doc.statements.len()
                invariant
                    ids == mid.ids(),
                    grew(&mid, self, statements_edges(ids, from@, doc.statements@.take(j as int))),
            {
                let ghost here = *self;
                self.emit_statement(from, &doc.statements[j]);
                proof {
                    let seen = doc.statements@.take(j as int);
                    let more = doc.statements@.take(j + 1);
                    assert(more.drop_last() =~= seen);
                    lemma_grew_twice(
                        &mid,
                        &here,
                        self,
                        statements_edges(ids, from@, seen),
                        statement_edges(ids, from@, doc.statements@[j as int]),
                    );
                }
            }
            proof {
                assert(doc.statements@.take(doc.statements.len() as int) =~= doc.statements@);
                let seen = list.take(i as int);
                let more = list.take(i + 1);
                assert(more.drop_last() =~= seen);
                assert(more.last() == *doc);
                lemma_grew_twice(
                    &start,
                    &mid,
                    self,
                    permission_edges(ids, from@, seen),
                    statements_edges(ids, from@, doc.statements@),
                );
            }
        }
        assert(list.take(docs.len() as int) =~= list);
    }

    /// Adds the edge from one trusted principal to a role.
    fn emit_assumption(
        &mut self,
        arn: &str,
        role_id: &str,
        condition: &Option<serde_json::Map<String, serde_json::Value>>,
    )
        requires
            old(self).inv(),
        ensures
            grew(
                old(self),
                final(self),
                seq![assumption(old(self).ids(), arn@, role_id@, members_of(*condition))],
            ),
    {
        let ghost ids = self.ids();
        let ghost edges = edge_views(self.edges@);
        let ghost e = assumption(ids, arn@, role_id@, members_of(*condition));
        let from = match self.arn_to_id.get(arn) {
            Some(id) => id.clone(),
            None => arn.to_owned(),
        };
        self.edges.push(
            Edge {
                from,
                to: role_id.to_owned(),
                kind: "can_assume".to_owned(),
                action: Some("sts:AssumeRole".to_owned()),
                resource: None,
                conditions: copied(condition),
            },
        );
        proof {
            lemma_resources_kept(edges, e, ids);
            assert(edge_views(self.edges@) =~= edges.push(e));
            assert(edges.push(e) =~= edges + seq![e]);
        }
    }

    /// Adds the edges from the principals that a trust policy lets assume a role.
    fn emit_trust(&mut self, role_id: &str, trust: &PolicyDocument)
        requires
            old(self).inv(),
        ensures
            grew(old(self), final(self), trust_edges(old(self).ids(), role_id@, trust.statements@)),
    {
        let ghost start = *self;
        let ghost ids = self.ids();
        proof {
            lemma_grew_none(&start);
        }
        for i in 0..trust.statements.len()
            invariant
                ids == start.ids(),
                grew(&start, self, trust_edges(ids, role_id@, trust.statements@.take(i as int))),
        {
            let ghost mid = *self;
            let st = &trust.statements[i];
            let ghost condition = members_of(st.condition);
            proof {
                lemma_grew_none(&mid);
                assert(trust.statements@.take(i + 1).drop_last() =~= trust.statements@.take(i as int));
            }
            let allowed = same_ignoring_case(st.effect.as_str(), "Allow") && assumes(&st.action);
            if allowed {
                let list = principal_arns(&st.principal);
                let ghost all = texts(list@);
                let ghost f = |arn: Seq<char>| assumption(ids, arn, role_id@, condition);
                assert(all.take(0).map_values(f) =~= Seq::empty());
                for j in 0..list.len()
                    invariant
                        ids == mid.ids(),
                        all == texts(list@),
                        condition == members_of(st.condition),
                        f == (|arn: Seq<char>| assumption(ids, arn, role_id@, condition)),
                        grew(&mid, self, all.take(j as int).map_values(f)),
                {
                    let ghost here = *self;
                    self.emit_assumption(list[j].as_str(), role_id, &st.condition);
                    proof {
                        let e = assumption(ids, list@[j as int]@, role_id@, condition);
                        lemma_grew_twice(&mid, &here, self, all.take(j as int).map_values(f), seq![e]);
                        assert(all.take(j + 1).map_values(f) =~= all.take(j as int).map_values(f) + seq![e]);
                    }
                }
                assert(all.take(list.len() as int) =~= all);
                assert(assumption_edges(ids, role_id@, *st) =~= all.map_values(f));
            }
            proof {
                lemma_grew_twice(
                    &start,
                    &mid,
                    self,
                    trust_edges(ids, role_id@, trust.statements@.take(i as int)),
                    assumption_edges(ids, role_id@, *st),
                );
            }
        }
        assert(trust.statements@.take(trust.statements.len() as int) =~= trust.statements@);
    }
}

/// Whether one of the actions is that of assuming a role.
fn assumes(actions: &Vec<String>) -> (r: bool)
    ensures
        r == exists|i: int|
            0 <= i < actions@.len() && same_letters(#[trigger] texts(actions@)[i], "sts:AssumeRole"@),
{
    for i in 0..actions.len()
        invariant
            forall|j: int| 0 <= j < i ==> !same_letters(#[trigger] texts(actions@)[j], "sts:AssumeRole"@),
    {
        if same_ignoring_case(actions[i].as_str(), "sts:AssumeRole") {
            assert(same_letters(texts(actions@)[i as int], "sts:AssumeRole"@));
            return true;
        }
    }
    false
}

impl<'a> Builder<'a> {
    /// Adds the node of an identity and notes its id.
    fn identify(&mut self, name: &str, kind: &str, arn: &str)
        requires
            old(self).inv(),
            old(self).edges@.len() == 0,
        ensures
            final(self).inv(),
            final(self).details == old(self).details,
            final(self).edges == old(self).edges,
            ({
                let nodes = node_views(old(self).nodes@);
                let id = if known(nodes, name@) { arn@ } else { name@ };
                &&& node_views(final(self).nodes@) == grown(nodes, id, kind@)
                &&& final(self).ids() == old(self).ids().insert(arn@, id)
            }),
    {
        let ghost was = node_views(self.nodes@);
        let ghost ids = self.ids();
        let id = self.add_identity(name, kind, arn);
        self.arn_to_id.insert(arn.to_owned(), id);
        proof {
            assert(self.ids() =~= ids.insert(arn@, id@));
            assert(edge_views(self.edges@).len() == 0);
        }
    }

    /// The edges of the groups that a user is a member of.
    fn emit_memberships(&mut self, from: &str, groups: &Vec<String>)
        requires
            old(self).inv(),
            old(self).grouped(),
        ensures
            grew(
                old(self),
                final(self),
                member_edges(*old(self).details, old(self).ids(), from@, texts(groups@)),
            ),
    {
        let ghost start = *self;
        let ghost ids = self.ids();
        let ghost d = *self.details;
        proof {
            lemma_grew_none(&start);
        }
        for i in 0..groups.len()
            invariant
                ids == start.ids(),
                d == *start.details,
                self.grouped(),
                grew(&start, self, member_edges(d, ids, from@, texts(groups@).take(i as int))),
        {
            let ghost mid = *self;
            let ghost seen = texts(groups@).take(i as int);
            let ghost more = texts(groups@).take(i + 1);
            proof {
                assert(more.drop_last() =~= seen);
                assert(more.last() == groups@[i as int]@);
            }
            if let Some(to) = self.group_id_by_name(groups[i].as_str()) {
                let ghost edges = edge_views(self.edges@);
                let ghost e = EdgeView {
                    from: from@,
                    to: to@,
                    kind: "member_of"@,
                    action: None,
                    resource: None,
                    conditions: None,
                };
                self.edges.push(
                    Edge {
                        from: from.to_owned(),
                        to,
                        kind: "member_of".to_owned(),
                        action: None,
                        resource: None,
                        conditions: None,
                    },
                );
                proof {
                    lemma_resources_kept(edges, e, ids);
                    assert(edge_views(self.edges@) =~= edges.push(e));
                    assert(edges.push(e) =~= edges + seq![e]);
                    lemma_grew_twice(&start, &mid, self, member_edges(d, ids, from@, seen), seq![e]);
                    assert(member_edges(d, ids, from@, seen).push(e) =~= member_edges(d, ids, from@, seen) + seq![e]);
                }
            }
        }
        assert(texts(groups@).take(groups.len() as int) =~= texts(groups@));
    }

    /// Every group has an id.
    spec fn grouped(&self) -> bool {
        forall|i: int| 0 <= i < self.details.groups@.len() ==> self.ids().contains_key(
            (#[trigger] self.details.groups@[i]).arn@,
        )
    }

    /// The id of an identity.
    fn id_of(&self, arn: &str) -> (r: String)
        requires
            self.ids().contains_key(arn@),
        ensures
            r@ == self.ids()[arn@],
    {
        assert(self.arn_to_id@.contains_key(arn@));
        let id = self.arn_to_id.get(arn);
        id.unwrap().clone()
    }

    /// Every identity has an id.
    spec fn covered(&self) -> bool {
        &&& forall|i: int| 0 <= i < self.details.users@.len() ==> self.ids().contains_key(
            (#[trigger] self.details.users@[i]).arn@,
        )
        &&& self.grouped()
        &&& forall|i: int| 0 <= i < self.details.roles@.len() ==> self.ids().contains_key(
            (#[trigger] self.details.roles@[i]).arn@,
        )
    }

    /// Adds the nodes of the users, the groups and the roles.
    fn identify_all(&mut self)
        requires
            old(self).inv(),
            old(self).nodes@.len() == 0,
            old(self).edges@.len() == 0,
            old(self).ids() == Map::<Seq<char>, Seq<char>>::empty(),
        ensures
            final(self).inv(),
            final(self).details == old(self).details,
            final(self).edges@.len() == 0,
            final(self).covered(),
            named(identities(*old(self).details)) == (node_views(final(self).nodes@), final(self).ids()),
    {
        let details = self.details;
        let ghost all = identities(*details);
        assert(node_views(self.nodes@) =~= Seq::empty());
        for i in 0..details.users.len()
            invariant
                all == identities(*details),
                self.inv(),
                self.details == details,
                self.edges@.len() == 0,
                named(all.take(i as int)) == (node_views(self.nodes@), self.ids()),
        {
            let u = &details.users[i];
            proof {
                assert(all.take(i + 1).drop_last() =~= all.take(i as int));
                assert(all.take(i + 1).last() == (u.name@, "user"@, u.arn@));
            }
            self.identify(u.name.as_str(), "user", u.arn.as_str());
        }
        for i in 0..details.groups.len()
            invariant
                all == identities(*details),
                self.inv(),
                self.details == details,
                self.edges@.len() == 0,
                named(all.take(details.users@.len() + i)) == (node_views(self.nodes@), self.ids()),
        {
            let g = &details.groups[i];
            let ghost k = details.users@.len() + i;
            proof {
                assert(all.take(k + 1).drop_last() =~= all.take(k));
                assert(all.take(k + 1).last() == (g.name@, "group"@, g.arn@));
            }
            self.identify(g.name.as_str(), "group", g.arn.as_str());
        }
        for i in 0..details.roles.len()
            invariant
                all == identities(*details),
                self.inv(),
                self.details == details,
                self.edges@.len() == 0,
                named(all.take(details.users@.len() + details.groups@.len() + i)) == (node_views(self.nodes@), self.ids()),
        {
            let r = &details.roles[i];
            let ghost k = details.users@.len() + details.groups@.len() + i;
            proof {
                assert(all.take(k + 1).drop_last() =~= all.take(k));
                assert(all.take(k + 1).last() == (r.name@, "role"@, r.arn@));
            }
            self.identify(r.name.as_str(), "role", r.arn.as_str());
        }
        proof {
            assert(all.take(all.len() as int) =~= all);
            lemma_named_has(all);
            let ids = self.ids();
            assert forall|i: int| 0 <= i < details.users@.len() implies ids.contains_key(
                (#[trigger] details.users@[i]).arn@,
            ) by {
                assert(all[i].2 == details.users@[i].arn@);
            }
            assert forall|i: int| 0 <= i < details.groups@.len() implies ids.contains_key(
                (#[trigger] details.groups@[i]).arn@,
            ) by {
                assert(all[details.users@.len() + i].2 == details.groups@[i].arn@);
            }
            assert forall|i: int| 0 <= i < details.roles@.len() implies ids.contains_key(
                (#[trigger] details.roles@[i]).arn@,
            ) by {
                assert(all[details.users@.len() + details.groups@.len() + i].2 == details.roles@[i].arn@);
            }
        }
    }

    /// Adds the edges of memberships, permissions and trust.
    fn connect(&mut self)
        requires
            old(self).inv(),
            old(self).covered(),
        ensures
            grew(old(self), final(self), account_edges(*old(self).details, old(self).ids())),
    {
        let details = self.details;
        let ghost start = *self;
        let ghost ids = self.ids();
        proof {
            lemma_grew_none(&start);
        }
        for i in 0..details.users.len()
            invariant
                start.details == details,
                ids == start.ids(),
                forall|i: int| 0 <= i < details.users@.len() ==> ids.contains_key(
                    (#[trigger] details.users@[i]).arn@,
                ),
                self.grouped(),
                grew(&start, self, users_edges(*details, ids, i as nat)),
        {
            let u = &details.users[i];
            let ghost before_groups = *self;
            let from = self.id_of(u.arn.as_str());
            self.emit_memberships(from.as_str(), &u.groups);
            let ghost before_policies = *self;
            let docs = self.docs_for(&u.attached, &u.inline);
            self.emit_permissions(from.as_str(), &docs);
            proof {
                let d = *details;
                let a = member_edges(d, ids, ids[u.arn@], texts(u.groups@));
                let c = permission_edges(
                    ids,
                    ids[u.arn@],
                    self::docs(managed(d.policies@), u.attached@, u.inline@),
                );
                lemma_grew_twice(&before_groups, &before_policies, self, a, c);
                lemma_grew_twice(&start, &before_groups, self, users_edges(d, ids, i as nat), a + c);
            }
        }
        let ghost users_done = users_edges(*details, ids, details.users@.len());
        proof {
            assert(users_done + groups_edges(*details, ids, 0) =~= users_done);
        }
        for i in 0..details.groups.len()
            invariant
                start.details == details,
                ids == start.ids(),
                forall|i: int| 0 <= i < details.groups@.len() ==> ids.contains_key(
                    (#[trigger] details.groups@[i]).arn@,
                ),
                grew(&start, self, users_done + groups_edges(*details, ids, i as nat)),
        {
            let g = &details.groups[i];
            let ghost mid = *self;
            let from = self.id_of(g.arn.as_str());
            let docs = self.docs_for(&g.attached, &g.inline);
            self.emit_permissions(from.as_str(), &docs);
            proof {
                let seen = groups_edges(*details, ids, i as nat);
                let more = group_edges(*details, ids, *g);
                lemma_grew_twice(&start, &mid, self, users_done + seen, more);
                assert(users_done + seen + more =~= users_done + (seen + more));
            }
        }
        let ghost groups_done = users_done + groups_edges(*details, ids, details.groups@.len());
        proof {
            assert(groups_done + roles_edges(*details, ids, 0) =~= groups_done);
        }
        for i in 0..details.roles.len()
            invariant
                start.details == details,
                ids == start.ids(),
                forall|i: int| 0 <= i < details.roles@.len() ==> ids.contains_key(
                    (#[trigger] details.roles@[i]).arn@,
                ),
                grew(&start, self, groups_done + roles_edges(*details, ids, i as nat)),
        {
            let r = &details.roles[i];
            let ghost mid = *self;
            let to = self.id_of(r.arn.as_str());
            let docs = self.docs_for(&r.attached, &r.inline);
            self.emit_permissions(to.as_str(), &docs);
            let ghost permitted = *self;
            let ghost granted = permission_edges(
                ids,
                ids[r.arn@],
                self::docs(managed(details.policies@), r.attached@, r.inline@),
            );
            proof {
                lemma_grew_none(self);
            }
            if let Some(trust) = &r.trust {
                self.emit_trust(to.as_str(), trust);
            }
            proof {
                let seen = roles_edges(*details, ids, i as nat);
                let trusted = trusted_edges(ids, ids[r.arn@], r.trust);
                let more = role_edges(*details, ids, *r);
                assert(more == granted + trusted);
                lemma_grew_twice(&mid, &permitted, self, granted, trusted);
                lemma_grew_twice(&start, &mid, self, groups_done + seen, more);
                assert(groups_done + seen + more =~= groups_done + (seen + more));
            }
        }
    }

    /// Builds the document of the account.
    fn build(self) -> (r: GraphDoc)
        requires
            self.inv(),
            self.nodes@.len() == 0,
            self.edges@.len() == 0,
            self.ids() == Map::<Seq<char>, Seq<char>>::empty(),
        ensures
            r@ == imported(*self.details),
    {
        let mut b = self;
        b.identify_all();
        let ghost ids = b.ids();
        let ghost edges = account_edges(*self.details, ids);
        let ghost nodes = node_views(b.nodes@);
        b.connect();
        let ghost list = texts(b.resource_nodes@);
        proof {
            assert(edge_views(b.edges@) =~= edges);
            lemma_resource_list(list, edges, ids);
        }
        let total: usize = b.edges.len();
        for i in 0..total
            invariant
                b.inv(),
                total == b.edges@.len(),
                list == texts(b.resource_nodes@),
                edge_views(b.edges@) == edges,
                node_views(b.nodes@) == with_sources(nodes, edges.take(i as int), list),
        {
            proof {
                assert(edges.take(i + 1).drop_last() =~= edges.take(i as int));
                assert(edges.take(i + 1).last() == b.edges@[i as int]@);
            }
            if same(b.edges[i].kind.as_str(), "can_assume") {
                let from = b.edges[i].from.clone();
                let kind = if holds_text(&b.resource_nodes, from.as_str()) {
                    "resource"
                } else {
                    "external"
                };
                b.add_node(from, kind);
            }
        }
        assert(edges.take(total as int) =~= edges);
        let ghost sourced = node_views(b.nodes@);
        let count: usize = b.resource_nodes.len();
        for i in 0..count
            invariant
                b.inv(),
                count == list.len(),
                list == texts(b.resource_nodes@),
                edge_views(b.edges@) == edges,
                node_views(b.nodes@) == with_resources(sourced, list.take(i as int)),
        {
            let arn = b.resource_nodes[i].clone();
            proof {
                assert(list.take(i + 1).drop_last() =~= list.take(i as int));
                assert(list.take(i + 1).last() == arn@);
            }
            b.add_node(arn, "resource");
        }
        assert(list.take(list.len() as int) =~= list);
        GraphDoc { nodes: b.nodes, edges: b.edges }
    }
}

/// Every identity of a list gets an id, which a node has.
pub proof fn lemma_named_has(list: Seq<(Seq<char>, Seq<char>, Seq<char>)>)
    ensures
        forall|i: int| 0 <= i < list.len() ==> named(list).1.contains_key((#[trigger] list[i]).2),
        forall|k: Seq<char>| #[trigger] named(list).1.contains_key(k) ==> known(named(list).0, named(list).1[k]),
    decreases list.len(),
{
    if list.len() > 0 {
        lemma_named_has(list.drop_last());
        let (nodes, ids) = named(list.drop_last());
        let (name, kind, arn) = list.last();
        let id = if known(nodes, name) {
            arn
        } else {
            name
        };
        lemma_known_push(nodes, NodeView { id, kind, attrs: Map::empty() });
        assert forall|i: int| 0 <= i < list.len() implies named(list).1.contains_key((#[trigger] list[i]).2) by {
            if i < list.len() - 1 {
                assert(list.drop_last()[i] == list[i]);
            }
        }
        assert forall|k: Seq<char>| #[trigger] named(list).1.contains_key(k) implies known(
            named(list).0,
            named(list).1[k],
        ) by {
            if k != arn {
                assert(ids.contains_key(k));
            }
        }
    }
}

/// An ascending list of the resources is the list of the resources.
pub proof fn lemma_resource_list(s: Seq<Seq<char>>, edges: Seq<EdgeView>, ids: Ids)
    requires
        ascending(s),
        forall|k: Seq<char>| #[trigger] s.contains(k) <==> is_resource(edges, ids, k),
    ensures
        resource_list(edges, ids) == s,
{
    let t = resource_list(edges, ids);
    assert(ascending(t) && forall|k: Seq<char>| #[trigger] t.contains(k) <==> is_resource(edges, ids, k));
    assert forall|k: Seq<char>| #[trigger] s.contains(k) <==> t.contains(k) by {}
    lemma_ascending_unique(s, t);
}

/// The document of an account: see `imported`.
pub fn import(details: &AuthDetails) -> (r: GraphDoc)
    ensures
        r@ == imported(*details),
{
    Builder::new(details).build()
}

} // verus!

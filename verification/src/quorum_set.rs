//! The quorum set: the essential unit of trust.
//!
//! A quorum set names the peers a node depends on: a threshold plus a list of
//! members, each either a single identity or a nested quorum set. The
//! mathematical content of a set is its [`QuorumSetView`]: the same tree with
//! every identity replaced by its view.

use vstd::prelude::*;
use crate::collections::IdSet;
use crate::identity::{Identity, ResponderId};

verus! {

/// A member in a [`QuorumSet`]: either a node or another quorum set.
pub enum QuorumSetMember<ID> {
    /// A single trusted entity with an identity.
    Node(ID),
    /// A quorum set can also be a member of a quorum set.
    InnerSet(QuorumSet<ID>),
}

/// The quorum set defining the trusted set of peers.
pub struct QuorumSet<ID> {
    /// Threshold: how many members must accept for this set to accept.
    pub threshold: u32,
    /// Members, in the order the searches consider them.
    pub members: Vec<QuorumSetMember<ID>>,
}

/// The mathematical content of a [`QuorumSetMember`].
pub enum QuorumSetMemberView<IDV> {
    /// A single trusted entity, by its view.
    Node(IDV),
    /// A nested quorum set, by its view.
    InnerSet(QuorumSetView<IDV>),
}

/// The mathematical content of a [`QuorumSet`].
pub struct QuorumSetView<IDV> {
    /// Threshold: how many members must accept.
    pub threshold: nat,
    /// The members' views, in order.
    pub members: Seq<QuorumSetMemberView<IDV>>,
}

/// The view of one member.
pub open spec fn member_view<ID: View>(m: QuorumSetMember<ID>) -> QuorumSetMemberView<ID::V>
    decreases m,
{
    match m {
        QuorumSetMember::Node(id) => QuorumSetMemberView::Node(id@),
        QuorumSetMember::InnerSet(q) => QuorumSetMemberView::InnerSet(qs_view(q)),
    }
}

/// The views of a member list, in order.
pub open spec fn members_view<ID: View>(ms: Seq<QuorumSetMember<ID>>) -> Seq<
    QuorumSetMemberView<ID::V>,
>
    decreases ms,
{
    if ms.len() == 0 {
        Seq::empty()
    } else {
        members_view(ms.drop_last()).push(member_view(ms.last()))
    }
}

/// The view of a whole quorum set.
pub open spec fn qs_view<ID: View>(q: QuorumSet<ID>) -> QuorumSetView<ID::V>
    decreases q,
{
    QuorumSetView { threshold: q.threshold as nat, members: members_view(q.members@) }
}

/// `members_view` maps the list elementwise.
pub proof fn lemma_members_view_index<ID: View>(ms: Seq<QuorumSetMember<ID>>)
    ensures
        members_view(ms).len() == ms.len(),
        forall|i: int| 0 <= i < ms.len() ==> members_view(ms)[i] == member_view(ms[i]),
    decreases ms,
{
    if ms.len() > 0 {
        lemma_members_view_index(ms.drop_last());
        assert forall|i: int| 0 <= i < ms.len() implies members_view(ms)[i] == member_view(
            ms[i],
        ) by {
            if i < ms.len() - 1 {
                assert(ms.drop_last()[i] == ms[i]);
                assert(members_view(ms)[i] == members_view(ms.drop_last())[i]);
            } else {
                assert(ms.last() == ms[i]);
            }
        }
    }
}

impl<ID: View> View for QuorumSetMember<ID> {
    type V = QuorumSetMemberView<ID::V>;

    open spec fn view(&self) -> QuorumSetMemberView<ID::V> {
        member_view(*self)
    }
}

impl<ID: View> View for QuorumSet<ID> {
    type V = QuorumSetView<ID::V>;

    open spec fn view(&self) -> QuorumSetView<ID::V> {
        qs_view(*self)
    }
}

/// The flattened set of identity views a member mentions.
pub open spec fn member_nodes<IDV>(m: QuorumSetMemberView<IDV>) -> Set<IDV>
    decreases m,
{
    match m {
        QuorumSetMemberView::Node(v) => Set::empty().insert(v),
        QuorumSetMemberView::InnerSet(q) => members_nodes(q.members),
    }
}

/// The flattened set of identity views a member list mentions.
pub open spec fn members_nodes<IDV>(ms: Seq<QuorumSetMemberView<IDV>>) -> Set<IDV>
    decreases ms,
{
    if ms.len() == 0 {
        Set::empty()
    } else {
        members_nodes(ms.drop_last()) + member_nodes(ms.last())
    }
}

/// The flattened set of identity views in a quorum set.
pub open spec fn qs_nodes<IDV>(q: QuorumSetView<IDV>) -> Set<IDV> {
    members_nodes(q.members)
}

/// `members_nodes` is always finite.
pub proof fn lemma_members_nodes_finite<IDV>(ms: Seq<QuorumSetMemberView<IDV>>)
    ensures
        members_nodes(ms).finite(),
    decreases ms,
{
    if ms.len() > 0 {
        lemma_members_nodes_finite(ms.drop_last());
        lemma_member_nodes_finite(ms.last());
    }
}

/// `member_nodes` is always finite.
pub proof fn lemma_member_nodes_finite<IDV>(m: QuorumSetMemberView<IDV>)
    ensures
        member_nodes(m).finite(),
    decreases m,
{
    match m {
        QuorumSetMemberView::Node(_) => {}
        QuorumSetMemberView::InnerSet(q) => {
            lemma_members_nodes_finite(q.members);
        }
    }
}

/// The exact fraction of quorum slices of a member list that contain `id`:
/// the walk inspects members in order, under the enclosing set's `threshold`
/// and member `count`.
pub open spec fn weight_walk<IDV>(threshold: int, count: int, ms: Seq<QuorumSetMemberView<IDV>>, id: IDV) -> (int, int)
    decreases ms,
{
    if ms.len() == 0 {
        (0, 1)
    } else {
        match ms[0] {
            QuorumSetMemberView::Node(v) => if v == id {
                (threshold, count)
            } else {
                weight_walk(threshold, count, ms.drop_first(), id)
            },
            QuorumSetMemberView::InnerSet(q) => {
                let inner = qs_weight(q, id);
                if inner.0 > 0 {
                    (threshold * inner.0, count * inner.1)
                } else {
                    weight_walk(threshold, count, ms.drop_first(), id)
                }
            },
        }
    }
}

/// The exact fraction of quorum slices of `q` that contain `id`, as an
/// unreduced (numerator, denominator) pair; `(0, 1)` when `id` is absent.
pub open spec fn qs_weight<IDV>(q: QuorumSetView<IDV>, id: IDV) -> (int, int)
    decreases q,
{
    weight_walk(q.threshold as int, q.members.len() as int, q.members, id)
}

/// The walk's numerator is never negative and its denominator never below 1.
pub proof fn lemma_weight_walk_bounds<IDV>(threshold: int, count: int, ms: Seq<QuorumSetMemberView<IDV>>, id: IDV)
    requires
        threshold >= 0,
        count >= ms.len(),
    ensures
        weight_walk(threshold, count, ms, id).0 >= 0,
        weight_walk(threshold, count, ms, id).1 >= 1,
    decreases ms,
{
    if ms.len() > 0 {
        match ms[0] {
            QuorumSetMemberView::Node(v) => {
                if v != id {
                    lemma_weight_walk_bounds(threshold, count, ms.drop_first(), id);
                }
            },
            QuorumSetMemberView::InnerSet(q) => {
                lemma_qs_weight_bounds(q, id);
                let inner = qs_weight(q, id);
                if inner.0 > 0 {
                    assert(threshold * inner.0 >= 0) by (nonlinear_arith)
                        requires
                            threshold >= 0,
                            inner.0 > 0,
                    ;
                    assert(count * inner.1 >= 1) by (nonlinear_arith)
                        requires
                            count >= 1,
                            inner.1 >= 1,
                    ;
                } else {
                    lemma_weight_walk_bounds(threshold, count, ms.drop_first(), id);
                }
            },
        }
    }
}

/// Bounds of [`qs_weight`]: numerator at least 0, denominator at least 1.
pub proof fn lemma_qs_weight_bounds<IDV>(q: QuorumSetView<IDV>, id: IDV)
    ensures
        qs_weight(q, id).0 >= 0,
        qs_weight(q, id).1 >= 1,
    decreases q,
{
    lemma_weight_walk_bounds(q.threshold as int, q.members.len() as int, q.members, id);
}

/// `x` cut off at `u32::MAX`.
pub open spec fn clamp_u32(x: int) -> int {
    if x > u32::MAX as int {
        u32::MAX as int
    } else {
        x
    }
}

/// Clamping distributes over products of non-negative factors.
proof fn lemma_clamp_mul(a: int, b: int)
    requires
        a >= 0,
        b >= 0,
    ensures
        clamp_u32(clamp_u32(a) * clamp_u32(b)) == clamp_u32(a * b),
{
    let m = u32::MAX as int;
    let ca = clamp_u32(a);
    let cb = clamp_u32(b);
    if a <= m && b <= m {
    } else if b == 0 {
        assert(ca * 0 == 0) by (nonlinear_arith);
        assert(a * 0 == 0) by (nonlinear_arith);
    } else if a == 0 {
        assert(0 * cb == 0) by (nonlinear_arith);
        assert(0 * b == 0) by (nonlinear_arith);
    } else {
        assert(ca * cb >= m) by (nonlinear_arith)
            requires
                ca >= 1,
                cb >= 1,
                ca > m || cb > m || (ca == m || cb == m),
                (a > m || b > m),
                ca == if a > m { m } else { a },
                cb == if b > m { m } else { b },
                m >= 1,
        ;
        assert(a * b > m) by (nonlinear_arith)
            requires
                a >= 1,
                b >= 1,
                a > m || b > m,
                m >= 1,
        ;
    }
}

/// Multiplies and cuts the product off at `u32::MAX`.
fn mul_clamped(a: u32, b: u32) -> (r: u32)
    ensures
        r as int == clamp_u32(a as int * b as int),
{
    proof {
        assert((a as int) * (b as int) <= u64::MAX as int) by (nonlinear_arith)
            requires
                a as int <= u32::MAX as int,
                b as int <= u32::MAX as int,
        ;
    }
    let p: u64 = (a as u64) * (b as u64);
    if p > (u32::MAX as u64) {
        u32::MAX
    } else {
        p as u32
    }
}

/// The projection of one member view to responder terms.
pub open spec fn member_project<ID: Identity>(m: QuorumSetMemberView<ID::V>) -> QuorumSetMemberView<
    Seq<char>,
>
    decreases m,
{
    match m {
        QuorumSetMemberView::Node(v) => QuorumSetMemberView::Node(ID::responder_view(v)),
        QuorumSetMemberView::InnerSet(q) => QuorumSetMemberView::InnerSet(
            QuorumSetView { threshold: q.threshold, members: members_project::<ID>(q.members) },
        ),
    }
}

/// The projection of a member-list view to responder terms.
pub open spec fn members_project<ID: Identity>(ms: Seq<QuorumSetMemberView<ID::V>>) -> Seq<
    QuorumSetMemberView<Seq<char>>,
>
    decreases ms,
{
    if ms.len() == 0 {
        Seq::empty()
    } else {
        members_project::<ID>(ms.drop_last()).push(member_project::<ID>(ms.last()))
    }
}

/// The structural projection of a quorum-set view to responder terms:
/// thresholds kept, every identity replaced by its responder view.
pub open spec fn qs_project<ID: Identity>(q: QuorumSetView<ID::V>) -> QuorumSetView<Seq<char>> {
    QuorumSetView { threshold: q.threshold, members: members_project::<ID>(q.members) }
}

/// `members_project` maps the list elementwise.
pub proof fn lemma_members_project_index<ID: Identity>(ms: Seq<QuorumSetMemberView<ID::V>>)
    ensures
        members_project::<ID>(ms).len() == ms.len(),
        forall|i: int|
            0 <= i < ms.len() ==> members_project::<ID>(ms)[i] == member_project::<ID>(ms[i]),
    decreases ms,
{
    if ms.len() > 0 {
        lemma_members_project_index::<ID>(ms.drop_last());
        assert forall|i: int| 0 <= i < ms.len() implies members_project::<ID>(ms)[i]
            == member_project::<ID>(ms[i]) by {
            if i < ms.len() - 1 {
                assert(ms.drop_last()[i] == ms[i]);
                assert(members_project::<ID>(ms)[i] == members_project::<ID>(ms.drop_last())[i]);
            } else {
                assert(ms.last() == ms[i]);
            }
        }
    }
}

/// The view of one element is in the nodes of the whole list.
proof fn lemma_members_nodes_elem<IDV>(ms: Seq<QuorumSetMemberView<IDV>>, j: int)
    requires
        0 <= j < ms.len(),
    ensures
        member_nodes(ms[j]).subset_of(members_nodes(ms)),
    decreases ms,
{
    if j < ms.len() - 1 {
        lemma_members_nodes_elem(ms.drop_last(), j);
        assert(ms.drop_last()[j] == ms[j]);
    } else {
        assert(ms.last() == ms[j]);
    }
}

/// A walk over members that never mention `id` yields the absent weight.
proof fn lemma_weight_walk_absent<IDV>(threshold: int, count: int, ms: Seq<QuorumSetMemberView<IDV>>, id: IDV)
    requires
        forall|j: int| 0 <= j < ms.len() ==> !member_nodes(ms[j]).contains(id),
    ensures
        weight_walk(threshold, count, ms, id) == (0int, 1int),
    decreases ms,
{
    if ms.len() > 0 {
        assert forall|j: int| 0 <= j < ms.drop_first().len() implies !member_nodes(
            ms.drop_first()[j],
        ).contains(id) by {
            assert(ms.drop_first()[j] == ms[j + 1]);
        }
        match ms[0] {
            QuorumSetMemberView::Node(v) => {
                assert(!member_nodes(ms[0]).contains(id));
                assert(v != id);
                lemma_weight_walk_absent(threshold, count, ms.drop_first(), id);
                assert(weight_walk(threshold, count, ms, id) == weight_walk(
                    threshold,
                    count,
                    ms.drop_first(),
                    id,
                ));
            },
            QuorumSetMemberView::InnerSet(q) => {
                assert forall|j: int| 0 <= j < q.members.len() implies !member_nodes(
                    q.members[j],
                ).contains(id) by {
                    lemma_members_nodes_elem(q.members, j);
                }
                lemma_weight_walk_absent(
                    q.threshold as int,
                    q.members.len() as int,
                    q.members,
                    id,
                );
                assert(qs_weight(q, id) == (0int, 1int));
                lemma_weight_walk_absent(threshold, count, ms.drop_first(), id);
                assert(weight_walk(threshold, count, ms, id) == weight_walk(
                    threshold,
                    count,
                    ms.drop_first(),
                    id,
                ));
            },
        }
    }
}

/// A walk is unchanged by skipping a prefix of members that never mention
/// `id`.
proof fn lemma_weight_walk_prefix<IDV>(
    threshold: int,
    count: int,
    ms: Seq<QuorumSetMemberView<IDV>>,
    id: IDV,
    i: int,
)
    requires
        0 <= i <= ms.len(),
        forall|j: int| 0 <= j < i ==> !member_nodes(ms[j]).contains(id),
    ensures
        weight_walk(threshold, count, ms, id) == weight_walk(threshold, count, ms.skip(i), id),
    decreases i,
{
    if i == 0 {
        assert(ms.skip(0) =~= ms);
    } else {
        match ms[0] {
            QuorumSetMemberView::Node(v) => {
                assert(!member_nodes(ms[0]).contains(id));
                assert(v != id);
            },
            QuorumSetMemberView::InnerSet(q) => {
                assert forall|j: int| 0 <= j < q.members.len() implies !member_nodes(
                    q.members[j],
                ).contains(id) by {
                    lemma_members_nodes_elem(q.members, j);
                }
                lemma_weight_walk_absent(
                    q.threshold as int,
                    q.members.len() as int,
                    q.members,
                    id,
                );
                assert(qs_weight(q, id) == (0int, 1int));
            },
        }
        assert(weight_walk(threshold, count, ms, id) == weight_walk(
            threshold,
            count,
            ms.drop_first(),
            id,
        ));
        assert forall|j: int| 0 <= j < i - 1 implies !member_nodes(ms.drop_first()[j]).contains(
            id,
        ) by {
            assert(ms.drop_first()[j] == ms[j + 1]);
        }
        lemma_weight_walk_prefix(threshold, count, ms.drop_first(), id, i - 1);
        assert(ms.drop_first().skip(i - 1) =~= ms.skip(i));
    }
}

/// The product of a sequence of integers.
pub open spec fn product(s: Seq<int>) -> int
    decreases s.len(),
{
    if s.len() == 0 {
        1
    } else {
        s[0] * product(s.drop_first())
    }
}

/// A linear chain of nested sets from `q` down to the identity `id`: level
/// `j` has threshold `ks[j]` (at least 1) and `ns[j]` members, the member at
/// position `ps[j]` carries the chain (the last level carries `id` itself),
/// and no other member anywhere mentions `id`.
pub open spec fn is_weight_chain<IDV>(
    q: QuorumSetView<IDV>,
    id: IDV,
    ks: Seq<int>,
    ns: Seq<int>,
    ps: Seq<int>,
) -> bool
    decreases q,
{
    &&& ks.len() >= 1
    &&& ns.len() == ks.len()
    &&& ps.len() == ks.len()
    &&& q.threshold as int == ks[0]
    &&& ks[0] >= 1
    &&& q.members.len() as int == ns[0]
    &&& 0 <= ps[0] < q.members.len()
    &&& (forall|j: int|
        0 <= j < q.members.len() && j != ps[0] ==> !member_nodes(q.members[j]).contains(id))
    &&& if ks.len() == 1 {
        q.members[ps[0]] == QuorumSetMemberView::Node(id)
    } else {
        q.members[ps[0]] is InnerSet && is_weight_chain(
            q.members[ps[0]]->InnerSet_0,
            id,
            ks.drop_first(),
            ns.drop_first(),
            ps.drop_first(),
        )
    }
}

/// Weight closed form: along a linear chain of nested sets with thresholds
/// `ks` and member counts `ns`, the weight of the identity at the bottom is
/// the unreduced fraction of the two products.
pub proof fn lemma_weight_chain<IDV>(
    q: QuorumSetView<IDV>,
    id: IDV,
    ks: Seq<int>,
    ns: Seq<int>,
    ps: Seq<int>,
)
    requires
        is_weight_chain(q, id, ks, ns, ps),
    ensures
        qs_weight(q, id) == (product(ks), product(ns)),
        qs_weight(q, id).0 >= 1,
    decreases q,
{
    let t = q.threshold as int;
    let n = q.members.len() as int;
    let i = ps[0];
    lemma_weight_walk_prefix(t, n, q.members, id, i);
    let suffix = q.members.skip(i);
    assert(suffix[0] == q.members[i]);
    if ks.len() == 1 {
        assert(weight_walk(t, n, suffix, id) == (t, n));
        assert(ks.drop_first().len() == 0 && ns.drop_first().len() == 0);
        assert(product(ks.drop_first()) == 1);
        assert(product(ns.drop_first()) == 1);
        assert(product(ks) == ks[0] * 1);
        assert(product(ns) == ns[0] * 1);
    } else {
        let q2 = q.members[i]->InnerSet_0;
        lemma_weight_chain(q2, id, ks.drop_first(), ns.drop_first(), ps.drop_first());
        assert(qs_weight(q2, id).0 > 0);
        assert(weight_walk(t, n, suffix, id) == (
            t * qs_weight(q2, id).0,
            n * qs_weight(q2, id).1,
        ));
        assert(product(ks) == ks[0] * product(ks.drop_first()));
        assert(product(ns) == ns[0] * product(ns.drop_first()));
        assert(ks[0] * product(ks.drop_first()) >= 1) by (nonlinear_arith)
            requires
                ks[0] >= 1,
                product(ks.drop_first()) >= 1,
        ;
    }
}

/// The nodes of a projected member are the projected nodes of the member.
proof fn lemma_member_nodes_project<ID: Identity>(m: QuorumSetMemberView<ID::V>)
    ensures
        member_nodes(member_project::<ID>(m)) == member_nodes(m).map(
            |v: ID::V| ID::responder_view(v),
        ),
    decreases m,
{
    let f = |v: ID::V| ID::responder_view(v);
    match m {
        QuorumSetMemberView::Node(v) => {
            assert forall|y: Seq<char>| member_nodes(m).map(f).contains(y) implies member_nodes(
                member_project::<ID>(m),
            ).contains(y) by {
                let a = choose|a: ID::V| member_nodes(m).contains(a) && f(a) == y;
                assert(a == v);
            }
            assert forall|y: Seq<char>|
                member_nodes(member_project::<ID>(m)).contains(y) implies member_nodes(m).map(
                f,
            ).contains(y) by {
                assert(member_nodes(m).contains(v) && f(v) == y);
            }
            assert(member_nodes(member_project::<ID>(m)) =~= member_nodes(m).map(f));
        },
        QuorumSetMemberView::InnerSet(q) => {
            lemma_members_nodes_project::<ID>(q.members);
        },
    }
}

/// The nodes of a projected member list are the projected nodes of the list.
proof fn lemma_members_nodes_project<ID: Identity>(ms: Seq<QuorumSetMemberView<ID::V>>)
    ensures
        members_nodes(members_project::<ID>(ms)) == members_nodes(ms).map(
            |v: ID::V| ID::responder_view(v),
        ),
    decreases ms,
{
    let f = |v: ID::V| ID::responder_view(v);
    if ms.len() == 0 {
        assert forall|y: Seq<char>| !members_nodes(ms).map(f).contains(y) by {
            if members_nodes(ms).map(f).contains(y) {
                let a = choose|a: ID::V| members_nodes(ms).contains(a) && f(a) == y;
            }
        }
        assert(members_nodes(members_project::<ID>(ms)) =~= members_nodes(ms).map(f));
    } else {
        lemma_members_nodes_project::<ID>(ms.drop_last());
        lemma_member_nodes_project::<ID>(ms.last());
        let pm = members_project::<ID>(ms);
        lemma_members_project_index::<ID>(ms);
        assert(pm.drop_last() =~= members_project::<ID>(ms.drop_last()));
        assert(pm.last() == member_project::<ID>(ms.last()));
        assert(members_nodes(pm) == members_nodes(pm.drop_last()) + member_nodes(pm.last()));
        members_nodes(ms.drop_last()).lemma_map_union_commute(member_nodes(ms.last()), f);
        assert(members_nodes(pm) =~= members_nodes(ms).map(f));
    }
}

/// Projection functoriality: the node set of a projected quorum set is the
/// projection of the node set.
pub proof fn lemma_project_nodes<ID: Identity>(q: QuorumSetView<ID::V>)
    ensures
        qs_nodes(qs_project::<ID>(q)) == qs_nodes(q).map(|v: ID::V| ID::responder_view(v)),
{
    lemma_members_nodes_project::<ID>(q.members);
}

impl<ID: Identity> QuorumSet<ID> {
    /// Create a new quorum set.
    pub fn new(threshold: u32, members: Vec<QuorumSetMember<ID>>) -> (r: Self)
        ensures
            r@ == (QuorumSetView { threshold: threshold as nat, members: members_view(members@) }),
    {
        Self { threshold, members }
    }

    /// Create a new quorum set whose members are the given nodes.
    pub fn new_with_node_ids(threshold: u32, node_ids: Vec<ID>) -> (r: Self)
        ensures
            r@.threshold == threshold as nat,
            r@.members.len() == node_ids@.len(),
            forall|i: int|
                0 <= i < node_ids@.len() ==> r@.members[i] == QuorumSetMemberView::Node(
                    node_ids@[i]@,
                ),
    {
        let ghost all = node_ids@;
        let mut rest = node_ids;
        let mut members: Vec<QuorumSetMember<ID>> = Vec::new();
        while rest.len() > 0
            invariant
                members@.len() + rest@.len() == all.len(),
                rest@ == all.skip(members@.len() as int),
                forall|i: int|
                    0 <= i < members@.len() ==> members@[i] == QuorumSetMember::Node(all[i]),
            decreases rest@.len(),
        {
            let id = rest.remove(0);
            members.push(QuorumSetMember::Node(id));
            proof {
                assert(rest@ =~= all.skip(members@.len() as int));
            }
        }
        let r = Self::new(threshold, members);
        proof {
            lemma_members_view_index(members@);
        }
        r
    }

    /// Create a new quorum set whose members are the given inner sets.
    pub fn new_with_inner_sets(threshold: u32, inner_sets: Vec<Self>) -> (r: Self)
        ensures
            r@.threshold == threshold as nat,
            r@.members.len() == inner_sets@.len(),
            forall|i: int|
                0 <= i < inner_sets@.len() ==> r@.members[i] == QuorumSetMemberView::InnerSet(
                    qs_view(inner_sets@[i]),
                ),
    {
        let ghost all = inner_sets@;
        let mut rest = inner_sets;
        let mut members: Vec<QuorumSetMember<ID>> = Vec::new();
        while rest.len() > 0
            invariant
                members@.len() + rest@.len() == all.len(),
                rest@ == all.skip(members@.len() as int),
                forall|i: int|
                    0 <= i < members@.len() ==> members@[i] == QuorumSetMember::InnerSet(all[i]),
            decreases rest@.len(),
        {
            let q = rest.remove(0);
            members.push(QuorumSetMember::InnerSet(q));
            proof {
                assert(rest@ =~= all.skip(members@.len() as int));
            }
        }
        let r = Self::new(threshold, members);
        proof {
            lemma_members_view_index(members@);
        }
        r
    }

    /// A quorum set with no members and a threshold of 0.
    pub fn empty() -> (r: Self)
        ensures
            r@.threshold == 0,
            r@.members.len() == 0,
    {
        Self { threshold: 0, members: Vec::new() }
    }

    /// Returns a flattened set of all nodes contained in this set and its
    /// nested sets.
    pub fn nodes(&self) -> (r: IdSet<ID>)
        ensures
            r@ == qs_nodes(self@),
        decreases *self,
    {
        let mut r = IdSet::<ID>::new();
        let mut i: usize = 0;
        proof {
            assert(self@.members.take(0) =~= Seq::<QuorumSetMemberView<ID::V>>::empty());
        }
        while i < self.members.len()
            invariant
                i <= self.members@.len(),
                r@ == members_nodes(self@.members.take(i as int)),
            decreases self.members@.len() - i,
        {
            let ghost prefix = self@.members.take(i as int);
            let m = &self.members[i];
            proof {
                lemma_members_view_index(self.members@);
                assert(self@.members.take(i + 1).drop_last() =~= prefix);
                assert(self@.members.take(i + 1).last() == member_view(self.members@[i as int]));
            }
            match m {
                QuorumSetMember::Node(id) => {
                    proof {
                        assert(self.members@[i as int] == QuorumSetMember::Node(*id));
                    }
                    r.insert(id.id_clone());
                    proof {
                        assert(member_view(self.members@[i as int])
                            == QuorumSetMemberView::Node(id@));
                        assert(members_nodes(self@.members.take(i + 1)) == members_nodes(prefix)
                            + member_nodes(QuorumSetMemberView::Node(id@)));
                        assert(member_nodes(QuorumSetMemberView::<ID::V>::Node(id@))
                            == Set::empty().insert(id@));
                        assert(r@ == members_nodes(prefix).insert(id@));
                        assert(r@ =~= members_nodes(self@.members.take(i + 1)));
                    }
                },
                QuorumSetMember::InnerSet(q) => {
                    proof {
                        assert(decreases_to!(*self => *q));
                        assert(self.members@[i as int] == QuorumSetMember::InnerSet(*q));
                    }
                    let inner = q.nodes();
                    r.merge(inner);
                    proof {
                        assert(member_view(self.members@[i as int])
                            == QuorumSetMemberView::InnerSet(qs_view(*q)));
                        assert(member_nodes(QuorumSetMemberView::InnerSet(qs_view(*q)))
                            == members_nodes(qs_view(*q).members));
                        assert(inner@ == members_nodes(qs_view(*q).members));
                        assert(r@ == members_nodes(prefix) + inner@);
                        assert(r@ =~= members_nodes(self@.members.take(i + 1)));
                    }
                },
            }
            i += 1;
        }
        proof {
            lemma_members_view_index(self.members@);
            assert(self@.members.take(self.members@.len() as int) =~= self@.members);
        }
        r
    }

    /// Gives the fraction of quorum slices containing the given node, as an
    /// unreduced `(numerator, denominator)` pair, `(0, 1)` when absent. It
    /// assumes that `node_id` appears at most once in the whole tree. Each
    /// component is the exact value cut off at `u32::MAX`.
    pub fn weight(&self, node_id: &ID) -> (r: (u32, u32))
        ensures
            r.0 as int == clamp_u32(qs_weight(self@, node_id@).0),
            r.1 as int == clamp_u32(qs_weight(self@, node_id@).1),
        decreases *self,
    {
        let ghost t = self.threshold as int;
        let ghost n = self@.members.len() as int;
        let ghost idv = node_id@;
        proof {
            lemma_members_view_index(self.members@);
            assert(self@.members.skip(0) =~= self@.members);
        }
        let count: u32 = if self.members.len() > (u32::MAX as usize) {
            u32::MAX
        } else {
            self.members.len() as u32
        };
        let mut i: usize = 0;
        while i < self.members.len()
            invariant
                i <= self.members@.len(),
                t == self.threshold as int,
                n == self@.members.len() as int,
                idv == node_id@,
                count as int == clamp_u32(n),
                weight_walk(t, n, self@.members.skip(i as int), idv) == weight_walk(
                    t,
                    n,
                    self@.members,
                    idv,
                ),
            decreases self.members@.len() - i,
        {
            let ghost suffix = self@.members.skip(i as int);
            let m = &self.members[i];
            proof {
                lemma_members_view_index(self.members@);
                assert(suffix[0] == self@.members[i as int]);
                assert(suffix.drop_first() =~= self@.members.skip(i + 1));
            }
            match m {
                QuorumSetMember::Node(id) => {
                    if id.id_eq(node_id) {
                        proof {
                            assert(weight_walk(t, n, suffix, idv) == (t, n));
                        }
                        return (self.threshold, count);
                    }
                },
                QuorumSetMember::InnerSet(q) => {
                    proof {
                        assert(decreases_to!(*self => *q));
                        lemma_qs_weight_bounds(qs_view(*q), idv);
                    }
                    let w2 = q.weight(node_id);
                    let ghost inner = qs_weight(qs_view(*q), idv);
                    if w2.0 > 0 {
                        proof {
                            assert(inner.0 > 0);
                            assert(weight_walk(t, n, suffix, idv) == (t * inner.0, n * inner.1));
                            lemma_weight_walk_bounds(t, n, self@.members, idv);
                            lemma_clamp_mul(t, inner.0);
                            lemma_clamp_mul(n, inner.1);
                        }
                        return (mul_clamped(self.threshold, w2.0), mul_clamped(count, w2.1));
                    }
                    proof {
                        assert(inner.0 == 0);
                    }
                },
            }
            i += 1;
        }
        proof {
            assert(self@.members.skip(self.members@.len() as int)
                =~= Seq::<QuorumSetMemberView<ID::V>>::empty());
        }
        (0, 1)
    }

    /// Translates this quorum set to responder terms: the same tree with every
    /// node identity replaced by its responder identity.
    pub fn project(&self) -> (r: QuorumSet<ResponderId>)
        ensures
            r@ == qs_project::<ID>(self@),
        decreases *self,
    {
        let mut members: Vec<QuorumSetMember<ResponderId>> = Vec::new();
        let mut i: usize = 0;
        while i < self.members.len()
            invariant
                i <= self.members@.len(),
                members_view(members@) == members_project::<ID>(self@.members.take(i as int)),
            decreases self.members@.len() - i,
        {
            let ghost prefix = self@.members.take(i as int);
            let m = &self.members[i];
            proof {
                lemma_members_view_index(self.members@);
                assert(self@.members.take(i + 1).drop_last() =~= prefix);
                assert(self@.members.take(i + 1).last() == member_view(self.members@[i as int]));
            }
            let nm: QuorumSetMember<ResponderId> = match m {
                QuorumSetMember::Node(id) => QuorumSetMember::Node(id.as_responder()),
                QuorumSetMember::InnerSet(q) => {
                    proof {
                        assert(decreases_to!(*self => *q));
                    }
                    QuorumSetMember::InnerSet(q.project())
                },
            };
            proof {
                assert(member_view(nm) == member_project::<ID>(member_view(
                    self.members@[i as int],
                )));
            }
            let ghost prev = members@;
            members.push(nm);
            proof {
                assert(members@.drop_last() =~= prev);
                assert(members_view(members@) == members_project::<ID>(self@.members.take(i + 1)));
            }
            i += 1;
        }
        proof {
            lemma_members_view_index(self.members@);
            assert(self@.members.take(self.members@.len() as int) =~= self@.members);
        }
        QuorumSet { threshold: self.threshold, members }
    }
}

} // verus!

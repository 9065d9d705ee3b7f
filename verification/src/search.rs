//! The two graph searches over quorum sets: blocking-set discovery and
//! quorum discovery.
//!
//! Each search walks the member list left to right, threading a monotone
//! predicate forward through every acceptance. The executable searches are
//! proved equal to spec-level mirrors, so the result is a function of the
//! inputs: the quorum set, the message map, and the predicate.

use vstd::prelude::*;
use crate::collections::IdSet;
use crate::identity::Identity;
use crate::msg::{MsgMap, MsgView};
use crate::predicates::{one_step_monotone, Predicate};
use crate::quorum_set::{
    lemma_members_view_index, member_view, members_view, qs_view, QuorumSet, QuorumSetMember,
    QuorumSetMemberView, QuorumSetView,
};

verus! {

/// The blocking-set walk over a member-list view. `needed` is the quota of
/// members still to cover; covered node identities gather in `acc`. A failed
/// walk returns the empty set and the predicate that entered it.
pub open spec fn spec_blocking<V, ID: Identity, P: Predicate<V, ID>>(
    needed: int,
    ms: Seq<QuorumSetMemberView<ID::V>>,
    msgs: Map<ID::V, MsgView<V, ID::V>>,
    pred: P,
    acc: Set<ID::V>,
) -> (Set<ID::V>, P)
    decreases ms,
{
    if needed <= 0 {
        (acc, pred)
    } else if needed > ms.len() {
        (Set::<ID::V>::empty(), pred)
    } else {
        match ms[0] {
            QuorumSetMemberView::Node(v) => {
                if msgs.dom().contains(v) && pred.accepts(msgs[v]) {
                    let rec = spec_blocking(
                        needed - 1,
                        ms.drop_first(),
                        msgs,
                        pred.refined(msgs[v]),
                        acc.insert(v),
                    );
                    if rec.0 == Set::<ID::V>::empty() {
                        (Set::<ID::V>::empty(), pred)
                    } else {
                        rec
                    }
                } else {
                    spec_blocking(needed, ms.drop_first(), msgs, pred, acc)
                }
            },
            QuorumSetMemberView::InnerSet(q) => {
                if 1 <= q.threshold <= q.members.len() {
                    let inner = spec_blocking(
                        q.members.len() - q.threshold + 1,
                        q.members,
                        msgs,
                        pred,
                        acc,
                    );
                    if inner.0 != Set::<ID::V>::empty() {
                        let rec = spec_blocking(needed - 1, ms.drop_first(), msgs, inner.1, inner.0);
                        if rec.0 == Set::<ID::V>::empty() {
                            (Set::<ID::V>::empty(), pred)
                        } else {
                            rec
                        }
                    } else {
                        spec_blocking(needed, ms.drop_first(), msgs, pred, acc)
                    }
                } else {
                    // a member whose threshold is 0 or exceeds its size can never be covered
                    spec_blocking(needed, ms.drop_first(), msgs, pred, acc)
                }
            },
        }
    }
}

/// What `findBlockingSet` returns: the blocking-set walk over the whole set
/// with quota `|members| - threshold + 1` and an empty accumulator.
pub open spec fn spec_find_blocking_set<V, ID: Identity, P: Predicate<V, ID>>(
    q: QuorumSetView<ID::V>,
    msgs: Map<ID::V, MsgView<V, ID::V>>,
    pred: P,
) -> (Set<ID::V>, P) {
    spec_blocking(
        q.members.len() - q.threshold + 1,
        q.members,
        msgs,
        pred,
        Set::<ID::V>::empty(),
    )
}

/// A failed blocking walk hands back the predicate unchanged; a successful
/// one only grows the accumulator.
pub proof fn lemma_blocking_props<V, ID: Identity, P: Predicate<V, ID>>(
    needed: int,
    ms: Seq<QuorumSetMemberView<ID::V>>,
    msgs: Map<ID::V, MsgView<V, ID::V>>,
    pred: P,
    acc: Set<ID::V>,
)
    ensures
        ({
            let r = spec_blocking(needed, ms, msgs, pred, acc);
            &&& (r.0 == Set::<ID::V>::empty() ==> r.1 == pred)
            &&& (r.0 != Set::<ID::V>::empty() ==> acc.subset_of(r.0))
        }),
    decreases ms,
{
    let r = spec_blocking(needed, ms, msgs, pred, acc);
    if needed <= 0 || needed > ms.len() {
    } else {
        match ms[0] {
            QuorumSetMemberView::Node(v) => {
                if msgs.dom().contains(v) && pred.accepts(msgs[v]) {
                    lemma_blocking_props(
                        needed - 1,
                        ms.drop_first(),
                        msgs,
                        pred.refined(msgs[v]),
                        acc.insert(v),
                    );
                } else {
                    lemma_blocking_props(needed, ms.drop_first(), msgs, pred, acc);
                }
            },
            QuorumSetMemberView::InnerSet(q) => {
                if 1 <= q.threshold <= q.members.len() {
                    lemma_blocking_props(
                        q.members.len() - q.threshold + 1,
                        q.members,
                        msgs,
                        pred,
                        acc,
                    );
                    let inner = spec_blocking(
                        q.members.len() - q.threshold + 1,
                        q.members,
                        msgs,
                        pred,
                        acc,
                    );
                    if inner.0 != Set::<ID::V>::empty() {
                        lemma_blocking_props(needed - 1, ms.drop_first(), msgs, inner.1, inner.0);
                    } else {
                        lemma_blocking_props(needed, ms.drop_first(), msgs, pred, acc);
                    }
                } else {
                    lemma_blocking_props(needed, ms.drop_first(), msgs, pred, acc);
                }
            },
        }
    }
}

/// The quorum walk over a member-list view. `threshold` is the number of
/// members still to satisfy; `acc` holds the local node and every node whose
/// own slice requirement the walk has already satisfied. A failed walk
/// returns the empty set and the predicate that entered it.
///
/// The comparisons of `msgs.dom().difference(..)` sizes merely witness that
/// the accumulator only grows, which bounds the recursion;
/// [`lemma_quorum_props`] shows they always hold.
pub open spec fn spec_quorum<V, ID: Identity, P: Predicate<V, ID>>(
    threshold: int,
    ms: Seq<QuorumSetMemberView<ID::V>>,
    msgs: Map<ID::V, MsgView<V, ID::V>>,
    pred: P,
    acc: Set<ID::V>,
) -> (Set<ID::V>, P)
    decreases msgs.dom().difference(acc).len(), ms,
{
    if threshold <= 0 {
        (acc, pred)
    } else if threshold > ms.len() {
        (Set::<ID::V>::empty(), pred)
    } else {
        match ms[0] {
            QuorumSetMemberView::Node(v) => {
                if acc.contains(v) {
                    spec_quorum(threshold - 1, ms.drop_first(), msgs, pred, acc)
                } else if msgs.dom().contains(v) && pred.accepts(msgs[v]) && msgs.dom().difference(
                    acc.insert(v),
                ).len() < msgs.dom().difference(acc).len() {
                    let rec = spec_quorum(
                        msgs[v].quorum_set.threshold as int,
                        msgs[v].quorum_set.members,
                        msgs,
                        pred.refined(msgs[v]),
                        acc.insert(v),
                    );
                    if rec.0 != Set::<ID::V>::empty() && msgs.dom().difference(rec.0).len()
                        <= msgs.dom().difference(acc).len() {
                        let rec2 = spec_quorum(threshold - 1, ms.drop_first(), msgs, rec.1, rec.0);
                        if rec2.0 == Set::<ID::V>::empty() {
                            (Set::<ID::V>::empty(), pred)
                        } else {
                            rec2
                        }
                    } else {
                        spec_quorum(threshold, ms.drop_first(), msgs, pred, acc)
                    }
                } else {
                    spec_quorum(threshold, ms.drop_first(), msgs, pred, acc)
                }
            },
            QuorumSetMemberView::InnerSet(q) => {
                let rec = spec_quorum(q.threshold as int, q.members, msgs, pred, acc);
                if rec.0 != Set::<ID::V>::empty() && msgs.dom().difference(rec.0).len()
                    <= msgs.dom().difference(acc).len() {
                    let rec2 = spec_quorum(threshold - 1, ms.drop_first(), msgs, rec.1, rec.0);
                    if rec2.0 == Set::<ID::V>::empty() {
                        (Set::<ID::V>::empty(), pred)
                    } else {
                        rec2
                    }
                } else {
                    spec_quorum(threshold, ms.drop_first(), msgs, pred, acc)
                }
            },
        }
    }
}

/// What `findQuorum` returns: the quorum walk over the whole set, with the
/// local node already in the accumulator.
pub open spec fn spec_find_quorum<V, ID: Identity, P: Predicate<V, ID>>(
    q: QuorumSetView<ID::V>,
    node_id: ID::V,
    msgs: Map<ID::V, MsgView<V, ID::V>>,
    pred: P,
) -> (Set<ID::V>, P) {
    spec_quorum(
        q.threshold as int,
        q.members,
        msgs,
        pred,
        Set::<ID::V>::empty().insert(node_id),
    )
}

/// A failed quorum walk hands back the predicate unchanged; a successful one
/// only grows the accumulator, stays inside `acc + msgs.dom()`, and stays
/// finite. In particular the size comparisons written into [`spec_quorum`]
/// always hold.
pub proof fn lemma_quorum_props<V, ID: Identity, P: Predicate<V, ID>>(
    threshold: int,
    ms: Seq<QuorumSetMemberView<ID::V>>,
    msgs: Map<ID::V, MsgView<V, ID::V>>,
    pred: P,
    acc: Set<ID::V>,
)
    requires
        acc.finite(),
        msgs.dom().finite(),
    ensures
        ({
            let r = spec_quorum(threshold, ms, msgs, pred, acc);
            &&& (r.0 == Set::<ID::V>::empty() ==> r.1 == pred)
            &&& (r.0 != Set::<ID::V>::empty() ==> acc.subset_of(r.0) && r.0.subset_of(
                acc + msgs.dom(),
            ) && r.0.finite())
        }),
    decreases msgs.dom().difference(acc).len(), ms,
{
    if threshold <= 0 || threshold > ms.len() {
    } else {
        match ms[0] {
            QuorumSetMemberView::Node(v) => {
                if acc.contains(v) {
                    lemma_quorum_props(threshold - 1, ms.drop_first(), msgs, pred, acc);
                } else if msgs.dom().contains(v) && pred.accepts(msgs[v]) {
                    assert(msgs.dom().difference(acc.insert(v)) =~= msgs.dom().difference(
                        acc,
                    ).remove(v));
                    assert(msgs.dom().difference(acc).contains(v));
                    lemma_quorum_props(
                        msgs[v].quorum_set.threshold as int,
                        msgs[v].quorum_set.members,
                        msgs,
                        pred.refined(msgs[v]),
                        acc.insert(v),
                    );
                    let rec = spec_quorum(
                        msgs[v].quorum_set.threshold as int,
                        msgs[v].quorum_set.members,
                        msgs,
                        pred.refined(msgs[v]),
                        acc.insert(v),
                    );
                    if rec.0 != Set::<ID::V>::empty() {
                        assert(msgs.dom().difference(rec.0).subset_of(
                            msgs.dom().difference(acc),
                        ));
                        vstd::set_lib::lemma_len_subset(
                            msgs.dom().difference(rec.0),
                            msgs.dom().difference(acc),
                        );
                        assert(rec.0.subset_of(acc + msgs.dom()));
                        lemma_quorum_props(threshold - 1, ms.drop_first(), msgs, rec.1, rec.0);
                    } else {
                        lemma_quorum_props(threshold, ms.drop_first(), msgs, pred, acc);
                    }
                } else {
                    lemma_quorum_props(threshold, ms.drop_first(), msgs, pred, acc);
                }
            },
            QuorumSetMemberView::InnerSet(q) => {
                lemma_quorum_props(q.threshold as int, q.members, msgs, pred, acc);
                let rec = spec_quorum(q.threshold as int, q.members, msgs, pred, acc);
                if rec.0 != Set::<ID::V>::empty() {
                    assert(msgs.dom().difference(rec.0).subset_of(msgs.dom().difference(acc)));
                    vstd::set_lib::lemma_len_subset(
                        msgs.dom().difference(rec.0),
                        msgs.dom().difference(acc),
                    );
                    lemma_quorum_props(threshold - 1, ms.drop_first(), msgs, rec.1, rec.0);
                } else {
                    lemma_quorum_props(threshold, ms.drop_first(), msgs, pred, acc);
                }
            },
        }
    }
}

/// Whether the identity set `s` covers a member: a node by containing it, an
/// inner set by covering at least `n - k + 1` of its members in turn.
pub open spec fn member_covered<IDV>(m: QuorumSetMemberView<IDV>, s: Set<IDV>) -> bool
    decreases m,
{
    match m {
        QuorumSetMemberView::Node(v) => s.contains(v),
        QuorumSetMemberView::InnerSet(q) => count_covered(q.members, s) >= q.members.len()
            - q.threshold + 1,
    }
}

/// How many members of `ms` the identity set `s` covers.
pub open spec fn count_covered<IDV>(ms: Seq<QuorumSetMemberView<IDV>>, s: Set<IDV>) -> int
    decreases ms,
{
    if ms.len() == 0 {
        0
    } else {
        (if member_covered(ms[0], s) {
            1int
        } else {
            0int
        }) + count_covered(ms.drop_first(), s)
    }
}

/// A blocking set for `q`: it covers at least `n - k + 1` of the members, so
/// no slice of `q` can avoid it.
pub open spec fn is_blocking_set<IDV>(s: Set<IDV>, q: QuorumSetView<IDV>) -> bool {
    count_covered(q.members, s) >= q.members.len() - q.threshold + 1
}

proof fn lemma_count_covered_nonneg<IDV>(ms: Seq<QuorumSetMemberView<IDV>>, s: Set<IDV>)
    ensures
        count_covered(ms, s) >= 0,
    decreases ms,
{
    if ms.len() > 0 {
        lemma_count_covered_nonneg(ms.drop_first(), s);
    }
}

proof fn lemma_member_covered_monotone<IDV>(m: QuorumSetMemberView<IDV>, s: Set<IDV>, t: Set<IDV>)
    requires
        s.subset_of(t),
        member_covered(m, s),
    ensures
        member_covered(m, t),
    decreases m,
{
    match m {
        QuorumSetMemberView::Node(_) => {}
        QuorumSetMemberView::InnerSet(q) => {
            lemma_count_covered_monotone(q.members, s, t);
        }
    }
}

proof fn lemma_count_covered_monotone<IDV>(
    ms: Seq<QuorumSetMemberView<IDV>>,
    s: Set<IDV>,
    t: Set<IDV>,
)
    requires
        s.subset_of(t),
    ensures
        count_covered(ms, s) <= count_covered(ms, t),
    decreases ms,
{
    if ms.len() > 0 {
        if member_covered(ms[0], s) {
            lemma_member_covered_monotone(ms[0], s, t);
        }
        lemma_count_covered_monotone(ms.drop_first(), s, t);
    }
}

/// A non-empty blocking walk covers at least `needed` of the members walked.
proof fn lemma_blocking_covers<V, ID: Identity, P: Predicate<V, ID>>(
    needed: int,
    ms: Seq<QuorumSetMemberView<ID::V>>,
    msgs: Map<ID::V, MsgView<V, ID::V>>,
    pred: P,
    acc: Set<ID::V>,
)
    ensures
        ({
            let r = spec_blocking(needed, ms, msgs, pred, acc);
            r.0 != Set::<ID::V>::empty() ==> count_covered(ms, r.0) >= needed
        }),
    decreases ms,
{
    let r = spec_blocking(needed, ms, msgs, pred, acc);
    lemma_count_covered_nonneg(ms, r.0);
    if needed <= 0 || needed > ms.len() {
    } else {
        match ms[0] {
            QuorumSetMemberView::Node(v) => {
                if msgs.dom().contains(v) && pred.accepts(msgs[v]) {
                    let p1 = pred.refined(msgs[v]);
                    let rec = spec_blocking(needed - 1, ms.drop_first(), msgs, p1, acc.insert(v));
                    lemma_blocking_covers(needed - 1, ms.drop_first(), msgs, p1, acc.insert(v));
                    lemma_blocking_props(needed - 1, ms.drop_first(), msgs, p1, acc.insert(v));
                    if rec.0 != Set::<ID::V>::empty() {
                        assert(rec.0.contains(v));
                        assert(member_covered(ms[0], rec.0));
                        assert(count_covered(ms, rec.0) == (if member_covered(ms[0], rec.0) {
                            1int
                        } else {
                            0int
                        }) + count_covered(ms.drop_first(), rec.0));
                        assert(count_covered(ms, r.0) >= needed);
                    }
                } else {
                    lemma_blocking_covers(needed, ms.drop_first(), msgs, pred, acc);
                    assert(r.0 != Set::<ID::V>::empty() ==> count_covered(ms, r.0) >= needed);
                }
            },
            QuorumSetMemberView::InnerSet(q) => {
                if 1 <= q.threshold <= q.members.len() {
                    let quota = q.members.len() - q.threshold + 1;
                    let inner = spec_blocking(quota, q.members, msgs, pred, acc);
                    lemma_blocking_covers(quota, q.members, msgs, pred, acc);
                    if inner.0 != Set::<ID::V>::empty() {
                        let rec = spec_blocking(needed - 1, ms.drop_first(), msgs, inner.1, inner.0);
                        lemma_blocking_covers(needed - 1, ms.drop_first(), msgs, inner.1, inner.0);
                        lemma_blocking_props(needed - 1, ms.drop_first(), msgs, inner.1, inner.0);
                        if rec.0 != Set::<ID::V>::empty() {
                            lemma_count_covered_monotone(q.members, inner.0, rec.0);
                            assert(member_covered(ms[0], rec.0));
                        }
                    } else {
                        lemma_blocking_covers(needed, ms.drop_first(), msgs, pred, acc);
                    }
                } else {
                    lemma_blocking_covers(needed, ms.drop_first(), msgs, pred, acc);
                }
            },
        }
    }
}

/// Empty-set stability of the blocking search: when nothing is found, the
/// predicate passed in comes back untouched.
pub proof fn lemma_find_blocking_set_empty_stability<V, ID: Identity, P: Predicate<V, ID>>(
    q: QuorumSetView<ID::V>,
    msgs: Map<ID::V, MsgView<V, ID::V>>,
    pred: P,
)
    ensures
        ({
            let r = spec_find_blocking_set::<V, ID, P>(q, msgs, pred);
            r.0 == Set::<ID::V>::empty() ==> r.1 == pred
        }),
{
    lemma_blocking_props(
        q.members.len() - q.threshold + 1,
        q.members,
        msgs,
        pred,
        Set::<ID::V>::empty(),
    );
}

/// Threshold soundness of the blocking search: a non-empty result is a
/// blocking set, covering at least `n - k + 1` of the immediate members.
pub proof fn lemma_find_blocking_set_threshold<V, ID: Identity, P: Predicate<V, ID>>(
    q: QuorumSetView<ID::V>,
    msgs: Map<ID::V, MsgView<V, ID::V>>,
    pred: P,
)
    ensures
        ({
            let r = spec_find_blocking_set::<V, ID, P>(q, msgs, pred);
            r.0 != Set::<ID::V>::empty() ==> is_blocking_set(r.0, q)
        }),
{
    lemma_blocking_covers(
        q.members.len() - q.threshold + 1,
        q.members,
        msgs,
        pred,
        Set::<ID::V>::empty(),
    );
}

/// A blocking walk under a one-step-monotone predicate type: the returned
/// predicate is at least as strict as the one passed in, and every identity
/// the walk added was accepted by the predicate passed in.
proof fn lemma_blocking_respects<V, ID: Identity, P: Predicate<V, ID>>(
    needed: int,
    ms: Seq<QuorumSetMemberView<ID::V>>,
    msgs: Map<ID::V, MsgView<V, ID::V>>,
    pred: P,
    acc: Set<ID::V>,
)
    requires
        one_step_monotone::<V, ID, P>(),
    ensures
        ({
            let r = spec_blocking(needed, ms, msgs, pred, acc);
            &&& (forall|m: MsgView<V, ID::V>| #[trigger] r.1.accepts(m) ==> pred.accepts(m))
            &&& (forall|v: ID::V|
                #![trigger r.0.contains(v)]
                r.0.contains(v) && !acc.contains(v) ==> msgs.dom().contains(v) && pred.accepts(
                    msgs[v],
                ))
        }),
    decreases ms,
{
    let r = spec_blocking(needed, ms, msgs, pred, acc);
    if needed <= 0 || needed > ms.len() {
    } else {
        match ms[0] {
            QuorumSetMemberView::Node(v) => {
                if msgs.dom().contains(v) && pred.accepts(msgs[v]) {
                    let p1 = pred.refined(msgs[v]);
                    lemma_blocking_respects(needed - 1, ms.drop_first(), msgs, p1, acc.insert(v));
                    let rec = spec_blocking(needed - 1, ms.drop_first(), msgs, p1, acc.insert(v));
                    if rec.0 == Set::<ID::V>::empty() {
                        assert(r == (Set::<ID::V>::empty(), pred));
                    } else {
                        assert(r == rec);
                        assert forall|m: MsgView<V, ID::V>| #[trigger] r.1.accepts(m) implies
                            pred.accepts(m) by {
                            assert(rec.1.accepts(m));
                            assert(p1.accepts(m) ==> pred.accepts(m));
                        }
                        assert forall|w: ID::V|
                            #![trigger r.0.contains(w)]
                            r.0.contains(w) && !acc.contains(w) implies msgs.dom().contains(w)
                            && pred.accepts(msgs[w]) by {
                            assert(rec.0.contains(w));
                            if w != v {
                                assert(!acc.insert(v).contains(w));
                                assert(p1.accepts(msgs[w]) ==> pred.accepts(msgs[w]));
                            }
                        }
                    }
                } else {
                    lemma_blocking_respects(needed, ms.drop_first(), msgs, pred, acc);
                    let rec = spec_blocking(needed, ms.drop_first(), msgs, pred, acc);
                    assert(r == rec);
                    assert forall|m: MsgView<V, ID::V>| #[trigger] r.1.accepts(m) implies
                        pred.accepts(m) by {
                        assert(rec.1.accepts(m));
                    }
                    assert forall|w: ID::V|
                        #![trigger r.0.contains(w)]
                        r.0.contains(w) && !acc.contains(w) implies msgs.dom().contains(w)
                        && pred.accepts(msgs[w]) by {
                        assert(rec.0.contains(w));
                    }
                }
            },
            QuorumSetMemberView::InnerSet(q) => {
                if 1 <= q.threshold <= q.members.len() {
                    let quota = q.members.len() - q.threshold + 1;
                    lemma_blocking_respects(quota, q.members, msgs, pred, acc);
                    let inner = spec_blocking(quota, q.members, msgs, pred, acc);
                    if inner.0 != Set::<ID::V>::empty() {
                        lemma_blocking_respects(
                            needed - 1,
                            ms.drop_first(),
                            msgs,
                            inner.1,
                            inner.0,
                        );
                        let rec = spec_blocking(needed - 1, ms.drop_first(), msgs, inner.1, inner.0);
                        if rec.0 == Set::<ID::V>::empty() {
                            assert(r == (Set::<ID::V>::empty(), pred));
                        } else {
                            assert(r == rec);
                            assert forall|m: MsgView<V, ID::V>| #[trigger] r.1.accepts(m) implies
                                pred.accepts(m) by {
                                assert(rec.1.accepts(m));
                                assert(inner.1.accepts(m));
                            }
                            assert forall|w: ID::V|
                                #![trigger r.0.contains(w)]
                                r.0.contains(w) && !acc.contains(w) implies msgs.dom().contains(w)
                                && pred.accepts(msgs[w]) by {
                                assert(rec.0.contains(w));
                                if inner.0.contains(w) {
                                    assert(inner.0.contains(w) && !acc.contains(w));
                                } else {
                                    assert(inner.1.accepts(msgs[w]) ==> pred.accepts(msgs[w]));
                                }
                            }
                        }
                    } else {
                        lemma_blocking_respects(needed, ms.drop_first(), msgs, pred, acc);
                        let rec = spec_blocking(needed, ms.drop_first(), msgs, pred, acc);
                        assert(r == rec);
                        assert forall|m: MsgView<V, ID::V>| #[trigger] r.1.accepts(m) implies
                            pred.accepts(m) by {
                            assert(rec.1.accepts(m));
                        }
                        assert forall|w: ID::V|
                            #![trigger r.0.contains(w)]
                            r.0.contains(w) && !acc.contains(w) implies msgs.dom().contains(w)
                            && pred.accepts(msgs[w]) by {
                            assert(rec.0.contains(w));
                        }
                    }
                } else {
                    lemma_blocking_respects(needed, ms.drop_first(), msgs, pred, acc);
                    let rec = spec_blocking(needed, ms.drop_first(), msgs, pred, acc);
                    assert(r == rec);
                    assert forall|m: MsgView<V, ID::V>| #[trigger] r.1.accepts(m) implies
                        pred.accepts(m) by {
                        assert(rec.1.accepts(m));
                    }
                    assert forall|w: ID::V|
                        #![trigger r.0.contains(w)]
                        r.0.contains(w) && !acc.contains(w) implies msgs.dom().contains(w)
                        && pred.accepts(msgs[w]) by {
                        assert(rec.0.contains(w));
                    }
                }
            },
        }
    }
}

/// Predicate-monotonicity respect of the blocking search: under a one-step
/// monotone predicate type, every identity in a non-empty result sent a
/// message that the predicate passed in accepts.
pub proof fn lemma_find_blocking_set_respects<V, ID: Identity, P: Predicate<V, ID>>(
    q: QuorumSetView<ID::V>,
    msgs: Map<ID::V, MsgView<V, ID::V>>,
    pred: P,
)
    requires
        one_step_monotone::<V, ID, P>(),
    ensures
        ({
            let r = spec_find_blocking_set::<V, ID, P>(q, msgs, pred);
            forall|v: ID::V|
                #![trigger r.0.contains(v)]
                r.0.contains(v) ==> msgs.dom().contains(v) && pred.accepts(msgs[v])
        }),
{
    lemma_blocking_respects(
        q.members.len() - q.threshold + 1,
        q.members,
        msgs,
        pred,
        Set::<ID::V>::empty(),
    );
}

/// A quorum walk under a one-step-monotone predicate type: the returned
/// predicate is at least as strict as the one passed in, and every identity
/// the walk added was accepted by the predicate passed in.
proof fn lemma_quorum_respects<V, ID: Identity, P: Predicate<V, ID>>(
    threshold: int,
    ms: Seq<QuorumSetMemberView<ID::V>>,
    msgs: Map<ID::V, MsgView<V, ID::V>>,
    pred: P,
    acc: Set<ID::V>,
)
    requires
        one_step_monotone::<V, ID, P>(),
    ensures
        ({
            let r = spec_quorum(threshold, ms, msgs, pred, acc);
            &&& (forall|m: MsgView<V, ID::V>| #[trigger] r.1.accepts(m) ==> pred.accepts(m))
            &&& (forall|v: ID::V|
                #![trigger r.0.contains(v)]
                r.0.contains(v) && !acc.contains(v) ==> msgs.dom().contains(v) && pred.accepts(
                    msgs[v],
                ))
        }),
    decreases msgs.dom().difference(acc).len(), ms,
{
    let r = spec_quorum(threshold, ms, msgs, pred, acc);
    if threshold <= 0 || threshold > ms.len() {
    } else {
        match ms[0] {
            QuorumSetMemberView::Node(v) => {
                if acc.contains(v) {
                    lemma_quorum_respects(threshold - 1, ms.drop_first(), msgs, pred, acc);
                    let rec = spec_quorum(threshold - 1, ms.drop_first(), msgs, pred, acc);
                    assert(r == rec);
                    assert forall|m: MsgView<V, ID::V>| #[trigger] r.1.accepts(m) implies
                        pred.accepts(m) by {
                        assert(rec.1.accepts(m));
                    }
                    assert forall|w: ID::V|
                        #![trigger r.0.contains(w)]
                        r.0.contains(w) && !acc.contains(w) implies msgs.dom().contains(w)
                        && pred.accepts(msgs[w]) by {
                        assert(rec.0.contains(w));
                    }
                } else if msgs.dom().contains(v) && pred.accepts(msgs[v]) && msgs.dom().difference(
                    acc.insert(v),
                ).len() < msgs.dom().difference(acc).len() {
                    let p1 = pred.refined(msgs[v]);
                    lemma_quorum_respects(
                        msgs[v].quorum_set.threshold as int,
                        msgs[v].quorum_set.members,
                        msgs,
                        p1,
                        acc.insert(v),
                    );
                    let rec = spec_quorum(
                        msgs[v].quorum_set.threshold as int,
                        msgs[v].quorum_set.members,
                        msgs,
                        p1,
                        acc.insert(v),
                    );
                    if rec.0 != Set::<ID::V>::empty() && msgs.dom().difference(rec.0).len()
                        <= msgs.dom().difference(acc).len() {
                        lemma_quorum_respects(threshold - 1, ms.drop_first(), msgs, rec.1, rec.0);
                        let rec2 = spec_quorum(threshold - 1, ms.drop_first(), msgs, rec.1, rec.0);
                        if rec2.0 == Set::<ID::V>::empty() {
                            assert(r == (Set::<ID::V>::empty(), pred));
                        } else {
                            assert(r == rec2);
                            assert forall|m: MsgView<V, ID::V>| #[trigger] r.1.accepts(m) implies
                                pred.accepts(m) by {
                                assert(rec2.1.accepts(m));
                                assert(rec.1.accepts(m));
                                assert(p1.accepts(m) ==> pred.accepts(m));
                            }
                            assert forall|w: ID::V|
                                #![trigger r.0.contains(w)]
                                r.0.contains(w) && !acc.contains(w) implies msgs.dom().contains(w)
                                && pred.accepts(msgs[w]) by {
                                assert(rec2.0.contains(w));
                                if rec.0.contains(w) {
                                    if w != v {
                                        assert(!acc.insert(v).contains(w));
                                        assert(p1.accepts(msgs[w]) ==> pred.accepts(msgs[w]));
                                    }
                                } else {
                                    assert(rec.1.accepts(msgs[w]));
                                    assert(p1.accepts(msgs[w]) ==> pred.accepts(msgs[w]));
                                }
                            }
                        }
                    } else {
                        lemma_quorum_respects(threshold, ms.drop_first(), msgs, pred, acc);
                        let rec2 = spec_quorum(threshold, ms.drop_first(), msgs, pred, acc);
                        assert(r == rec2);
                        assert forall|m: MsgView<V, ID::V>| #[trigger] r.1.accepts(m) implies
                            pred.accepts(m) by {
                            assert(rec2.1.accepts(m));
                        }
                        assert forall|w: ID::V|
                            #![trigger r.0.contains(w)]
                            r.0.contains(w) && !acc.contains(w) implies msgs.dom().contains(w)
                            && pred.accepts(msgs[w]) by {
                            assert(rec2.0.contains(w));
                        }
                    }
                } else {
                    lemma_quorum_respects(threshold, ms.drop_first(), msgs, pred, acc);
                    let rec = spec_quorum(threshold, ms.drop_first(), msgs, pred, acc);
                    assert(r == rec);
                    assert forall|m: MsgView<V, ID::V>| #[trigger] r.1.accepts(m) implies
                        pred.accepts(m) by {
                        assert(rec.1.accepts(m));
                    }
                    assert forall|w: ID::V|
                        #![trigger r.0.contains(w)]
                        r.0.contains(w) && !acc.contains(w) implies msgs.dom().contains(w)
                        && pred.accepts(msgs[w]) by {
                        assert(rec.0.contains(w));
                    }
                }
            },
            QuorumSetMemberView::InnerSet(q) => {
                lemma_quorum_respects(q.threshold as int, q.members, msgs, pred, acc);
                let rec = spec_quorum(q.threshold as int, q.members, msgs, pred, acc);
                if rec.0 != Set::<ID::V>::empty() && msgs.dom().difference(rec.0).len()
                    <= msgs.dom().difference(acc).len() {
                    lemma_quorum_respects(threshold - 1, ms.drop_first(), msgs, rec.1, rec.0);
                    let rec2 = spec_quorum(threshold - 1, ms.drop_first(), msgs, rec.1, rec.0);
                    if rec2.0 == Set::<ID::V>::empty() {
                        assert(r == (Set::<ID::V>::empty(), pred));
                    } else {
                        assert(r == rec2);
                        assert forall|m: MsgView<V, ID::V>| #[trigger] r.1.accepts(m) implies
                            pred.accepts(m) by {
                            assert(rec2.1.accepts(m));
                            assert(rec.1.accepts(m));
                        }
                        assert forall|w: ID::V|
                            #![trigger r.0.contains(w)]
                            r.0.contains(w) && !acc.contains(w) implies msgs.dom().contains(w)
                            && pred.accepts(msgs[w]) by {
                            assert(rec2.0.contains(w));
                            if rec.0.contains(w) {
                                assert(rec.0.contains(w) && !acc.contains(w));
                            } else {
                                assert(rec.1.accepts(msgs[w]) ==> pred.accepts(msgs[w]));
                            }
                        }
                    }
                } else {
                    lemma_quorum_respects(threshold, ms.drop_first(), msgs, pred, acc);
                    let rec2 = spec_quorum(threshold, ms.drop_first(), msgs, pred, acc);
                    assert(r == rec2);
                    assert forall|m: MsgView<V, ID::V>| #[trigger] r.1.accepts(m) implies
                        pred.accepts(m) by {
                        assert(rec2.1.accepts(m));
                    }
                    assert forall|w: ID::V|
                        #![trigger r.0.contains(w)]
                        r.0.contains(w) && !acc.contains(w) implies msgs.dom().contains(w)
                        && pred.accepts(msgs[w]) by {
                        assert(rec2.0.contains(w));
                    }
                }
            },
        }
    }
}

/// Predicate-monotonicity respect of the quorum search: under a one-step
/// monotone predicate type, every identity in a non-empty result other than
/// the local node sent a message that the predicate passed in accepts.
pub proof fn lemma_find_quorum_respects<V, ID: Identity, P: Predicate<V, ID>>(
    q: QuorumSetView<ID::V>,
    node_id: ID::V,
    msgs: Map<ID::V, MsgView<V, ID::V>>,
    pred: P,
)
    requires
        one_step_monotone::<V, ID, P>(),
    ensures
        ({
            let r = spec_find_quorum::<V, ID, P>(q, node_id, msgs, pred);
            forall|v: ID::V|
                #![trigger r.0.contains(v)]
                r.0.contains(v) && v != node_id ==> msgs.dom().contains(v) && pred.accepts(msgs[v])
        }),
{
    lemma_quorum_respects(
        q.threshold as int,
        q.members,
        msgs,
        pred,
        Set::<ID::V>::empty().insert(node_id),
    );
}

/// Whether the identity set `s` satisfies a member: a node by containing it,
/// an inner set by containing one of its slices.
pub open spec fn member_satisfied<IDV>(m: QuorumSetMemberView<IDV>, s: Set<IDV>) -> bool
    decreases m,
{
    match m {
        QuorumSetMemberView::Node(v) => s.contains(v),
        QuorumSetMemberView::InnerSet(q) => count_satisfied(q.members, s) >= q.threshold,
    }
}

/// How many members of `ms` the identity set `s` satisfies.
pub open spec fn count_satisfied<IDV>(ms: Seq<QuorumSetMemberView<IDV>>, s: Set<IDV>) -> int
    decreases ms,
{
    if ms.len() == 0 {
        0
    } else {
        (if member_satisfied(ms[0], s) {
            1int
        } else {
            0int
        }) + count_satisfied(ms.drop_first(), s)
    }
}

/// `s` contains a slice of `q`: at least `threshold` of the members are
/// satisfied within `s`, each inner set recursively so.
pub open spec fn has_slice<IDV>(s: Set<IDV>, q: QuorumSetView<IDV>) -> bool {
    count_satisfied(q.members, s) >= q.threshold
}

proof fn lemma_member_satisfied_monotone<IDV>(m: QuorumSetMemberView<IDV>, s: Set<IDV>, t: Set<IDV>)
    requires
        s.subset_of(t),
        member_satisfied(m, s),
    ensures
        member_satisfied(m, t),
    decreases m,
{
    match m {
        QuorumSetMemberView::Node(_) => {}
        QuorumSetMemberView::InnerSet(q) => {
            lemma_count_satisfied_monotone(q.members, s, t);
        }
    }
}

proof fn lemma_count_satisfied_monotone<IDV>(
    ms: Seq<QuorumSetMemberView<IDV>>,
    s: Set<IDV>,
    t: Set<IDV>,
)
    requires
        s.subset_of(t),
    ensures
        count_satisfied(ms, s) <= count_satisfied(ms, t),
    decreases ms,
{
    if ms.len() > 0 {
        if member_satisfied(ms[0], s) {
            lemma_member_satisfied_monotone(ms[0], s, t);
        }
        lemma_count_satisfied_monotone(ms.drop_first(), s, t);
    }
}

proof fn lemma_count_satisfied_nonneg<IDV>(ms: Seq<QuorumSetMemberView<IDV>>, s: Set<IDV>)
    ensures
        count_satisfied(ms, s) >= 0,
    decreases ms,
{
    if ms.len() > 0 {
        lemma_count_satisfied_nonneg(ms.drop_first(), s);
    }
}

/// A non-empty quorum walk satisfies `threshold` of the members walked, and
/// every identity it added has a slice of its announced quorum set inside the
/// returned set.
proof fn lemma_quorum_closure<V, ID: Identity, P: Predicate<V, ID>>(
    threshold: int,
    ms: Seq<QuorumSetMemberView<ID::V>>,
    msgs: Map<ID::V, MsgView<V, ID::V>>,
    pred: P,
    acc: Set<ID::V>,
)
    requires
        acc.finite(),
        msgs.dom().finite(),
    ensures
        ({
            let r = spec_quorum(threshold, ms, msgs, pred, acc);
            r.0 != Set::<ID::V>::empty() ==> count_satisfied(ms, r.0) >= threshold && (forall|
                v: ID::V,
            |
                #![trigger r.0.contains(v)]
                r.0.contains(v) && !acc.contains(v) ==> msgs.dom().contains(v) && has_slice(
                    r.0,
                    msgs[v].quorum_set,
                ))
        }),
    decreases msgs.dom().difference(acc).len(), ms,
{
    let r = spec_quorum(threshold, ms, msgs, pred, acc);
    lemma_count_satisfied_nonneg(ms, r.0);
    if threshold <= 0 || threshold > ms.len() {
    } else {
        match ms[0] {
            QuorumSetMemberView::Node(v) => {
                if acc.contains(v) {
                    lemma_quorum_props(threshold - 1, ms.drop_first(), msgs, pred, acc);
                    lemma_quorum_closure(threshold - 1, ms.drop_first(), msgs, pred, acc);
                    let rec = spec_quorum(threshold - 1, ms.drop_first(), msgs, pred, acc);
                    assert(r == rec);
                    if r.0 != Set::<ID::V>::empty() {
                        assert(r.0.contains(v));
                        assert(member_satisfied(ms[0], r.0));
                        assert(count_satisfied(ms, r.0) == (if member_satisfied(ms[0], r.0) {
                            1int
                        } else {
                            0int
                        }) + count_satisfied(ms.drop_first(), r.0));
                    }
                } else if msgs.dom().contains(v) && pred.accepts(msgs[v]) && msgs.dom().difference(
                    acc.insert(v),
                ).len() < msgs.dom().difference(acc).len() {
                    let p1 = pred.refined(msgs[v]);
                    let tv = msgs[v].quorum_set.threshold as int;
                    let msv = msgs[v].quorum_set.members;
                    lemma_quorum_props(tv, msv, msgs, p1, acc.insert(v));
                    lemma_quorum_closure(tv, msv, msgs, p1, acc.insert(v));
                    let rec = spec_quorum(tv, msv, msgs, p1, acc.insert(v));
                    if rec.0 != Set::<ID::V>::empty() && msgs.dom().difference(rec.0).len()
                        <= msgs.dom().difference(acc).len() {
                        lemma_quorum_props(threshold - 1, ms.drop_first(), msgs, rec.1, rec.0);
                        lemma_quorum_closure(threshold - 1, ms.drop_first(), msgs, rec.1, rec.0);
                        let rec2 = spec_quorum(threshold - 1, ms.drop_first(), msgs, rec.1, rec.0);
                        if rec2.0 == Set::<ID::V>::empty() {
                            assert(r == (Set::<ID::V>::empty(), pred));
                        } else {
                            assert(r == rec2);
                            assert(acc.insert(v).subset_of(rec.0) && rec.0.subset_of(rec2.0));
                            assert(r.0.contains(v));
                            assert(member_satisfied(ms[0], r.0));
                            assert(count_satisfied(ms, r.0) == (if member_satisfied(ms[0], r.0) {
                                1int
                            } else {
                                0int
                            }) + count_satisfied(ms.drop_first(), r.0));
                            assert forall|w: ID::V|
                                #![trigger r.0.contains(w)]
                                r.0.contains(w) && !acc.contains(w) implies msgs.dom().contains(w)
                                && has_slice(r.0, msgs[w].quorum_set) by {
                                assert(rec2.0.contains(w));
                                if w == v {
                                    assert(count_satisfied(msv, rec.0) >= tv);
                                    lemma_count_satisfied_monotone(msv, rec.0, rec2.0);
                                } else if rec.0.contains(w) {
                                    assert(rec.0.contains(w) && !acc.insert(v).contains(w));
                                    lemma_count_satisfied_monotone(
                                        msgs[w].quorum_set.members,
                                        rec.0,
                                        rec2.0,
                                    );
                                } else {
                                    assert(rec2.0.contains(w) && !rec.0.contains(w));
                                }
                            }
                        }
                    } else {
                        lemma_quorum_closure(threshold, ms.drop_first(), msgs, pred, acc);
                        let rec2 = spec_quorum(threshold, ms.drop_first(), msgs, pred, acc);
                        assert(r == rec2);
                        if r.0 != Set::<ID::V>::empty() {
                            assert(count_satisfied(ms, r.0) == (if member_satisfied(ms[0], r.0) {
                                1int
                            } else {
                                0int
                            }) + count_satisfied(ms.drop_first(), r.0));
                        }
                    }
                } else {
                    lemma_quorum_closure(threshold, ms.drop_first(), msgs, pred, acc);
                    let rec2 = spec_quorum(threshold, ms.drop_first(), msgs, pred, acc);
                    assert(r == rec2);
                    if r.0 != Set::<ID::V>::empty() {
                        assert(count_satisfied(ms, r.0) == (if member_satisfied(ms[0], r.0) {
                            1int
                        } else {
                            0int
                        }) + count_satisfied(ms.drop_first(), r.0));
                    }
                }
            },
            QuorumSetMemberView::InnerSet(q) => {
                lemma_quorum_props(q.threshold as int, q.members, msgs, pred, acc);
                lemma_quorum_closure(q.threshold as int, q.members, msgs, pred, acc);
                let rec = spec_quorum(q.threshold as int, q.members, msgs, pred, acc);
                if rec.0 != Set::<ID::V>::empty() && msgs.dom().difference(rec.0).len()
                    <= msgs.dom().difference(acc).len() {
                    lemma_quorum_props(threshold - 1, ms.drop_first(), msgs, rec.1, rec.0);
                    lemma_quorum_closure(threshold - 1, ms.drop_first(), msgs, rec.1, rec.0);
                    let rec2 = spec_quorum(threshold - 1, ms.drop_first(), msgs, rec.1, rec.0);
                    if rec2.0 == Set::<ID::V>::empty() {
                        assert(r == (Set::<ID::V>::empty(), pred));
                    } else {
                        assert(r == rec2);
                        assert(acc.subset_of(rec.0) && rec.0.subset_of(rec2.0));
                        assert(count_satisfied(q.members, rec.0) >= q.threshold);
                        lemma_count_satisfied_monotone(q.members, rec.0, rec2.0);
                        assert(member_satisfied(ms[0], r.0));
                        assert(count_satisfied(ms, r.0) == (if member_satisfied(ms[0], r.0) {
                            1int
                        } else {
                            0int
                        }) + count_satisfied(ms.drop_first(), r.0));
                        assert forall|w: ID::V|
                            #![trigger r.0.contains(w)]
                            r.0.contains(w) && !acc.contains(w) implies msgs.dom().contains(w)
                            && has_slice(r.0, msgs[w].quorum_set) by {
                            assert(rec2.0.contains(w));
                            if rec.0.contains(w) {
                                assert(rec.0.contains(w) && !acc.contains(w));
                                lemma_count_satisfied_monotone(
                                    msgs[w].quorum_set.members,
                                    rec.0,
                                    rec2.0,
                                );
                            } else {
                                assert(rec2.0.contains(w) && !rec.0.contains(w));
                            }
                        }
                    }
                } else {
                    lemma_quorum_closure(threshold, ms.drop_first(), msgs, pred, acc);
                    let rec2 = spec_quorum(threshold, ms.drop_first(), msgs, pred, acc);
                    assert(r == rec2);
                    if r.0 != Set::<ID::V>::empty() {
                        assert(count_satisfied(ms, r.0) == (if member_satisfied(ms[0], r.0) {
                            1int
                        } else {
                            0int
                        }) + count_satisfied(ms.drop_first(), r.0));
                    }
                }
            },
        }
    }
}

/// Quorum slice closure: in a non-empty quorum result `U`, the local quorum
/// set has a slice inside `U`, and every other member `v` of `U` announced a
/// quorum set in `msgs` that has a slice inside `U`.
pub proof fn lemma_find_quorum_closure<V, ID: Identity, P: Predicate<V, ID>>(
    q: QuorumSetView<ID::V>,
    node_id: ID::V,
    msgs: Map<ID::V, MsgView<V, ID::V>>,
    pred: P,
)
    requires
        msgs.dom().finite(),
    ensures
        ({
            let r = spec_find_quorum::<V, ID, P>(q, node_id, msgs, pred);
            r.0 != Set::<ID::V>::empty() ==> has_slice(r.0, q) && (forall|v: ID::V|
                #![trigger r.0.contains(v)]
                r.0.contains(v) && v != node_id ==> msgs.dom().contains(v) && has_slice(
                    r.0,
                    msgs[v].quorum_set,
                ))
        }),
{
    let acc = Set::<ID::V>::empty().insert(node_id);
    lemma_quorum_closure(q.threshold as int, q.members, msgs, pred, acc);
}

impl<ID: Identity> QuorumSet<ID> {
    /// The walk behind `findBlockingSet`, over `members[from..]`.
    #[allow(non_snake_case)]
    fn findBlockingSetHelper<V, P: Predicate<V, ID>>(
        needed: usize,
        members: &Vec<QuorumSetMember<ID>>,
        from: usize,
        msgs: &MsgMap<V, ID>,
        pred: P,
        acc: IdSet<ID>,
    ) -> (r: (IdSet<ID>, P))
        requires
            from <= members@.len(),
        ensures
            ({
                let s = spec_blocking(
                    needed as int,
                    members_view(members@).skip(from as int),
                    msgs@,
                    pred,
                    acc@,
                );
                r.0@ == s.0 && r.1 == s.1
            }),
        decreases members_view(members@).skip(from as int),
    {
        let ghost msq = members_view(members@).skip(from as int);
        proof {
            lemma_members_view_index(members@);
        }
        if needed == 0 {
            return (acc, pred);
        }
        if needed > members.len() - from {
            return (IdSet::new(), pred);
        }
        let m = &members[from];
        proof {
            assert(msq[0] == member_view(members@[from as int]));
            assert(msq.drop_first() =~= members_view(members@).skip(from + 1));
            assert(decreases_to!(msq => msq.subrange(1, msq.len() as int)));
            assert(msq.drop_first() == msq.subrange(1, msq.len() as int));
        }
        match m {
            QuorumSetMember::Node(id) => {
                if let Some(msg) = msgs.get(id) {
                    if let Some(p1) = pred.test(msg) {
                        let mut acc2 = acc;
                        acc2.insert(id.id_clone());
                        let rec = Self::findBlockingSetHelper(
                            needed - 1,
                            members,
                            from + 1,
                            msgs,
                            p1,
                            acc2,
                        );
                        if rec.0.is_empty() {
                            return (rec.0, pred);
                        }
                        return rec;
                    }
                }
                Self::findBlockingSetHelper(needed, members, from + 1, msgs, pred, acc)
            },
            QuorumSetMember::InnerSet(q) => {
                proof {
                    assert(msq[0] == QuorumSetMemberView::InnerSet(qs_view(*q)));
                    lemma_members_view_index(q.members@);
                }
                if 1 <= q.threshold && (q.threshold as usize) <= q.members.len() {
                    let quota = q.members.len() - (q.threshold as usize) + 1;
                    proof {
                        assert(decreases_to!(msq => msq[0]));
                        assert(msq[0]->InnerSet_0 == qs_view(*q));
                        assert(decreases_to!(msq[0] => msq[0]->InnerSet_0));
                        assert(decreases_to!(qs_view(*q) => qs_view(*q).members));
                        assert(members_view(q.members@).skip(0) =~= qs_view(*q).members);
                    }
                    let inner = Self::findBlockingSetHelper(
                        quota,
                        &q.members,
                        0,
                        msgs,
                        pred.duplicate(),
                        acc.duplicate(),
                    );
                    if !inner.0.is_empty() {
                        let rec = Self::findBlockingSetHelper(
                            needed - 1,
                            members,
                            from + 1,
                            msgs,
                            inner.1,
                            inner.0,
                        );
                        if rec.0.is_empty() {
                            return (rec.0, pred);
                        }
                        return rec;
                    }
                    return Self::findBlockingSetHelper(needed, members, from + 1, msgs, pred, acc);
                }
                Self::findBlockingSetHelper(needed, members, from + 1, msgs, pred, acc)
            },
        }
    }

    /// Attempts to find a blocking set matching the given predicate: a set of
    /// nodes that covers at least `|members| - threshold + 1` of this set's
    /// members, assembled from the senders in `msgs` that the predicate
    /// (progressively refined) accepts.
    ///
    /// Returns the pair pinned by [`spec_find_blocking_set`]: the covering
    /// node identities with the refined predicate, or the empty set with the
    /// predicate passed in when no such cover exists.
    #[allow(non_snake_case)]
    pub fn findBlockingSet<V, P: Predicate<V, ID>>(&self, msgs: &MsgMap<V, ID>, pred: P) -> (r: (
        IdSet<ID>,
        P,
    ))
        ensures
            ({
                let s = spec_find_blocking_set::<V, ID, P>(self@, msgs@, pred);
                r.0@ == s.0 && r.1 == s.1
            }),
            r.0@ == Set::<ID::V>::empty() ==> r.1 == pred,
    {
        proof {
            lemma_members_view_index(self.members@);
            assert(members_view(self.members@).skip(0) =~= self@.members);
            lemma_find_blocking_set_empty_stability::<V, ID, P>(self@, msgs@, pred);
        }
        let n = self.members.len();
        if self.threshold == 0 || (self.threshold as usize) > n {
            return (IdSet::new(), pred);
        }
        let needed = n - (self.threshold as usize) + 1;
        Self::findBlockingSetHelper(needed, &self.members, 0, msgs, pred, IdSet::new())
    }

    /// The walk behind `findQuorum`, over `members[from..]`.
    #[allow(non_snake_case)]
    fn findQuorumHelper<V, P: Predicate<V, ID>>(
        threshold: usize,
        members: &Vec<QuorumSetMember<ID>>,
        from: usize,
        msgs: &MsgMap<V, ID>,
        pred: P,
        acc: IdSet<ID>,
    ) -> (r: (IdSet<ID>, P))
        requires
            from <= members@.len(),
        ensures
            ({
                let s = spec_quorum(
                    threshold as int,
                    members_view(members@).skip(from as int),
                    msgs@,
                    pred,
                    acc@,
                );
                r.0@ == s.0 && r.1 == s.1
            }),
        decreases msgs@.dom().difference(acc@).len(), members_view(members@).skip(from as int),
    {
        let ghost msq = members_view(members@).skip(from as int);
        proof {
            lemma_members_view_index(members@);
        }
        if threshold == 0 {
            return (acc, pred);
        }
        if threshold > members.len() - from {
            return (IdSet::new(), pred);
        }
        let m = &members[from];
        proof {
            assert(msq[0] == member_view(members@[from as int]));
            assert(msq.drop_first() =~= members_view(members@).skip(from + 1));
            assert(decreases_to!(msq => msq.subrange(1, msq.len() as int)));
            assert(msq.drop_first() == msq.subrange(1, msq.len() as int));
        }
        match m {
            QuorumSetMember::Node(id) => {
                if acc.contains(id) {
                    return Self::findQuorumHelper(threshold - 1, members, from + 1, msgs, pred, acc);
                }
                if let Some(msg) = msgs.get(id) {
                    if let Some(p1) = pred.test(msg) {
                        let mut acc2 = acc.duplicate();
                        acc2.insert(id.id_clone());
                        proof {
                            msgs.lemma_finite();
                            acc.lemma_finite();
                            assert(msgs@.dom().difference(acc2@) =~= msgs@.dom().difference(
                                acc@,
                            ).remove(id@));
                            assert(msgs@.dom().difference(acc@).contains(id@));
                            lemma_members_view_index(msg.quorum_set.members@);
                            assert(members_view(msg.quorum_set.members@).skip(0)
                                =~= msgs@[id@].quorum_set.members);
                        }
                        let rec = Self::findQuorumHelper(
                            msg.quorum_set.threshold as usize,
                            &msg.quorum_set.members,
                            0,
                            msgs,
                            p1,
                            acc2,
                        );
                        if !rec.0.is_empty() {
                            proof {
                                lemma_quorum_props(
                                    msgs@[id@].quorum_set.threshold as int,
                                    msgs@[id@].quorum_set.members,
                                    msgs@,
                                    pred.refined(msgs@[id@]),
                                    acc@.insert(id@),
                                );
                                assert(msgs@.dom().difference(rec.0@).subset_of(
                                    msgs@.dom().difference(acc@),
                                ));
                                vstd::set_lib::lemma_len_subset(
                                    msgs@.dom().difference(rec.0@),
                                    msgs@.dom().difference(acc@),
                                );
                            }
                            let rec2 = Self::findQuorumHelper(
                                threshold - 1,
                                members,
                                from + 1,
                                msgs,
                                rec.1,
                                rec.0,
                            );
                            if rec2.0.is_empty() {
                                return (rec2.0, pred);
                            }
                            return rec2;
                        }
                        return Self::findQuorumHelper(threshold, members, from + 1, msgs, pred, acc);
                    }
                }
                Self::findQuorumHelper(threshold, members, from + 1, msgs, pred, acc)
            },
            QuorumSetMember::InnerSet(q) => {
                proof {
                    assert(msq[0]->InnerSet_0 == qs_view(*q));
                    assert(decreases_to!(msq => msq[0]));
                    assert(decreases_to!(msq[0] => msq[0]->InnerSet_0));
                    assert(decreases_to!(qs_view(*q) => qs_view(*q).members));
                    assert(members_view(q.members@).skip(0) =~= qs_view(*q).members);
                    lemma_members_view_index(q.members@);
                }
                let rec = Self::findQuorumHelper(
                    q.threshold as usize,
                    &q.members,
                    0,
                    msgs,
                    pred.duplicate(),
                    acc.duplicate(),
                );
                if !rec.0.is_empty() {
                    proof {
                        msgs.lemma_finite();
                        acc.lemma_finite();
                        lemma_quorum_props(
                            qs_view(*q).threshold as int,
                            qs_view(*q).members,
                            msgs@,
                            pred,
                            acc@,
                        );
                        assert(msgs@.dom().difference(rec.0@).subset_of(
                            msgs@.dom().difference(acc@),
                        ));
                        vstd::set_lib::lemma_len_subset(
                            msgs@.dom().difference(rec.0@),
                            msgs@.dom().difference(acc@),
                        );
                    }
                    let rec2 = Self::findQuorumHelper(
                        threshold - 1,
                        members,
                        from + 1,
                        msgs,
                        rec.1,
                        rec.0,
                    );
                    if rec2.0.is_empty() {
                        return (rec2.0, pred);
                    }
                    return rec2;
                }
                Self::findQuorumHelper(threshold, members, from + 1, msgs, pred, acc)
            },
        }
    }

    /// Attempts to find a quorum containing the local node and matching the
    /// given predicate: a set `U` holding `node_id` such that, walking this
    /// quorum set and, recursively, the quorum sets announced in `msgs` by
    /// every node adopted along the way, each threshold is met by members of
    /// `U` whose messages the predicate (progressively refined) accepts.
    ///
    /// Returns the pair pinned by [`spec_find_quorum`]: a non-empty result
    /// always contains `node_id`; when no quorum exists, the empty set comes
    /// back with the predicate passed in.
    #[allow(non_snake_case)]
    pub fn findQuorum<V, P: Predicate<V, ID>>(
        &self,
        node_id: &ID,
        msgs: &MsgMap<V, ID>,
        pred: P,
    ) -> (r: (IdSet<ID>, P))
        ensures
            ({
                let s = spec_find_quorum::<V, ID, P>(self@, node_id@, msgs@, pred);
                r.0@ == s.0 && r.1 == s.1
            }),
            r.0@ != Set::<ID::V>::empty() ==> r.0@.contains(node_id@),
            r.0@ == Set::<ID::V>::empty() ==> r.1 == pred,
    {
        proof {
            lemma_members_view_index(self.members@);
            assert(members_view(self.members@).skip(0) =~= self@.members);
        }
        let mut acc = IdSet::new();
        acc.insert(node_id.id_clone());
        proof {
            acc.lemma_finite();
            msgs.lemma_finite();
            lemma_quorum_props(self@.threshold as int, self@.members, msgs@, pred, acc@);
        }
        Self::findQuorumHelper(self.threshold as usize, &self.members, 0, msgs, pred, acc)
    }
}

} // verus!

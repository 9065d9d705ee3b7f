//! The quorum-set searches, exercised end to end.

use scp_quorum::collections::IdSet;
use scp_quorum::identity::{Identity, NodeId, ResponderId};
use scp_quorum::msg::{Msg, MsgMap};
use scp_quorum::predicates::{AcceptAll, Predicate, SameSlot, SenderInSet, SenderNotInSet};
use scp_quorum::quorum_set::QuorumSet;

fn test_node_id(n: u32) -> NodeId {
    let responder = ResponderId::new(format!("node{}.test.mobilecoin.com:8443", n))
        .expect("host name should be ASCII");
    NodeId::new(responder, vec![n as u8; 32])
}

fn node_set(ns: &[u32]) -> IdSet<NodeId> {
    let mut ids = Vec::new();
    for n in ns {
        ids.push(test_node_id(*n));
    }
    IdSet::from_vec(ids)
}

fn topic() -> (u32, u32) {
    (1234, 5678)
}

/// The outer quorum set the original scenarios share:
/// `{2, [IS({2,[N2,N3,N4]}), IS({2,[N5,N6,N7]})]}`.
fn local_node_quorum_set() -> QuorumSet<NodeId> {
    let inner_quorum_set_one = QuorumSet::new_with_node_ids(
        2,
        vec![test_node_id(2), test_node_id(3), test_node_id(4)],
    );
    let inner_quorum_set_two = QuorumSet::new_with_node_ids(
        2,
        vec![test_node_id(5), test_node_id(6), test_node_id(7)],
    );
    QuorumSet::new_with_inner_sets(2, vec![inner_quorum_set_one, inner_quorum_set_two])
}

#[test]
// findBlockingSet returns an empty set when there is no blocking set
fn test_no_blocking_set() {
    let local_node_quorum_set = local_node_quorum_set();

    let node_2_quorum_set = QuorumSet::new_with_node_ids(1, vec![test_node_id(3), test_node_id(4)]);
    let node_5_quorum_set = QuorumSet::new_with_node_ids(1, vec![test_node_id(6), test_node_id(7)]);

    let mut msgs = MsgMap::<(u32, u32), NodeId>::new();
    msgs.insert(
        test_node_id(2),
        Msg::new(test_node_id(2), node_2_quorum_set, 1, topic()),
    );
    msgs.insert(
        test_node_id(5),
        Msg::new(test_node_id(5), node_5_quorum_set, 1, topic()),
    );

    let (node_ids, _) = local_node_quorum_set.findBlockingSet(&msgs, AcceptAll);
    assert_eq!(node_ids.len(), 0);
}

#[test]
// findBlockingSet returns the correct set of nodes when there is a blocking set
fn test_has_blocking_set() {
    let local_node_quorum_set = local_node_quorum_set();

    let node_2_quorum_set = QuorumSet::new_with_node_ids(1, vec![test_node_id(3), test_node_id(4)]);
    let node_3_quorum_set = QuorumSet::new_with_node_ids(1, vec![test_node_id(2), test_node_id(4)]);

    let mut msgs = MsgMap::<(u32, u32), NodeId>::new();
    msgs.insert(
        test_node_id(2),
        Msg::new(test_node_id(2), node_2_quorum_set, 1, topic()),
    );
    msgs.insert(
        test_node_id(3),
        Msg::new(test_node_id(3), node_3_quorum_set, 1, topic()),
    );

    let (node_ids, _) = local_node_quorum_set.findBlockingSet(&msgs, AcceptAll);
    assert!(node_ids.set_eq(&node_set(&[2, 3])));
}

#[test]
// findBlockingSet returns an empty set if the predicate returns false for the blocking set
fn test_blocking_set_with_false_predicate() {
    let local_node_quorum_set = local_node_quorum_set();

    let node_2_quorum_set = QuorumSet::new_with_node_ids(1, vec![test_node_id(3), test_node_id(4)]);
    let node_3_quorum_set = QuorumSet::new_with_node_ids(1, vec![test_node_id(2), test_node_id(4)]);

    let mut msgs = MsgMap::<(u32, u32), NodeId>::new();
    msgs.insert(
        test_node_id(2),
        Msg::new(test_node_id(2), node_2_quorum_set, 1, topic()),
    );
    msgs.insert(
        test_node_id(3),
        Msg::new(test_node_id(3), node_3_quorum_set, 1, topic()),
    );

    let allowed = node_set(&[2]);
    let (node_ids, _) =
        local_node_quorum_set.findBlockingSet(&msgs, SenderInSet { allowed: &allowed });
    assert_eq!(node_ids.len(), 0);
}

#[test]
// findQuorum returns an empty set when there is no quorum
fn test_no_quorum() {
    let local_node_quorum_set = local_node_quorum_set();
    let local_node_id = test_node_id(1);

    let node_2_quorum_set = QuorumSet::new_with_node_ids(1, vec![test_node_id(3), test_node_id(4)]);
    let node_3_quorum_set = QuorumSet::new_with_node_ids(1, vec![test_node_id(2), test_node_id(4)]);

    let mut msgs = MsgMap::<(u32, u32), NodeId>::new();
    msgs.insert(
        test_node_id(2),
        Msg::new(test_node_id(2), node_2_quorum_set, 1, topic()),
    );
    msgs.insert(
        test_node_id(3),
        Msg::new(test_node_id(3), node_3_quorum_set, 1, topic()),
    );

    let (node_ids, _) = local_node_quorum_set.findQuorum(&local_node_id, &msgs, AcceptAll);
    assert_eq!(node_ids.len(), 0);
}

#[test]
// findQuorum returns the correct set of nodes when there is a quorum
fn test_has_quorum() {
    let local_node_quorum_set = local_node_quorum_set();
    let local_node_id = test_node_id(1);

    let node_2_quorum_set = QuorumSet::new_with_node_ids(1, vec![test_node_id(3), test_node_id(4)]);
    let node_3_quorum_set = QuorumSet::new_with_node_ids(1, vec![test_node_id(2), test_node_id(4)]);
    let node_5_quorum_set = QuorumSet::new_with_node_ids(1, vec![test_node_id(6), test_node_id(7)]);
    let node_6_quorum_set = QuorumSet::new_with_node_ids(1, vec![test_node_id(5), test_node_id(7)]);

    let mut msgs = MsgMap::<(u32, u32), NodeId>::new();
    msgs.insert(
        test_node_id(2),
        Msg::new(test_node_id(2), node_2_quorum_set, 1, topic()),
    );
    msgs.insert(
        test_node_id(3),
        Msg::new(test_node_id(3), node_3_quorum_set, 1, topic()),
    );
    msgs.insert(
        test_node_id(5),
        Msg::new(test_node_id(5), node_5_quorum_set, 1, topic()),
    );
    msgs.insert(
        test_node_id(6),
        Msg::new(test_node_id(6), node_6_quorum_set, 1, topic()),
    );

    let (node_ids, _) = local_node_quorum_set.findQuorum(&local_node_id, &msgs, AcceptAll);
    assert!(node_ids.set_eq(&node_set(&[2, 3, 5, 6, 1])));
}

#[test]
// findQuorum returns an empty set when there is a quorum but the predicate returns false
fn test_has_quorum_with_false_predicate() {
    let local_node_quorum_set = local_node_quorum_set();
    let local_node_id = test_node_id(1);

    let node_2_quorum_set = QuorumSet::new_with_node_ids(1, vec![test_node_id(3), test_node_id(4)]);
    let node_3_quorum_set = QuorumSet::new_with_node_ids(1, vec![test_node_id(2), test_node_id(4)]);
    let node_5_quorum_set = QuorumSet::new_with_node_ids(1, vec![test_node_id(6), test_node_id(7)]);
    let node_6_quorum_set = QuorumSet::new_with_node_ids(1, vec![test_node_id(5), test_node_id(7)]);

    let mut msgs = MsgMap::<(u32, u32), NodeId>::new();
    msgs.insert(
        test_node_id(2),
        Msg::new(test_node_id(2), node_2_quorum_set, 1, topic()),
    );
    msgs.insert(
        test_node_id(3),
        Msg::new(test_node_id(3), node_3_quorum_set, 1, topic()),
    );
    msgs.insert(
        test_node_id(5),
        Msg::new(test_node_id(5), node_5_quorum_set, 1, topic()),
    );
    msgs.insert(
        test_node_id(6),
        Msg::new(test_node_id(6), node_6_quorum_set, 1, topic()),
    );

    let denied = node_set(&[2]);
    let (node_ids, _) =
        local_node_quorum_set.findQuorum(&local_node_id, &msgs, SenderNotInSet { denied: &denied });
    assert_eq!(node_ids.len(), 0);
}

#[test]
// Quorum set can be constructed with ResponderId
fn test_blocking_set_with_responder_id() {
    let responder = |n: u32| test_node_id(n).as_responder();

    let mobilecoind_quorum_set: QuorumSet<ResponderId> = {
        let inner_quorum_set_one =
            QuorumSet::new_with_node_ids(2, vec![responder(2), responder(3), responder(4)]);
        let inner_quorum_set_two =
            QuorumSet::new_with_node_ids(2, vec![responder(5), responder(6), responder(7)]);
        QuorumSet::new_with_inner_sets(2, vec![inner_quorum_set_one, inner_quorum_set_two])
    };

    let mut msgs = MsgMap::<(u32, u32), ResponderId>::new();
    msgs.insert(
        responder(2),
        Msg::new(responder(2), QuorumSet::empty(), 1, topic()),
    );
    msgs.insert(
        responder(3),
        Msg::new(responder(3), QuorumSet::empty(), 1, topic()),
    );

    let responder_ids = IdSet::from_vec(vec![
        responder(2),
        responder(3),
        responder(4),
        responder(5),
        responder(6),
        responder(7),
    ]);

    let (node_ids, _) = mobilecoind_quorum_set.findBlockingSet(
        &msgs,
        SenderInSet {
            allowed: &responder_ids,
        },
    );
    assert!(node_ids.set_eq(&IdSet::from_vec(vec![responder(2), responder(3)])));
}

#[test]
// weight gives the fraction of slices containing a node, unreduced
fn weights_in_flat_and_nested_sets() {
    let flat = QuorumSet::new_with_node_ids(2, vec![test_node_id(1), test_node_id(2), test_node_id(3)]);
    assert_eq!(flat.weight(&test_node_id(2)), (2, 3));
    assert_eq!(flat.weight(&test_node_id(4)), (0, 1));

    let nested = QuorumSet::new_with_inner_sets(
        2,
        vec![
            QuorumSet::new_with_node_ids(1, vec![test_node_id(2), test_node_id(3)]),
            QuorumSet::new_with_node_ids(1, vec![test_node_id(4), test_node_id(5)]),
        ],
    );
    assert_eq!(nested.weight(&test_node_id(3)), (2, 4));
}

#[test]
// every non-empty quorum contains the local node
fn quorum_contains_local_node() {
    let local_node_quorum_set = local_node_quorum_set();
    let local_node_id = test_node_id(1);

    let mut msgs = MsgMap::<(u32, u32), NodeId>::new();
    for n in [2u32, 3, 5, 6] {
        let siblings: Vec<u32> = match n {
            2 => vec![3, 4],
            3 => vec![2, 4],
            5 => vec![6, 7],
            _ => vec![5, 7],
        };
        let qs = QuorumSet::new_with_node_ids(
            1,
            siblings.iter().map(|s| test_node_id(*s)).collect(),
        );
        msgs.insert(test_node_id(n), Msg::new(test_node_id(n), qs, 1, topic()));
    }

    let (node_ids, _) = local_node_quorum_set.findQuorum(&local_node_id, &msgs, AcceptAll);
    assert!(!node_ids.is_empty());
    assert!(node_ids.contains(&local_node_id));
}

#[test]
// a failed search hands back a predicate with the original acceptance behavior
fn failed_search_keeps_predicate_behavior() {
    let local_node_quorum_set = local_node_quorum_set();

    let mut msgs = MsgMap::<(u32, u32), NodeId>::new();
    msgs.insert(
        test_node_id(2),
        Msg::new(test_node_id(2), QuorumSet::empty(), 1, topic()),
    );

    let allowed = node_set(&[2]);
    let (node_ids, pred) =
        local_node_quorum_set.findBlockingSet(&msgs, SenderInSet { allowed: &allowed });
    assert_eq!(node_ids.len(), 0);

    // the returned predicate still accepts exactly what the original accepted
    let from_2 = Msg::new(test_node_id(2), QuorumSet::empty(), 1, topic());
    let from_3 = Msg::new(test_node_id(3), QuorumSet::empty(), 1, topic());
    assert!(pred.test(&from_2).is_some());
    assert!(pred.test(&from_3).is_none());
}

#[test]
// projecting a quorum set keeps thresholds and projects every node
fn projection_preserves_nodes() {
    let q = local_node_quorum_set();
    let projected = q.project();
    assert_eq!(projected.threshold, 2);
    let expected = IdSet::from_vec(vec![
        test_node_id(2).as_responder(),
        test_node_id(3).as_responder(),
        test_node_id(4).as_responder(),
        test_node_id(5).as_responder(),
        test_node_id(6).as_responder(),
        test_node_id(7).as_responder(),
    ]);
    assert!(projected.nodes().set_eq(&expected));
}

#[test]
// the message map keeps the latest message per sender
fn msg_map_keeps_latest_message() {
    let mut msgs = MsgMap::<(u32, u32), NodeId>::new();
    msgs.insert(
        test_node_id(2),
        Msg::new(test_node_id(2), QuorumSet::empty(), 1, topic()),
    );
    msgs.insert(
        test_node_id(2),
        Msg::new(test_node_id(2), QuorumSet::empty(), 7, topic()),
    );
    let m = msgs.get(&test_node_id(2)).expect("message should be there");
    assert_eq!(m.slot_index, 7);
    assert!(msgs.get(&test_node_id(3)).is_none());
}

#[test]
// a refining predicate threads forward: the first accepted message pins the
// slot that later members must match
fn refining_predicate_pins_the_slot() {
    let q = QuorumSet::new_with_node_ids(
        2,
        vec![test_node_id(2), test_node_id(3), test_node_id(4)],
    );

    let mut msgs = MsgMap::<(u32, u32), NodeId>::new();
    msgs.insert(
        test_node_id(2),
        Msg::new(test_node_id(2), QuorumSet::empty(), 1, topic()),
    );
    msgs.insert(
        test_node_id(3),
        Msg::new(test_node_id(3), QuorumSet::empty(), 2, topic()),
    );
    msgs.insert(
        test_node_id(4),
        Msg::new(test_node_id(4), QuorumSet::empty(), 1, topic()),
    );

    // under the trivial predicate, the first two senders cover the quota
    let (all, _) = q.findBlockingSet(&msgs, AcceptAll);
    assert!(all.set_eq(&node_set(&[2, 3])));

    // pinned to one slot, the walk skips the sender speaking about another
    let (same_slot, pred) = q.findBlockingSet(&msgs, SameSlot::new());
    assert!(same_slot.set_eq(&node_set(&[2, 4])));
    let from_slot_2 = Msg::new(test_node_id(5), QuorumSet::empty(), 2, topic());
    assert!(pred.test(&from_slot_2).is_none());
}

#[test]
// a quorum set whose threshold exceeds its size admits nothing
fn oversized_threshold_finds_nothing() {
    let q = QuorumSet::new_with_node_ids(5, vec![test_node_id(2), test_node_id(3)]);
    let mut msgs = MsgMap::<(u32, u32), NodeId>::new();
    msgs.insert(
        test_node_id(2),
        Msg::new(test_node_id(2), QuorumSet::empty(), 1, topic()),
    );
    msgs.insert(
        test_node_id(3),
        Msg::new(test_node_id(3), QuorumSet::empty(), 1, topic()),
    );
    let (blocking, _) = q.findBlockingSet(&msgs, AcceptAll);
    assert_eq!(blocking.len(), 0);
    let (quorum, _) = q.findQuorum(&test_node_id(1), &msgs, AcceptAll);
    assert_eq!(quorum.len(), 0);
}

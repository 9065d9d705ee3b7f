//! The binary codec, the family identity, and the remaining small pieces.

use scp_quorum::collections::IdSet;
use scp_quorum::family_id::FamilyId;
use scp_quorum::identity::{Identity, NodeId, ResponderId};
use scp_quorum::logger::recreate_app_logger;
use scp_quorum::quorum_set::QuorumSet;
use scp_quorum::ring_signature::Error;

fn test_node_id(n: u32) -> NodeId {
    let responder = ResponderId::new(format!("node{}.test.mobilecoin.com:8443", n))
        .expect("host name should be ASCII");
    NodeId::new(responder, vec![n as u8; 32])
}

fn nested_quorum_set() -> QuorumSet<NodeId> {
    let inner = QuorumSet::new_with_node_ids(2, vec![test_node_id(2), test_node_id(3)]);
    QuorumSet::new(
        1,
        vec![
            scp_quorum::quorum_set::QuorumSetMember::Node(test_node_id(1)),
            scp_quorum::quorum_set::QuorumSetMember::InnerSet(inner),
        ],
    )
}

#[test]
// decode(encode(q)) gives back q, byte for byte
fn encode_decode_round_trip() {
    let q = nested_quorum_set();
    let bytes = q.encode();
    let decoded = QuorumSet::<NodeId>::decode(&bytes).expect("decoding an encoding succeeds");
    assert_eq!(decoded.encode(), bytes);
    assert_eq!(decoded.threshold, 1);
    assert!(decoded.nodes().set_eq(&q.nodes()));
}

#[test]
// the codec serves responder-identity sets just as well
fn encode_decode_responder_sets() {
    let q: QuorumSet<ResponderId> = QuorumSet::new_with_node_ids(
        2,
        vec![
            test_node_id(2).as_responder(),
            test_node_id(3).as_responder(),
            test_node_id(4).as_responder(),
        ],
    );
    let bytes = q.encode();
    let decoded = QuorumSet::<ResponderId>::decode(&bytes).expect("decoding an encoding succeeds");
    assert_eq!(decoded.encode(), bytes);
    assert!(decoded.nodes().set_eq(&q.nodes()));
}

#[test]
// an empty quorum set survives the round trip
fn encode_decode_empty_set() {
    let q = QuorumSet::<NodeId>::empty();
    let bytes = q.encode();
    let decoded = QuorumSet::<NodeId>::decode(&bytes).expect("decoding an encoding succeeds");
    assert_eq!(decoded.threshold, 0);
    assert_eq!(decoded.nodes().len(), 0);
}

#[test]
// garbage does not decode
fn malformed_bytes_do_not_decode() {
    assert!(QuorumSet::<NodeId>::decode(&Vec::new()).is_none());
    assert!(QuorumSet::<NodeId>::decode(&vec![7u8; 5]).is_none());
    let mut bytes = nested_quorum_set().encode();
    bytes.push(0);
    assert!(QuorumSet::<NodeId>::decode(&bytes).is_none());
}

#[test]
fn test_serde() {
    let src = [1u8, 2, 3, 4, 5, 6, 7, 8, 9, 10, 11, 12, 13, 14, 15, 16];
    let famid: FamilyId = src.into();
    let serialized = famid.to_bytes();
    let famid2: FamilyId =
        FamilyId::from_bytes(&serialized).expect("Error deserializing extended product id");
    assert_eq!(famid, famid2);
}

#[test]
// the family identity takes exactly sixteen bytes
fn family_id_requires_sixteen_bytes() {
    assert!(FamilyId::from_bytes(&vec![1u8; 15]).is_none());
    assert!(FamilyId::from_bytes(&vec![1u8; 16]).is_some());
    assert!(FamilyId::from_bytes(&vec![1u8; 17]).is_none());
}

#[test]
// responder identities hold ASCII text only
fn responder_id_requires_ascii() {
    let ok = ResponderId::new("peer1.test.mobilecoin.com:8443".to_string())
        .expect("ASCII host names are accepted");
    assert_eq!(ok.as_string(), "peer1.test.mobilecoin.com:8443");
    assert!(ResponderId::new("pe\u{00e9}r:8443".to_string()).is_none());
}

#[test]
// ring signature errors compare and copy as plain values
fn ring_signature_error_is_plain() {
    let e = Error::LengthMismatch(3, 32);
    let e2 = e;
    assert_eq!(e, e2);
    assert!(e != Error::IndexOutOfBounds);
    assert!(Error::KeyError == Error::KeyError);
}

#[test]
// the switchable app logger accepts a fresh root drain
fn recreate_app_logger_swaps_drain() {
    let switch = slog_atomic::AtomicSwitch::<(), slog::Never>::new(slog::Discard);
    let ctrl = switch.ctrl();
    let fresh = slog_atomic::AtomicSwitch::<(), slog::Never>::new(slog::Discard);
    recreate_app_logger(&ctrl, fresh);
    let _drain = ctrl.drain();
}

#[test]
// identity sets deduplicate and compare by contents
fn id_set_behaves_like_a_set() {
    let mut s = IdSet::<NodeId>::new();
    s.insert(test_node_id(1));
    s.insert(test_node_id(2));
    s.insert(test_node_id(1));
    assert_eq!(s.len(), 2);
    assert!(s.contains(&test_node_id(2)));
    assert!(!s.contains(&test_node_id(3)));
    let t = IdSet::from_vec(vec![test_node_id(2), test_node_id(1)]);
    assert!(s.set_eq(&t));
    let mut u = s.duplicate();
    assert!(u.set_eq(&t));
    u.merge(t);
    assert_eq!(u.len(), 2);
}

//! The quorum set: the Federated Byzantine Agreement core of a consensus
//! node.
//!
//! A [`quorum_set::QuorumSet`] is a threshold-weighted tree of trust
//! assertions: a threshold plus a list of members, each a single identity or
//! a nested set. Over it the crate provides the two decision primitives of an
//! SCP-style node — blocking-set discovery and quorum discovery — together
//! with node weights, projection to lightweight responder identities, and a
//! deterministic binary codec.
//!
//! Both searches walk the member list left to right, threading a monotone
//! [`predicates::Predicate`] forward through every acceptance. Each search is
//! proved equal to a spec-level mirror of itself, so its outcome is a pure
//! function of the quorum set, the message map, and the predicate; the laws
//! the searches obey — empty-set stability, pointwise validity under the
//! original predicate, threshold soundness, slice closure, the weight closed
//! form, projection functoriality, and the codec round trip — are stated and
//! proved beside them.

pub mod codec;
pub mod collections;
pub mod family_id;
pub mod identity;
pub mod logger;
pub mod msg;
pub mod predicates;
pub mod quorum_set;
pub mod ring_signature;
pub mod search;

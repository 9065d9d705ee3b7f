//! The monotone predicate abstraction the searches carry through their
//! recursion, and the canonical predicates the rest of the system uses.

use vstd::prelude::*;
use crate::collections::IdSet;
use crate::identity::Identity;
use crate::msg::{Msg, MsgView};

verus! {

/// A monotone refinement test over messages.
///
/// `test` either rejects a message or returns a successor predicate that is at
/// least as strict; later members on the same search branch are evaluated
/// against the successor. Acceptance and the successor are pinned to the spec
/// functions `accepts` and `refined`, so a search's outcome is a function of
/// its inputs.
pub trait Predicate<V, ID: Identity>: Sized {
    /// Whether this predicate accepts the message.
    spec fn accepts(self, msg: MsgView<V, ID::V>) -> bool;

    /// The successor carried forward after this predicate accepts `msg`.
    spec fn refined(self, msg: MsgView<V, ID::V>) -> Self;

    /// Applies the predicate: `None` rejects the message; `Some` accepts it
    /// and carries the refined successor.
    fn test(&self, msg: &Msg<V, ID>) -> (r: Option<Self>)
        ensures
            r is Some <==> self.accepts(msg@),
            r matches Some(p) ==> p == self.refined(msg@);

    /// A copy equal to this predicate.
    fn duplicate(&self) -> (r: Self)
        ensures
            r == *self;
}

/// One-step monotonicity of a predicate type: whatever a successor accepts,
/// the predicate it came from would have accepted too. The searches' callers
/// are expected to supply predicates with this property; the pointwise
/// validity of returned sets rests on it.
pub open spec fn one_step_monotone<V, ID: Identity, P: Predicate<V, ID>>() -> bool {
    forall|p: P, m1: MsgView<V, ID::V>, m2: MsgView<V, ID::V>|
        p.accepts(m1) && #[trigger] p.refined(m1).accepts(m2) ==> p.accepts(m2)
}

/// The trivial predicate: accepts every message and never refines.
pub struct AcceptAll;

impl<V, ID: Identity> Predicate<V, ID> for AcceptAll {
    open spec fn accepts(self, msg: MsgView<V, ID::V>) -> bool {
        true
    }

    open spec fn refined(self, msg: MsgView<V, ID::V>) -> Self {
        self
    }

    fn test(&self, _msg: &Msg<V, ID>) -> (r: Option<Self>) {
        Some(AcceptAll)
    }

    fn duplicate(&self) -> (r: Self) {
        AcceptAll
    }
}

/// The trivial predicate is one-step monotone.
pub proof fn lemma_accept_all_monotone<V, ID: Identity>()
    ensures
        one_step_monotone::<V, ID, AcceptAll>(),
{
}

/// Accepts exactly the messages whose sender is on an allow-list.
pub struct SenderInSet<'a, ID: Identity> {
    /// The allowed senders.
    pub allowed: &'a IdSet<ID>,
}

impl<'a, V, ID: Identity> Predicate<V, ID> for SenderInSet<'a, ID> {
    open spec fn accepts(self, msg: MsgView<V, ID::V>) -> bool {
        self.allowed@.contains(msg.sender_id)
    }

    open spec fn refined(self, msg: MsgView<V, ID::V>) -> Self {
        self
    }

    fn test(&self, msg: &Msg<V, ID>) -> (r: Option<Self>) {
        if self.allowed.contains(&msg.sender_id) {
            Some(SenderInSet { allowed: self.allowed })
        } else {
            None
        }
    }

    fn duplicate(&self) -> (r: Self) {
        SenderInSet { allowed: self.allowed }
    }
}

/// The allow-list predicate is one-step monotone.
pub proof fn lemma_sender_in_set_monotone<'a, V, ID: Identity>()
    ensures
        one_step_monotone::<V, ID, SenderInSet<'a, ID>>(),
{
}

/// Accepts messages for one slot, learned from the first message accepted:
/// the canonical refining predicate. Starting with no slot it accepts any
/// message and refines to the predicate pinned to that message's slot.
pub struct SameSlot {
    /// The slot every later message must speak about, once one is accepted.
    pub slot: Option<u64>,
}

impl SameSlot {
    /// The predicate before any message was accepted.
    pub fn new() -> (r: SameSlot)
        ensures
            r.slot is None,
    {
        SameSlot { slot: None }
    }
}

impl<V, ID: Identity> Predicate<V, ID> for SameSlot {
    open spec fn accepts(self, msg: MsgView<V, ID::V>) -> bool {
        match self.slot {
            None => true,
            Some(s) => msg.slot_index == s,
        }
    }

    open spec fn refined(self, msg: MsgView<V, ID::V>) -> Self {
        match self.slot {
            None => SameSlot { slot: Some(msg.slot_index) },
            Some(_) => self,
        }
    }

    fn test(&self, msg: &Msg<V, ID>) -> (r: Option<Self>) {
        match self.slot {
            None => Some(SameSlot { slot: Some(msg.slot_index) }),
            Some(s) => if msg.slot_index == s {
                Some(SameSlot { slot: Some(s) })
            } else {
                None
            },
        }
    }

    fn duplicate(&self) -> (r: Self) {
        SameSlot { slot: self.slot }
    }
}

/// The slot predicate is one-step monotone: whatever a refinement accepts
/// shares its slot, which the predicate it came from accepted too.
pub proof fn lemma_same_slot_monotone<V, ID: Identity>()
    ensures
        one_step_monotone::<V, ID, SameSlot>(),
{
}

/// Accepts exactly the messages whose sender is off a deny-list.
pub struct SenderNotInSet<'a, ID: Identity> {
    /// The denied senders.
    pub denied: &'a IdSet<ID>,
}

impl<'a, V, ID: Identity> Predicate<V, ID> for SenderNotInSet<'a, ID> {
    open spec fn accepts(self, msg: MsgView<V, ID::V>) -> bool {
        !self.denied@.contains(msg.sender_id)
    }

    open spec fn refined(self, msg: MsgView<V, ID::V>) -> Self {
        self
    }

    fn test(&self, msg: &Msg<V, ID>) -> (r: Option<Self>) {
        if self.denied.contains(&msg.sender_id) {
            None
        } else {
            Some(SenderNotInSet { denied: self.denied })
        }
    }

    fn duplicate(&self) -> (r: Self) {
        SenderNotInSet { denied: self.denied }
    }
}

/// The deny-list predicate is one-step monotone.
pub proof fn lemma_sender_not_in_set_monotone<'a, V, ID: Identity>()
    ensures
        one_step_monotone::<V, ID, SenderNotInSet<'a, ID>>(),
{
}

} // verus!

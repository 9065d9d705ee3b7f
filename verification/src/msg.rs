//! The read-only view of an SCP message that the searches consult, and the
//! map from each node to the latest message received from it.

use vstd::prelude::*;
use vstd::pervasive::VecAdditionalExecFns;
use crate::identity::Identity;
use crate::quorum_set::{qs_view, QuorumSet, QuorumSetView};

verus! {

/// What a search reads of a message: who sent it, for which slot, under which
/// quorum set, and an opaque topic payload that only predicates inspect.
pub struct Msg<V, ID> {
    /// The identity of the sender.
    pub sender_id: ID,
    /// The slot the message speaks about.
    pub slot_index: u64,
    /// The sender's own quorum set.
    pub quorum_set: QuorumSet<ID>,
    /// The payload; opaque to the searches.
    pub topic: V,
}

/// The mathematical content of a [`Msg`].
pub struct MsgView<V, IDV> {
    /// The sender's view.
    pub sender_id: IDV,
    /// The slot the message speaks about.
    pub slot_index: u64,
    /// The view of the sender's quorum set.
    pub quorum_set: QuorumSetView<IDV>,
    /// The payload.
    pub topic: V,
}

impl<V, ID: View> View for Msg<V, ID> {
    type V = MsgView<V, ID::V>;

    open spec fn view(&self) -> MsgView<V, ID::V> {
        MsgView {
            sender_id: self.sender_id@,
            slot_index: self.slot_index,
            quorum_set: self.quorum_set@,
            topic: self.topic,
        }
    }
}

impl<V, ID: Identity> Msg<V, ID> {
    /// Creates a new message view.
    pub fn new(sender_id: ID, quorum_set: QuorumSet<ID>, slot_index: u64, topic: V) -> (r: Msg<
        V,
        ID,
    >)
        ensures
            r@ == (MsgView {
                sender_id: sender_id@,
                slot_index,
                quorum_set: qs_view(quorum_set),
                topic,
            }),
    {
        Msg { sender_id, slot_index, quorum_set, topic }
    }
}

/// The map each entry list denotes: later entries win.
pub open spec fn entries_map<V, ID: Identity>(s: Seq<(ID, Msg<V, ID>)>) -> Map<
    ID::V,
    MsgView<V, ID::V>,
>
    decreases s.len(),
{
    if s.len() == 0 {
        Map::empty()
    } else {
        entries_map(s.drop_last()).insert(s.last().0@, s.last().1@)
    }
}

/// Pairwise-distinct keys: no sender occurs twice.
pub open spec fn distinct_keys<V, ID: Identity>(s: Seq<(ID, Msg<V, ID>)>) -> bool {
    forall|i: int, j: int| 0 <= i < j < s.len() ==> s[i].0@ != s[j].0@
}

/// The key of any entry is in the map's domain, and with distinct keys it maps
/// to that entry's message.
proof fn lemma_entries_elem<V, ID: Identity>(s: Seq<(ID, Msg<V, ID>)>, i: int)
    requires
        distinct_keys(s),
        0 <= i < s.len(),
    ensures
        entries_map(s).dom().contains(s[i].0@),
        entries_map(s)[s[i].0@] == s[i].1@,
    decreases s.len(),
{
    if i < s.len() - 1 {
        assert forall|a: int, b: int| 0 <= a < b < s.drop_last().len() implies s.drop_last()[a].0@
            != s.drop_last()[b].0@ by {
            assert(s.drop_last()[a] == s[a] && s.drop_last()[b] == s[b]);
        }
        lemma_entries_elem(s.drop_last(), i);
        assert(s.drop_last()[i] == s[i]);
        assert(s[i].0@ != s.last().0@);
    }
}

/// A sender view held by no entry is not in the map's domain.
proof fn lemma_entries_not_contains<V, ID: Identity>(s: Seq<(ID, Msg<V, ID>)>, v: ID::V)
    requires
        forall|j: int| 0 <= j < s.len() ==> s[j].0@ != v,
    ensures
        !entries_map(s).dom().contains(v),
    decreases s.len(),
{
    if s.len() > 0 {
        assert forall|j: int| 0 <= j < s.drop_last().len() implies s.drop_last()[j].0@ != v by {
            assert(s.drop_last()[j] == s[j]);
        }
        lemma_entries_not_contains(s.drop_last(), v);
        assert(s[s.len() - 1].0@ != v);
    }
}

/// The map's domain is finite.
pub proof fn lemma_entries_finite<V, ID: Identity>(s: Seq<(ID, Msg<V, ID>)>)
    ensures
        entries_map(s).dom().finite(),
    decreases s.len(),
{
    if s.len() > 0 {
        lemma_entries_finite(s.drop_last());
    }
}

/// Updating the entry that holds a key is inserting into the map.
proof fn lemma_entries_update<V, ID: Identity>(s: Seq<(ID, Msg<V, ID>)>, i: int, e: (ID, Msg<V, ID>))
    requires
        distinct_keys(s),
        0 <= i < s.len(),
        s[i].0@ == e.0@,
    ensures
        entries_map(s.update(i, e)) == entries_map(s).insert(e.0@, e.1@),
    decreases s.len(),
{
    let su = s.update(i, e);
    if i == s.len() - 1 {
        assert(su.drop_last() =~= s.drop_last());
        assert(su.last() == e);
        assert(entries_map(s).insert(e.0@, e.1@) =~= entries_map(s.drop_last()).insert(
            e.0@,
            e.1@,
        ));
    } else {
        assert(su.drop_last() =~= s.drop_last().update(i, e));
        assert(su.last() == s.last());
        assert forall|a: int, b: int| 0 <= a < b < s.drop_last().len() implies s.drop_last()[a].0@
            != s.drop_last()[b].0@ by {
            assert(s.drop_last()[a] == s[a] && s.drop_last()[b] == s[b]);
        }
        assert(s.drop_last()[i] == s[i]);
        lemma_entries_update(s.drop_last(), i, e);
        assert(s[i].0@ != s.last().0@);
        assert(entries_map(s.drop_last()).insert(e.0@, e.1@).insert(s.last().0@, s.last().1@)
            =~= entries_map(s.drop_last()).insert(s.last().0@, s.last().1@).insert(e.0@, e.1@));
    }
}

/// A map from node identities to the latest message received from each. The
/// view is a mathematical `Map` keyed by identity views.
pub struct MsgMap<V, ID: Identity> {
    entries: Vec<(ID, Msg<V, ID>)>,
}

impl<V, ID: Identity> View for MsgMap<V, ID> {
    type V = Map<ID::V, MsgView<V, ID::V>>;

    closed spec fn view(&self) -> Map<ID::V, MsgView<V, ID::V>> {
        entries_map(self.entries@)
    }
}

impl<V, ID: Identity> MsgMap<V, ID> {
    /// No sender occurs twice.
    #[verifier::type_invariant]
    spec fn wf(&self) -> bool {
        distinct_keys(self.entries@)
    }

    /// The empty map.
    pub fn new() -> (r: MsgMap<V, ID>)
        ensures
            r@ == Map::<ID::V, MsgView<V, ID::V>>::empty(),
    {
        MsgMap { entries: Vec::new() }
    }

    /// The map's domain is finite.
    pub proof fn lemma_finite(&self)
        ensures
            self@.dom().finite(),
    {
        lemma_entries_finite(self.entries@);
    }

    /// Records the latest message received from `id`, replacing any earlier
    /// one.
    pub fn insert(&mut self, id: ID, msg: Msg<V, ID>)
        ensures
            final(self)@ == old(self)@.insert(id@, msg@),
    {
        proof {
            use_type_invariant(&*self);
        }
        let mut entries: Vec<(ID, Msg<V, ID>)> = Vec::new();
        core::mem::swap(&mut self.entries, &mut entries);
        let ghost s = entries@;
        let mut i: usize = 0;
        let mut found = false;
        while i < entries.len() && !found
            invariant
                entries@ == s,
                i <= s.len(),
                !found ==> forall|j: int| 0 <= j < i ==> s[j].0@ != id@,
                found ==> i < s.len() && s[i as int].0@ == id@,
            decreases s.len() - i - if found { 1int } else { 0int },
        {
            if entries[i].0.id_eq(&id) {
                found = true;
            } else {
                i += 1;
            }
        }
        if found {
            proof {
                lemma_entries_update(s, i as int, (id, msg));
            }
            entries.set(i, (id, msg));
            proof {
                assert forall|k: int| 0 <= k < entries@.len() implies entries@[k].0@ == s[k].0@ by {
                    assert(k != i ==> entries@[k] == s[k]);
                }
            }
            *self = MsgMap { entries };
        } else {
            proof {
                lemma_entries_not_contains(s, id@);
            }
            entries.push((id, msg));
            proof {
                assert(entries@.drop_last() =~= s);
            }
            *self = MsgMap { entries };
        }
    }

    /// The latest message received from `id`, if any.
    pub fn get(&self, id: &ID) -> (r: Option<&Msg<V, ID>>)
        ensures
            match r {
                Some(m) => self@.dom().contains(id@) && m@ == self@[id@],
                None => !self@.dom().contains(id@),
            },
    {
        proof {
            use_type_invariant(self);
        }
        let mut i: usize = 0;
        while i < self.entries.len()
            invariant
                i <= self.entries@.len(),
                distinct_keys(self.entries@),
                forall|j: int| 0 <= j < i ==> self.entries@[j].0@ != id@,
            decreases self.entries@.len() - i,
        {
            if self.entries[i].0.id_eq(id) {
                proof {
                    lemma_entries_elem(self.entries@, i as int);
                }
                return Some(&self.entries[i].1);
            }
            i += 1;
        }
        proof {
            lemma_entries_not_contains(self.entries@, id@);
        }
        None
    }
}

} // verus!

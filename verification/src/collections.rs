//! An identity set backed by a vector, with a mathematical `Set` view.
//!
//! The searches hand sets of node identities back to their callers. Identities
//! are compared by their views, so the set's view is a `Set` of identity views.

use vstd::prelude::*;
use crate::identity::Identity;

verus! {

/// The set of views of the identities in `s`.
pub open spec fn id_views<ID: View>(s: Seq<ID>) -> Set<ID::V>
    decreases s.len(),
{
    if s.len() == 0 {
        Set::empty()
    } else {
        id_views(s.drop_last()).insert(s.last()@)
    }
}

/// Pairwise-distinct views: no identity occurs twice.
pub open spec fn distinct_views<ID: View>(s: Seq<ID>) -> bool {
    forall|i: int, j: int| 0 <= i < j < s.len() ==> s[i]@ != s[j]@
}

/// The view of any element is a member of `id_views`.
pub proof fn lemma_id_views_contains_elem<ID: View>(s: Seq<ID>, i: int)
    requires
        0 <= i < s.len(),
    ensures
        id_views(s).contains(s[i]@),
    decreases s.len(),
{
    if i < s.len() - 1 {
        lemma_id_views_contains_elem(s.drop_last(), i);
        assert(s.drop_last()[i] == s[i]);
    }
}

/// A view held by no element is no member of `id_views`.
pub proof fn lemma_id_views_not_contains<ID: View>(s: Seq<ID>, v: ID::V)
    requires
        forall|j: int| 0 <= j < s.len() ==> s[j]@ != v,
    ensures
        !id_views(s).contains(v),
    decreases s.len(),
{
    if s.len() > 0 {
        assert forall|j: int| 0 <= j < s.drop_last().len() implies s.drop_last()[j]@ != v by {
            assert(s.drop_last()[j] == s[j]);
        }
        lemma_id_views_not_contains(s.drop_last(), v);
        assert(s[s.len() - 1]@ != v);
    }
}

/// Sequences with pointwise-equal views denote the same set.
proof fn lemma_id_views_congruent<ID: View>(s1: Seq<ID>, s2: Seq<ID>)
    requires
        s1.len() == s2.len(),
        forall|i: int| 0 <= i < s1.len() ==> s1[i]@ == s2[i]@,
    ensures
        id_views(s1) == id_views(s2),
    decreases s1.len(),
{
    if s1.len() > 0 {
        assert forall|i: int| 0 <= i < s1.drop_last().len() implies s1.drop_last()[i]@
            == s2.drop_last()[i]@ by {
            assert(s1.drop_last()[i] == s1[i] && s2.drop_last()[i] == s2[i]);
        }
        lemma_id_views_congruent(s1.drop_last(), s2.drop_last());
        assert(s1.last()@ == s2.last()@);
    }
}

/// If a set holds the view of every element, it holds all of `id_views`.
proof fn lemma_id_views_subset<ID: View>(s: Seq<ID>, t: Set<ID::V>)
    requires
        forall|j: int| 0 <= j < s.len() ==> t.contains(s[j]@),
    ensures
        id_views(s).subset_of(t),
    decreases s.len(),
{
    if s.len() > 0 {
        assert forall|j: int| 0 <= j < s.drop_last().len() implies t.contains(s.drop_last()[j]@) by {
            assert(s.drop_last()[j] == s[j]);
        }
        lemma_id_views_subset(s.drop_last(), t);
        assert(t.contains(s[s.len() - 1]@));
    }
}

/// `id_views` is always a finite set.
pub proof fn lemma_id_views_finite<ID: View>(s: Seq<ID>)
    ensures
        id_views(s).finite(),
    decreases s.len(),
{
    if s.len() > 0 {
        lemma_id_views_finite(s.drop_last());
    }
}

/// With pairwise-distinct views, the set has exactly one member per element.
proof fn lemma_id_views_len<ID: View>(s: Seq<ID>)
    requires
        distinct_views(s),
    ensures
        id_views(s).finite(),
        id_views(s).len() == s.len(),
    decreases s.len(),
{
    if s.len() > 0 {
        assert forall|i: int, j: int| 0 <= i < j < s.drop_last().len() implies s.drop_last()[i]@
            != s.drop_last()[j]@ by {
            assert(s.drop_last()[i] == s[i] && s.drop_last()[j] == s[j]);
        }
        lemma_id_views_len(s.drop_last());
        assert forall|j: int| 0 <= j < s.drop_last().len() implies s.drop_last()[j]@ != s.last()@ by {
            assert(s.drop_last()[j] == s[j] && s.last() == s[s.len() - 1]);
        }
        lemma_id_views_not_contains(s.drop_last(), s.last()@);
    }
}

/// A set of identities. The members' views are pairwise distinct, and the
/// view of the whole is the finite `Set` of those views.
pub struct IdSet<ID: Identity> {
    items: Vec<ID>,
}

impl<ID: Identity> View for IdSet<ID> {
    type V = Set<ID::V>;

    closed spec fn view(&self) -> Set<ID::V> {
        id_views(self.items@)
    }
}

impl<ID: Identity> IdSet<ID> {
    /// No identity occurs twice.
    #[verifier::type_invariant]
    spec fn wf(&self) -> bool {
        distinct_views(self.items@)
    }

    /// The empty set.
    pub fn new() -> (r: IdSet<ID>)
        ensures
            r@ == Set::<ID::V>::empty(),
    {
        IdSet { items: Vec::new() }
    }

    /// Every view in the set is the view of some element; the set is finite.
    pub proof fn lemma_finite(&self)
        ensures
            self@.finite(),
    {
        lemma_id_views_finite(self.items@);
    }

    /// Whether an identity with this view is in the set.
    pub fn contains(&self, id: &ID) -> (r: bool)
        ensures
            r == self@.contains(id@),
    {
        let mut i: usize = 0;
        while i < self.items.len()
            invariant
                i <= self.items@.len(),
                forall|j: int| 0 <= j < i ==> self.items@[j]@ != id@,
            decreases self.items@.len() - i,
        {
            if self.items[i].id_eq(id) {
                proof {
                    lemma_id_views_contains_elem(self.items@, i as int);
                }
                return true;
            }
            i += 1;
        }
        proof {
            lemma_id_views_not_contains(self.items@, id@);
        }
        false
    }

    /// Inserts an identity; the view gains its view.
    pub fn insert(&mut self, id: ID)
        ensures
            final(self)@ == old(self)@.insert(id@),
    {
        proof {
            use_type_invariant(&*self);
        }
        if !self.contains(&id) {
            proof {
                assert forall|j: int| 0 <= j < self.items@.len() implies self.items@[j]@ != id@ by {
                    lemma_id_views_contains_elem(self.items@, j);
                }
            }
            let mut items: Vec<ID> = Vec::new();
            core::mem::swap(&mut self.items, &mut items);
            items.push(id);
            proof {
                assert(items@.drop_last() =~= old(self).items@);
                assert forall|i: int, j: int| 0 <= i < j < items@.len() implies items@[i]@ != items@[j]@ by {
                    assert(0 <= i < old(self).items@.len() ==> old(self).items@[i]@ == items@[i]@);
                }
            }
            *self = IdSet { items };
        } else {
            proof {
                assert(self@ =~= old(self)@.insert(id@));
            }
        }
    }

    /// How many identities the set holds.
    pub fn len(&self) -> (r: usize)
        ensures
            r == self@.len(),
    {
        proof {
            use_type_invariant(self);
            lemma_id_views_len(self.items@);
        }
        self.items.len()
    }

    /// Whether the set is empty.
    pub fn is_empty(&self) -> (r: bool)
        ensures
            r == (self@ == Set::<ID::V>::empty()),
    {
        proof {
            use_type_invariant(self);
            if self.items@.len() > 0 {
                lemma_id_views_contains_elem(self.items@, self.items@.len() - 1);
            }
        }
        self.items.len() == 0
    }

    /// Moves every identity of `other` into `self`; the view becomes the union.
    pub fn merge(&mut self, other: IdSet<ID>)
        ensures
            final(self)@ == old(self)@ + other@,
    {
        let IdSet { items: mut rest } = other;
        let ghost all = rest@;
        while rest.len() > 0
            invariant
                self@ + id_views(rest@) == old(self)@ + id_views(all),
            decreases rest@.len(),
        {
            let ghost prev = rest@;
            let id = rest.pop().unwrap();
            proof {
                assert(rest@ =~= prev.drop_last());
            }
            self.insert(id);
            proof {
                assert(self@ + id_views(rest@) =~= old(self)@ + id_views(all));
            }
        }
        proof {
            assert(self@ =~= self@ + id_views(rest@));
        }
    }

    /// Whether every member of `self` is a member of `other`.
    pub fn subset_of(&self, other: &IdSet<ID>) -> (r: bool)
        ensures
            r == self@.subset_of(other@),
    {
        let mut i: usize = 0;
        while i < self.items.len()
            invariant
                i <= self.items@.len(),
                forall|j: int| 0 <= j < i ==> other@.contains(self.items@[j]@),
            decreases self.items@.len() - i,
        {
            if !other.contains(&self.items[i]) {
                proof {
                    lemma_id_views_contains_elem(self.items@, i as int);
                }
                return false;
            }
            i += 1;
        }
        proof {
            lemma_id_views_subset(self.items@, other@);
        }
        true
    }

    /// Whether the two sets hold identities with exactly the same views.
    pub fn set_eq(&self, other: &IdSet<ID>) -> (r: bool)
        ensures
            r == (self@ =~= other@),
    {
        self.subset_of(other) && other.subset_of(self)
    }

    /// A copy of the set: fresh identities with the same views.
    pub fn duplicate(&self) -> (r: IdSet<ID>)
        ensures
            r@ == self@,
    {
        proof {
            use_type_invariant(self);
        }
        let mut items: Vec<ID> = Vec::new();
        let mut i: usize = 0;
        while i < self.items.len()
            invariant
                i <= self.items@.len(),
                items@.len() == i,
                forall|j: int| 0 <= j < i ==> items@[j]@ == self.items@[j]@,
            decreases self.items@.len() - i,
        {
            items.push(self.items[i].id_clone());
            i += 1;
        }
        proof {
            lemma_id_views_congruent(items@, self.items@);
        }
        IdSet { items }
    }

    /// Builds a set from a vector of identities.
    pub fn from_vec(ids: Vec<ID>) -> (r: IdSet<ID>)
        ensures
            r@ == id_views(ids@),
    {
        let ghost all = ids@;
        let mut rest = ids;
        let mut r = IdSet::<ID>::new();
        while rest.len() > 0
            invariant
                r@ + id_views(rest@) == id_views(all),
            decreases rest@.len(),
        {
            let ghost prev = rest@;
            let id = rest.pop().unwrap();
            proof {
                assert(rest@ =~= prev.drop_last());
            }
            r.insert(id);
            proof {
                assert(r@ + id_views(rest@) =~= id_views(all));
            }
        }
        proof {
            assert(r@ =~= r@ + id_views(rest@));
        }
        r
    }
}

} // verus!

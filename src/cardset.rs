use vstd::prelude::*;

use crate::card::Card;

verus! {

/// A finite set of cards, stored as a vector without repetitions.
#[derive(Debug)]
pub struct CardSet {
    cards: Vec<Card>,
}

impl View for CardSet {
    type V = Set<Card>;

    closed spec fn view(&self) -> Set<Card> {
        self.cards@.to_set()
    }
}

impl CardSet {
    /// The set is stored without repetitions.
    pub closed spec fn wf(&self) -> bool {
        self.cards@.no_duplicates()
    }

    pub fn new() -> (r: CardSet)
        ensures
            r.wf(),
            r@ == Set::<Card>::empty(),
    {
        let r = CardSet { cards: Vec::new() };
        assert(r@ =~= Set::<Card>::empty());
        r
    }

    /// Builds the set of the cards listed in `v`; repetitions collapse.
    pub fn from_vec(v: Vec<Card>) -> (r: CardSet)
        ensures
            r.wf(),
            r@ == v@.to_set(),
            r@.finite(),
    {
        let mut r = CardSet::new();
        let mut i: usize = 0;
        while i < v.len()
            invariant
                0 <= i <= v.len(),
                r.wf(),
                r@ == v@.subrange(0, i as int).to_set(),
            decreases v.len() - i,
        {
            r.insert(v[i]);
            assert(v@.subrange(0, i + 1) =~= v@.subrange(0, i as int).push(v@[i as int]));
            proof {
                v@.subrange(0, i as int).lemma_push_to_set_commute(v@[i as int]);
            }
            i = i + 1;
        }
        assert(v@.subrange(0, v.len() as int) =~= v@);
        proof {
            lemma_finite(&r);
        }
        r
    }

    /// The cards of the set, each once, in storage order.
    pub fn to_vec(&self) -> (r: Vec<Card>)
        requires
            self.wf(),
        ensures
            r@.to_set() == self@,
            r@.no_duplicates(),
            r@.len() == self@.len(),
    {
        proof {
            self.cards@.unique_seq_to_set();
        }
        self.cards.clone()
    }

    pub fn len(&self) -> (r: usize)
        ensures
            self.wf() ==> r == self@.len(),
            self@.finite(),
    {
        proof {
            if self.wf() {
                self.cards@.unique_seq_to_set();
            }
            lemma_finite(self);
        }
        self.cards.len()
    }

    pub fn is_empty(&self) -> (r: bool)
        requires
            self.wf(),
        ensures
            r == (self@ == Set::<Card>::empty()),
            r == (self@.len() == 0),
    {
        proof {
            self.cards@.unique_seq_to_set();
            lemma_finite(self);
            if self.cards.len() > 0 {
                assert(self@.contains(self.cards@[0]));
            } else {
                assert(self@ =~= Set::<Card>::empty());
            }
        }
        self.cards.len() == 0
    }

    pub fn contains(&self, c: &Card) -> (r: bool)
        ensures
            r == self@.contains(*c),
    {
        let mut i: usize = 0;
        while i < self.cards.len()
            invariant
                0 <= i <= self.cards.len(),
                forall|j: int| 0 <= j < i ==> self.cards@[j] != *c,
            decreases self.cards.len() - i,
        {
            if self.cards[i] == *c {
                assert(self.cards@.contains(*c));
                return true;
            }
            i = i + 1;
        }
        false
    }

    pub fn insert(&mut self, c: Card)
        requires
            old(self).wf(),
        ensures
            final(self).wf(),
            final(self)@ == old(self)@.insert(c),
    {
        if !self.contains(&c) {
            proof {
                self.cards@.lemma_push_to_set_commute(c);
            }
            self.cards.push(c);
        } else {
            assert(self@.insert(c) =~= self@);
        }
    }

    /// Removes one card, if present.
    pub fn remove(&mut self, c: &Card)
        requires
            old(self).wf(),
        ensures
            final(self).wf(),
            final(self)@ == old(self)@.remove(*c),
    {
        let mut r = CardSet::new();
        let mut i: usize = 0;
        while i < self.cards.len()
            invariant
                0 <= i <= self.cards.len(),
                r.wf(),
                r@ == self.cards@.subrange(0, i as int).to_set().remove(*c),
            decreases self.cards.len() - i,
        {
            let x = self.cards[i];
            assert(self.cards@.subrange(0, i + 1) =~= self.cards@.subrange(0, i as int).push(x));
            proof {
                self.cards@.subrange(0, i as int).lemma_push_to_set_commute(x);
            }
            if x != *c {
                r.insert(x);
            }
            assert(r@ =~= self.cards@.subrange(0, i + 1).to_set().remove(*c));
            i = i + 1;
        }
        assert(self.cards@.subrange(0, self.cards.len() as int) =~= self.cards@);
        *self = r;
    }

    /// True when every card of `self` is in `other`.
    pub fn is_subset(&self, other: &CardSet) -> (r: bool)
        ensures
            r == self@.subset_of(other@),
    {
        let mut i: usize = 0;
        while i < self.cards.len()
            invariant
                0 <= i <= self.cards.len(),
                forall|j: int| 0 <= j < i ==> other@.contains(#[trigger] self.cards@[j]),
            decreases self.cards.len() - i,
        {
            if !other.contains(&self.cards[i]) {
                assert(self@.contains(self.cards@[i as int]));
                return false;
            }
            i = i + 1;
        }
        assert forall|x: Card| self@.contains(x) implies other@.contains(x) by {
            let k = choose|k: int| 0 <= k < self.cards@.len() && self.cards@[k] == x;
        }
        true
    }

    /// The cards of `self` that are not in `other`.
    pub fn difference(&self, other: &CardSet) -> (r: CardSet)
        requires
            self.wf(),
        ensures
            r.wf(),
            r@ == self@.difference(other@),
    {
        let mut r = CardSet::new();
        let mut i: usize = 0;
        while i < self.cards.len()
            invariant
                0 <= i <= self.cards.len(),
                r.wf(),
                r@ == self.cards@.subrange(0, i as int).to_set().difference(other@),
            decreases self.cards.len() - i,
        {
            let x = self.cards[i];
            assert(self.cards@.subrange(0, i + 1) =~= self.cards@.subrange(0, i as int).push(x));
            proof {
                self.cards@.subrange(0, i as int).lemma_push_to_set_commute(x);
            }
            if !other.contains(&x) {
                r.insert(x);
            }
            assert(r@ =~= self.cards@.subrange(0, i + 1).to_set().difference(other@));
            i = i + 1;
        }
        assert(self.cards@.subrange(0, self.cards.len() as int) =~= self.cards@);
        r
    }

    /// The cards of `self` that are also in `other`.
    pub fn intersection(&self, other: &CardSet) -> (r: CardSet)
        requires
            self.wf(),
        ensures
            r.wf(),
            r@ == self@.intersect(other@),
    {
        let mut r = CardSet::new();
        let mut i: usize = 0;
        while i < self.cards.len()
            invariant
                0 <= i <= self.cards.len(),
                r.wf(),
                r@ == self.cards@.subrange(0, i as int).to_set().intersect(other@),
            decreases self.cards.len() - i,
        {
            let x = self.cards[i];
            assert(self.cards@.subrange(0, i + 1) =~= self.cards@.subrange(0, i as int).push(x));
            proof {
                self.cards@.subrange(0, i as int).lemma_push_to_set_commute(x);
            }
            if other.contains(&x) {
                r.insert(x);
            }
            assert(r@ =~= self.cards@.subrange(0, i + 1).to_set().intersect(other@));
            i = i + 1;
        }
        assert(self.cards@.subrange(0, self.cards.len() as int) =~= self.cards@);
        r
    }

    /// The cards that are in `self` or in `other`.
    pub fn union(&self, other: &CardSet) -> (r: CardSet)
        requires
            self.wf(),
            other.wf(),
        ensures
            r.wf(),
            r@ == self@.union(other@),
    {
        let mut r = self.clone_set();
        let mut i: usize = 0;
        while i < other.cards.len()
            invariant
                0 <= i <= other.cards.len(),
                r.wf(),
                r@ == self@.union(other.cards@.subrange(0, i as int).to_set()),
            decreases other.cards.len() - i,
        {
            let x = other.cards[i];
            assert(other.cards@.subrange(0, i + 1) =~= other.cards@.subrange(0, i as int).push(x));
            proof {
                other.cards@.subrange(0, i as int).lemma_push_to_set_commute(x);
            }
            r.insert(x);
            assert(r@ =~= self@.union(other.cards@.subrange(0, i + 1).to_set()));
            i = i + 1;
        }
        assert(other.cards@.subrange(0, other.cards.len() as int) =~= other.cards@);
        r
    }

    /// A copy of the set.
    pub fn clone_set(&self) -> (r: CardSet)
        requires
            self.wf(),
        ensures
            r.wf(),
            r@ == self@,
    {
        let mut v: Vec<Card> = Vec::new();
        let mut i: usize = 0;
        while i < self.cards.len()
            invariant
                0 <= i <= self.cards.len(),
                v@ == self.cards@.subrange(0, i as int),
            decreases self.cards.len() - i,
        {
            v.push(self.cards[i]);
            assert(v@ =~= self.cards@.subrange(0, i + 1));
            i = i + 1;
        }
        assert(v@ =~= self.cards@);
        CardSet { cards: v }
    }
}

/// Every card set is finite.
pub proof fn lemma_finite(s: &CardSet)
    ensures
        s@.finite(),
{
    s.cards@.lemma_cardinality_of_set();
    vstd::seq_lib::seq_to_set_is_finite(s.cards@);
}

} // verus!

use crate::order::{event_lt, is_max_of, lemma_lt_irreflexive, valid_order};
use vstd::multiset::Multiset;
use vstd::prelude::*;
use vstd::seq_lib::group_to_multiset_ensures;

verus! {

broadcast use vstd::multiset::group_multiset_axioms, group_to_multiset_ensures;

/// A priority queue over events: a max-first container whose abstract value
/// is the multiset of pending events.  Insertion order among equal-priority
/// events is not part of the abstraction, so no stability is promised.
pub struct EventQueue<E> {
    items: Vec<E>,
}

impl<E> View for EventQueue<E> {
    type V = Multiset<E>;

    closed spec fn view(&self) -> Multiset<E> {
        self.items@.to_multiset()
    }
}

impl<E: PartialOrd> EventQueue<E> {
    /// An empty queue.
    pub fn new() -> (q: Self)
        ensures
            q@ == Multiset::<E>::empty(),
    {
        let items: Vec<E> = Vec::new();
        proof {
            assert(items@.to_multiset() =~= Multiset::<E>::empty());
        }
        EventQueue { items }
    }

    /// A queue initially holding exactly the given events.
    pub fn from_vec(items: Vec<E>) -> (q: Self)
        ensures
            q@ == items@.to_multiset(),
    {
        EventQueue { items }
    }

    /// The number of pending events.
    pub fn len(&self) -> (n: usize)
        ensures
            n == self@.len(),
    {
        proof {
            self.items@.to_multiset_ensures();
        }
        self.items.len()
    }

    /// Whether no event is pending.
    pub fn is_empty(&self) -> (empty: bool)
        ensures
            empty <==> self@.len() == 0,
    {
        proof {
            self.items@.to_multiset_ensures();
        }
        self.items.len() == 0
    }

    /// Insert one event.
    pub fn push(&mut self, event: E)
        ensures
            final(self)@ == old(self)@.insert(event),
    {
        proof {
            self.items@.to_multiset_ensures();
        }
        self.items.push(event);
    }

    /// Insert every event of `events`.
    pub fn append(&mut self, events: Vec<E>)
        ensures
            final(self)@ == old(self)@.add(events@.to_multiset()),
    {
        let ghost q0 = self@;
        let ghost all = events@;
        let mut events = events;
        while events.len() != 0
            invariant
                q0.add(all.to_multiset()) =~= self@.add(events@.to_multiset()),
            decreases events.len(),
        {
            let ghost before = events@;
            let e = events.pop().unwrap();
            proof {
                assert(before =~= events@.push(e));
                assert(before.to_multiset() =~= events@.to_multiset().insert(e));
            }
            self.push(e);
            proof {
                assert(q0.add(all.to_multiset()) =~= self@.add(events@.to_multiset()));
            }
        }
        proof {
            assert(events@.to_multiset().len() == 0);
            assert(self@.add(events@.to_multiset()) =~= self@);
            assert(final(self)@ == old(self)@.add(all.to_multiset()));
        }
    }

    /// Remove and return a maximal pending event: one that no other pending
    /// event strictly exceeds.  Among equal-priority maxima the choice is
    /// arbitrary.
    pub fn pop_max(&mut self) -> (event: E)
        requires
            valid_order::<E>(),
            old(self)@.len() > 0,
        ensures
            is_max_of(event, old(self)@),
            final(self)@ == old(self)@.remove(event),
    {
        proof {
            self.items@.to_multiset_ensures();
        }
        let mut best: usize = 0;
        let mut i: usize = 1;
        while i < self.items.len()
            invariant
                valid_order::<E>(),
                self.items@.len() > 0,
                best < i,
                i <= self.items@.len(),
                forall|j: int| 0 <= j < i ==> !event_lt(self.items@[best as int], #[trigger] self.items@[j]),
            decreases self.items@.len() - i,
        {
            let switch = {
                let b: &E = &self.items[best];
                let c: &E = &self.items[i];
                b.lt(c)
            };
            proof {
                lemma_lt_irreflexive(self.items@[i as int]);
                if switch {
                    assert forall|j: int| 0 <= j < i + 1 implies !event_lt(
                        self.items@[i as int],
                        #[trigger] self.items@[j],
                    ) by {
                        if j < i {
                            assert(event_lt(self.items@[best as int], self.items@[i as int]));
                            if event_lt(self.items@[i as int], self.items@[j]) {
                                assert(event_lt(self.items@[best as int], self.items@[j]));
                            }
                        }
                    }
                }
            }
            if switch {
                best = i;
            }
            i = i + 1;
        }
        let ghost pre = self.items@;
        let event = self.items.remove(best);
        proof {
            assert(pre.remove(best as int).to_multiset() == pre.to_multiset().remove(
                pre[best as int],
            ));
            assert(pre.to_multiset().count(event) > 0) by {
                pre.to_multiset_ensures();
                assert(pre.contains(event));
            }
            assert forall|f: E| #[trigger] pre.to_multiset().count(f) > 0 implies !event_lt(
                event,
                f,
            ) by {
                pre.to_multiset_ensures();
                assert(pre.contains(f));
                let j = choose|j: int| 0 <= j < pre.len() && pre[j] == f;
                assert(!event_lt(pre[best as int], pre[j]));
            }
        }
        event
    }
}

} // verus!

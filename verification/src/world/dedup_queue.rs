//! A queue that holds each element at most once.
use crate::util::ConcreteEq;
use vstd::prelude::*;

verus! {

/// A first-in, first-out queue that discards an insertion when the element
/// is already queued.
#[derive(Clone, Debug)]
pub struct DedupQueue<T> {
    items: Vec<T>,
}

impl<T> View for DedupQueue<T> {
    type V = Seq<T>;

    /// The queued elements, the oldest first.
    closed spec fn view(&self) -> Seq<T> {
        self.items@
    }
}

impl<T> DedupQueue<T> {
    /// No element is queued twice.
    pub open spec fn wf(&self) -> bool {
        self@.no_duplicates()
    }
}

impl<T: Copy + ConcreteEq> DedupQueue<T> {
    /// The empty queue.
    pub fn new() -> (r: Self)
        ensures
            r.wf(),
            r@ == Seq::<T>::empty(),
    {
        DedupQueue { items: Vec::new() }
    }

    fn find(&self, value: &T) -> (r: Option<usize>)
        ensures
            r matches Some(i) ==> i < self@.len() && self@[i as int] == *value,
            r is None ==> !self@.contains(*value),
    {
        proof {
            T::lemma_eq_is_equality();
            reveal(vstd::laws_eq::obeys_concrete_eq);
        }
        let mut i: usize = 0;
        while i < self.items.len()
            invariant
                vstd::laws_eq::obeys_concrete_eq::<T>(),
                i <= self@.len(),
                forall|j: int| 0 <= j < i ==> self@[j] != *value,
            decreases self@.len() - i,
        {
            proof {
                reveal(vstd::laws_eq::obeys_concrete_eq);
            }
            if self.items[i] == *value {
                return Some(i);
            }
            i += 1;
        }
        None
    }

    /// Queues `value` at the back, unless it is already queued; tells
    /// whether it was queued.
    pub fn push_back(&mut self, value: T) -> (r: bool)
        requires
            old(self).wf(),
        ensures
            final(self).wf(),
            r == !old(self)@.contains(value),
            r ==> final(self)@ == old(self)@.push(value),
            !r ==> final(self)@ == old(self)@,
    {
        if self.find(&value).is_some() {
            return false;
        }
        let ghost before = self@;
        self.items.push(value);
        proof {
            assert forall|a: int, b: int| 0 <= a < b < self@.len() implies self@[a] != self@[b] by {
                if b == before.len() {
                    assert(before.contains(before[a]));
                }
            }
        }
        true
    }

    /// Takes the oldest element off the queue.
    pub fn pop_front(&mut self) -> (r: Option<T>)
        requires
            old(self).wf(),
        ensures
            final(self).wf(),
            old(self)@.len() == 0 ==> r is None && final(self)@ == old(self)@,
            old(self)@.len() > 0 ==> r == Some(old(self)@[0]) && final(self)@ == old(self)@.drop_first(),
    {
        if self.items.len() == 0 {
            return None;
        }
        let value = self.items.remove(0);
        proof {
            assert(self@ =~= old(self)@.drop_first());
        }
        Some(value)
    }

    /// Takes `key` out of the queue, wherever it is.
    pub fn remove(&mut self, key: &T) -> (r: Option<T>)
        requires
            old(self).wf(),
        ensures
            final(self).wf(),
            !old(self)@.contains(*key) ==> r is None && final(self)@ == old(self)@,
            old(self)@.contains(*key) ==> r == Some(*key) && final(self)@ == old(self)@.remove(old(self)@.index_of(*key)),
    {
        match self.find(key) {
            Some(i) => {
                let ghost s = self@;
                proof {
                    s.index_of_first_ensures(*key);
                    assert(s.index_of(*key) == i as int) by {
                        let j = s.index_of(*key);
                        assert(s[j] == *key);
                        if j != i {
                            assert(s.no_duplicates());
                        }
                    }
                }
                let value = self.items.remove(i);
                proof {
                    assert(self@ =~= s.remove(i as int));
                }
                Some(value)
            },
            None => None,
        }
    }

    /// Takes every element off the queue, the oldest first.
    pub fn pop_iter(&mut self) -> (r: Vec<T>)
        requires
            old(self).wf(),
        ensures
            final(self).wf(),
            r@ == old(self)@,
            final(self)@ == Seq::<T>::empty(),
    {
        let mut out: Vec<T> = Vec::new();
        while self.items.len() > 0
            invariant
                self.wf(),
                out@ + self@ == old(self)@,
            decreases self@.len(),
        {
            let ghost before = self@;
            match self.pop_front() {
                Some(v) => {
                    out.push(v);
                    proof {
                        assert(out@ + self@ =~= old(self)@) by {
                            assert(before =~= seq![v] + self@);
                        }
                    }
                },
                None => {},
            }
        }
        proof {
            assert(out@ =~= old(self)@);
        }
        out
    }
}

} // verus!

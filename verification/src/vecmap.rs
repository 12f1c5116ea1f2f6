//! Small sets and maps over vectors, for keys whose equality is their value.
use crate::util::ConcreteEq;
use vstd::prelude::*;

verus! {

/// A set kept as a vector without repeated elements.
#[derive(Clone, Debug)]
pub struct VecSet<T> {
    items: Vec<T>,
}

impl<T> VecSet<T> {
    /// The elements, in the order they are kept.
    pub closed spec fn seq(&self) -> Seq<T> {
        self.items@
    }

    pub open spec fn wf(&self) -> bool {
        self.seq().no_duplicates()
    }
}

impl<T> View for VecSet<T> {
    type V = Set<T>;

    open spec fn view(&self) -> Set<T> {
        self.seq().to_set()
    }
}

impl<T: Copy + ConcreteEq> VecSet<T> {
    pub fn new() -> (r: Self)
        ensures
            r.wf(),
            r@ == Set::<T>::empty(),
            r.seq() == Seq::<T>::empty(),
    {
        let r = VecSet { items: Vec::new() };
        assert(r@ =~= Set::<T>::empty());
        r
    }

    fn find(&self, value: &T) -> (r: Option<usize>)
        ensures
            r matches Some(i) ==> i < self.seq().len() && self.seq()[i as int] == *value,
            r is None ==> !self.seq().contains(*value),
    {
        proof {
            T::lemma_eq_is_equality();
            reveal(vstd::laws_eq::obeys_concrete_eq);
        }
        let mut i: usize = 0;
        while i < self.items.len()
            invariant
                vstd::laws_eq::obeys_concrete_eq::<T>(),
                i <= self.seq().len(),
                forall|j: int| 0 <= j < i ==> self.seq()[j] != *value,
            decreases self.seq().len() - i,
        {
            proof {
                reveal(vstd::laws_eq::obeys_concrete_eq);
            }
            if self.items[i] == *value {
                return Some(i);
            }
            i += 1;
        }
        None
    }

    pub fn contains(&self, value: &T) -> (r: bool)
        ensures
            r == self@.contains(*value),
    {
        match self.find(value) {
            Some(_) => true,
            None => false,
        }
    }

    pub fn len(&self) -> (r: usize)
        requires
            self.wf(),
        ensures
            r == self@.len(),
            r == self.seq().len(),
    {
        proof {
            self.seq().unique_seq_to_set();
        }
        self.items.len()
    }

    pub fn is_empty(&self) -> (r: bool)
        ensures
            r == (self@ == Set::<T>::empty()),
    {
        if self.items.len() == 0 {
            assert(self@ =~= Set::<T>::empty());
            true
        } else {
            assert(self@.contains(self.seq()[0]));
            false
        }
    }

    /// Adds `value`; true when it was not there before.
    pub fn insert(&mut self, value: T) -> (r: bool)
        requires
            old(self).wf(),
        ensures
            final(self).wf(),
            final(self)@ == old(self)@.insert(value),
            r == !old(self)@.contains(value),
    {
        match self.find(&value) {
            Some(_) => {
                assert(self@ =~= old(self)@.insert(value));
                false
            },
            None => {
                self.items.push(value);
                assert(self.seq() =~= old(self).seq().push(value));
                assert forall|x: T| #[trigger] self@.contains(x) == old(self)@.insert(value).contains(
                    x,
                ) by {
                    if old(self).seq().contains(x) {
                        let k = choose|k: int| 0 <= k < old(self).seq().len() && old(self).seq()[k] == x;
                        assert(self.seq()[k] == x);
                    }
                    if self.seq().contains(x) && x != value {
                        let k = choose|k: int| 0 <= k < self.seq().len() && self.seq()[k] == x;
                        assert(k < old(self).seq().len());
                        assert(old(self).seq()[k] == x);
                    }
                    if x == value {
                        assert(self.seq()[self.seq().len() - 1] == x);
                    }
                }
                assert forall|a: int, b: int|
                    0 <= a < b < self.seq().len() implies self.seq()[a] != self.seq()[b] by {
                    if b == self.seq().len() - 1 {
                        assert(old(self).seq().contains(old(self).seq()[a]));
                    }
                }
                assert(self@ =~= old(self)@.insert(value));
                true
            },
        }
    }

    /// Removes `value`; true when it was there.
    pub fn remove(&mut self, value: &T) -> (r: bool)
        requires
            old(self).wf(),
        ensures
            final(self).wf(),
            final(self)@ == old(self)@.remove(*value),
            r == old(self)@.contains(*value),
    {
        match self.find(value) {
            Some(i) => {
                let ghost s = self.seq();
                self.items.remove(i);
                proof {
                    assert(self.seq() =~= s.remove(i as int));
                    assert forall|a: int, b: int|
                        0 <= a < b < self.seq().len() implies self.seq()[a] != self.seq()[b] by {
                        let a0 = if a < i { a } else { a + 1 };
                        let b0 = if b < i { b } else { b + 1 };
                        assert(self.seq()[a] == s[a0] && self.seq()[b] == s[b0]);
                    }
                    assert forall|x: T| self@.contains(x) <==> old(self)@.remove(*value).contains(
                        x,
                    ) by {
                        if self@.contains(x) {
                            let k = choose|k: int| 0 <= k < self.seq().len() && self.seq()[k] == x;
                            let k0 = if k < i { k } else { k + 1 };
                            assert(s[k0] == x);
                            assert(k0 != i);
                        }
                        if old(self)@.remove(*value).contains(x) {
                            let k = choose|k: int| 0 <= k < s.len() && s[k] == x;
                            assert(k != i);
                            let k1 = if k < i { k } else { k - 1 };
                            assert(self.seq()[k1] == x);
                        }
                    }
                    assert(self@ =~= old(self)@.remove(*value));
                }
                true
            },
            None => {
                assert(self@ =~= old(self)@.remove(*value));
                false
            },
        }
    }

    /// The elements, as a slice.
    pub fn as_slice(&self) -> (r: &[T])
        ensures
            r@ == self.seq(),
    {
        self.items.as_slice()
    }
}

/// A map kept as two vectors of the same length, without repeated keys.
#[derive(Clone, Debug)]
pub struct VecMap<K, V> {
    keys: Vec<K>,
    vals: Vec<V>,
}

impl<K, V> VecMap<K, V> {
    pub closed spec fn key_seq(&self) -> Seq<K> {
        self.keys@
    }

    pub closed spec fn val_seq(&self) -> Seq<V> {
        self.vals@
    }

    pub open spec fn wf(&self) -> bool {
        &&& self.key_seq().no_duplicates()
        &&& self.key_seq().len() == self.val_seq().len()
    }

    pub open spec fn index_of(&self, k: K) -> int {
        choose|i: int| 0 <= i < self.key_seq().len() && self.key_seq()[i] == k
    }
}

impl<K, V> View for VecMap<K, V> {
    type V = Map<K, V>;

    open spec fn view(&self) -> Map<K, V> {
        Map::new(|k: K| self.key_seq().contains(k), |k: K| self.val_seq()[self.index_of(k)])
    }
}

impl<K: Copy + ConcreteEq, V> VecMap<K, V> {
    pub fn new() -> (r: Self)
        ensures
            r.wf(),
            r@ == Map::<K, V>::empty(),
    {
        let r = VecMap { keys: Vec::new(), vals: Vec::new() };
        assert(r@ =~= Map::<K, V>::empty());
        r
    }

    proof fn lemma_index_of(&self, i: int)
        requires
            self.wf(),
            0 <= i < self.key_seq().len(),
        ensures
            self.index_of(self.key_seq()[i]) == i,
            self@.contains_key(self.key_seq()[i]),
            self@[self.key_seq()[i]] == self.val_seq()[i],
    {
        let k = self.key_seq()[i];
        let j = self.index_of(k);
        assert(0 <= j < self.key_seq().len() && self.key_seq()[j] == k);
    }

    fn find(&self, key: &K) -> (r: Option<usize>)
        requires
            self.wf(),
        ensures
            r matches Some(i) ==> i < self.key_seq().len() && self.key_seq()[i as int] == *key
                && self.index_of(*key) == i,
            r is None ==> !self@.contains_key(*key),
    {
        proof {
            K::lemma_eq_is_equality();
            reveal(vstd::laws_eq::obeys_concrete_eq);
        }
        let mut i: usize = 0;
        while i < self.keys.len()
            invariant
                vstd::laws_eq::obeys_concrete_eq::<K>(),
                self.wf(),
                i <= self.key_seq().len(),
                forall|j: int| 0 <= j < i ==> self.key_seq()[j] != *key,
            decreases self.key_seq().len() - i,
        {
            proof {
                reveal(vstd::laws_eq::obeys_concrete_eq);
            }
            if self.keys[i] == *key {
                proof {
                    self.lemma_index_of(i as int);
                }
                return Some(i);
            }
            i += 1;
        }
        None
    }

    pub fn contains_key(&self, key: &K) -> (r: bool)
        requires
            self.wf(),
        ensures
            r == self@.contains_key(*key),
    {
        match self.find(key) {
            Some(i) => {
                proof {
                    self.lemma_index_of(i as int);
                }
                true
            },
            None => false,
        }
    }

    pub fn get(&self, key: &K) -> (r: Option<&V>)
        requires
            self.wf(),
        ensures
            r matches Some(v) ==> self@.contains_key(*key) && *v == self@[*key],
            r is None ==> !self@.contains_key(*key),
    {
        match self.find(key) {
            Some(i) => {
                proof {
                    self.lemma_index_of(i as int);
                }
                Some(&self.vals[i])
            },
            None => None,
        }
    }

    pub fn is_empty(&self) -> (r: bool)
        requires
            self.wf(),
        ensures
            r == (self@ == Map::<K, V>::empty()),
    {
        if self.keys.len() == 0 {
            assert(self@ =~= Map::<K, V>::empty());
            true
        } else {
            proof {
                self.lemma_index_of(0);
            }
            assert(self@.contains_key(self.key_seq()[0]));
            false
        }
    }

    /// The keys, in the order they are kept.
    pub fn keys(&self) -> (r: &[K])
        ensures
            r@ == self.key_seq(),
    {
        self.keys.as_slice()
    }

    /// The values, in the order the keys are kept.
    pub fn values(&self) -> (r: &[V])
        ensures
            r@ == self.val_seq(),
    {
        self.vals.as_slice()
    }

    /// The map holds each kept key with the value kept beside it, and no
    /// other key.
    pub proof fn lemma_values(&self)
        requires
            self.wf(),
        ensures
            forall|i: int| 0 <= i < self.key_seq().len() ==> #[trigger] self@.contains_key(self.key_seq()[i]) && self@[self.key_seq()[i]] == self.val_seq()[i],
            forall|k: K| #[trigger] self@.contains_key(k) ==> exists|i: int| 0 <= i < self.key_seq().len() && self.key_seq()[i] == k,
    {
        assert forall|i: int| 0 <= i < self.key_seq().len() implies #[trigger] self@.contains_key(self.key_seq()[i]) && self@[self.key_seq()[i]] == self.val_seq()[i] by {
            self.lemma_index_of(i);
        }
    }

    /// Removes `key`, giving back its value when it had one.
    pub fn remove(&mut self, key: &K) -> (r: Option<V>)
        requires
            old(self).wf(),
        ensures
            final(self).wf(),
            final(self)@ == old(self)@.remove(*key),
            r matches Some(v) ==> old(self)@.contains_key(*key) && v == old(self)@[*key],
            r is None ==> !old(self)@.contains_key(*key),
    {
        match self.find(key) {
            Some(i) => {
                let ghost ks = self.key_seq();
                let ghost vs = self.val_seq();
                proof {
                    self.lemma_index_of(i as int);
                }
                self.keys.remove(i);
                let v = self.vals.remove(i);
                proof {
                    assert(self.key_seq() =~= ks.remove(i as int));
                    assert(self.val_seq() =~= vs.remove(i as int));
                    assert forall|a: int, b: int|
                        0 <= a < b < self.key_seq().len() implies self.key_seq()[a]
                        != self.key_seq()[b] by {
                        let a0 = if a < i { a } else { a + 1 };
                        let b0 = if b < i { b } else { b + 1 };
                        assert(self.key_seq()[a] == ks[a0] && self.key_seq()[b] == ks[b0]);
                    }
                    assert forall|k: K| #[trigger]
                        self@.contains_key(k) <==> old(self)@.remove(*key).contains_key(k) by {
                        if self@.contains_key(k) {
                            let j = choose|j: int| 0 <= j < self.key_seq().len() && self.key_seq()[j] == k;
                            let j0 = if j < i { j } else { j + 1 };
                            assert(ks[j0] == k);
                        }
                        if old(self)@.remove(*key).contains_key(k) {
                            let j = choose|j: int| 0 <= j < ks.len() && ks[j] == k;
                            assert(j != i);
                            let j1 = if j < i { j } else { j - 1 };
                            assert(self.key_seq()[j1] == k);
                        }
                    }
                    assert forall|k: K| #[trigger]
                        self@.contains_key(k) implies self@[k] == old(self)@[k] by {
                        let j = choose|j: int| 0 <= j < self.key_seq().len() && self.key_seq()[j] == k;
                        self.lemma_index_of(j);
                        let j0 = if j < i { j } else { j + 1 };
                        old(self).lemma_index_of(j0);
                    }
                    assert(self@ =~= old(self)@.remove(*key));
                }
                Some(v)
            },
            None => {
                assert(self@ =~= old(self)@.remove(*key));
                None
            },
        }
    }

    /// Sets the value of `key`, giving back the value it had before.
    pub fn insert(&mut self, key: K, value: V) -> (r: Option<V>)
        requires
            old(self).wf(),
        ensures
            final(self).wf(),
            final(self)@ == old(self)@.insert(key, value),
            r matches Some(v) ==> old(self)@.contains_key(key) && v == old(self)@[key],
            r is None ==> !old(self)@.contains_key(key),
    {
        let r = self.remove(&key);
        let ghost mid = *self;
        self.keys.push(key);
        self.vals.push(value);
        proof {
            assert(self.key_seq() =~= mid.key_seq().push(key));
            assert(self.val_seq() =~= mid.val_seq().push(value));
            assert(!mid@.contains_key(key));
            assert forall|a: int, b: int|
                0 <= a < b < self.key_seq().len() implies self.key_seq()[a] != self.key_seq()[b] by {
                if b == self.key_seq().len() - 1 {
                    assert(mid.key_seq().contains(mid.key_seq()[a]));
                }
            }
            let n = self.key_seq().len() - 1;
            self.lemma_index_of(n);
            assert forall|k: K| #[trigger] self@.contains_key(k) && k != key implies self@[k]
                == mid@[k] by {
                let j = choose|j: int| 0 <= j < self.key_seq().len() && self.key_seq()[j] == k;
                self.lemma_index_of(j);
                mid.lemma_index_of(j);
            }
            assert forall|k: K| #[trigger] self@.contains_key(k) == old(self)@.insert(
                key,
                value,
            ).contains_key(k) by {
                if mid.key_seq().contains(k) {
                    let j = choose|j: int| 0 <= j < mid.key_seq().len() && mid.key_seq()[j] == k;
                    assert(self.key_seq()[j] == k);
                }
                if self.key_seq().contains(k) && k != key {
                    let j = choose|j: int| 0 <= j < self.key_seq().len() && self.key_seq()[j] == k;
                    assert(j < mid.key_seq().len());
                    assert(mid.key_seq()[j] == k);
                }
            }
            assert(self@ =~= old(self)@.insert(key, value));
        }
        r
    }
}


/// A map from strings, kept as two vectors of the same length, without
/// repeated keys.
#[derive(Clone, Debug)]
pub struct StrMap<V> {
    keys: Vec<String>,
    vals: Vec<V>,
}

impl<V> StrMap<V> {
    pub closed spec fn key_seq(&self) -> Seq<Seq<char>> {
        self.keys@.map_values(|k: String| k@)
    }

    pub closed spec fn val_seq(&self) -> Seq<V> {
        self.vals@
    }

    pub open spec fn wf(&self) -> bool {
        &&& self.key_seq().no_duplicates()
        &&& self.key_seq().len() == self.val_seq().len()
    }

    pub open spec fn index_of(&self, k: Seq<char>) -> int {
        choose|i: int| 0 <= i < self.key_seq().len() && self.key_seq()[i] == k
    }
}

impl<V> View for StrMap<V> {
    type V = Map<Seq<char>, V>;

    open spec fn view(&self) -> Map<Seq<char>, V> {
        Map::new(
            |k: Seq<char>| self.key_seq().contains(k),
            |k: Seq<char>| self.val_seq()[self.index_of(k)],
        )
    }
}

impl<V> StrMap<V> {
    pub fn new() -> (r: Self)
        ensures
            r.wf(),
            r@ == Map::<Seq<char>, V>::empty(),
    {
        let r = StrMap { keys: Vec::new(), vals: Vec::new() };
        assert(r.key_seq() =~= Seq::<Seq<char>>::empty());
        assert(r@ =~= Map::<Seq<char>, V>::empty());
        r
    }

    proof fn lemma_index_of(&self, i: int)
        requires
            self.wf(),
            0 <= i < self.key_seq().len(),
        ensures
            self.index_of(self.key_seq()[i]) == i,
            self@.contains_key(self.key_seq()[i]),
            self@[self.key_seq()[i]] == self.val_seq()[i],
    {
        let k = self.key_seq()[i];
        let j = self.index_of(k);
        assert(0 <= j < self.key_seq().len() && self.key_seq()[j] == k);
    }

    fn find(&self, key: &String) -> (r: Option<usize>)
        requires
            self.wf(),
        ensures
            r matches Some(i) ==> i < self.key_seq().len() && self.key_seq()[i as int] == key@
                && self.index_of(key@) == i,
            r is None ==> !self@.contains_key(key@),
    {
        let mut i: usize = 0;
        while i < self.keys.len()
            invariant
                self.wf(),
                i <= self.key_seq().len(),
                forall|j: int| 0 <= j < i ==> self.key_seq()[j] != key@,
            decreases self.key_seq().len() - i,
        {
            if self.keys[i] == *key {
                proof {
                    self.lemma_index_of(i as int);
                }
                return Some(i);
            }
            i += 1;
        }
        None
    }

    pub fn contains_key(&self, key: &String) -> (r: bool)
        requires
            self.wf(),
        ensures
            r == self@.contains_key(key@),
    {
        match self.find(key) {
            Some(i) => {
                proof {
                    self.lemma_index_of(i as int);
                }
                true
            },
            None => false,
        }
    }

    pub fn get(&self, key: &String) -> (r: Option<&V>)
        requires
            self.wf(),
        ensures
            r matches Some(v) ==> self@.contains_key(key@) && *v == self@[key@],
            r is None ==> !self@.contains_key(key@),
    {
        match self.find(key) {
            Some(i) => {
                proof {
                    self.lemma_index_of(i as int);
                }
                Some(&self.vals[i])
            },
            None => None,
        }
    }

    /// Sets the value of `key`.
    pub fn insert(&mut self, key: String, value: V)
        requires
            old(self).wf(),
        ensures
            final(self).wf(),
            final(self)@ == old(self)@.insert(key@, value),
    {
        match self.find(&key) {
            Some(i) => {
                let ghost ks = self.key_seq();
                self.vals.set(i, value);
                proof {
                    assert(self.key_seq() =~= ks);
                    assert forall|k: Seq<char>| #[trigger] self@.contains_key(k) implies self@[k]
                        == old(self)@.insert(key@, value)[k] by {
                        let j = choose|j: int| 0 <= j < self.key_seq().len() && self.key_seq()[j] == k;
                        self.lemma_index_of(j);
                        old(self).lemma_index_of(j);
                    }
                    assert(self@ =~= old(self)@.insert(key@, value));
                }
            },
            None => {
                let ghost mid = *self;
                self.keys.push(key);
                self.vals.push(value);
                proof {
                    assert(self.key_seq() =~= mid.key_seq().push(key@));
                    assert(self.val_seq() =~= mid.val_seq().push(value));
                    assert forall|a: int, b: int|
                        0 <= a < b < self.key_seq().len() implies self.key_seq()[a] != self.key_seq()[b] by {
                        if b == self.key_seq().len() - 1 {
                            assert(mid.key_seq().contains(mid.key_seq()[a]));
                        }
                    }
                    let n = self.key_seq().len() - 1;
                    self.lemma_index_of(n);
                    assert forall|k: Seq<char>| #[trigger] self@.contains_key(k) && k != key@ implies self@[k]
                        == mid@[k] by {
                        let j = choose|j: int| 0 <= j < self.key_seq().len() && self.key_seq()[j] == k;
                        self.lemma_index_of(j);
                        mid.lemma_index_of(j);
                    }
                    assert forall|k: Seq<char>| #[trigger] self@.contains_key(k) == old(self)@.insert(
                        key@,
                        value,
                    ).contains_key(k) by {
                        if mid.key_seq().contains(k) {
                            let j = choose|j: int| 0 <= j < mid.key_seq().len() && mid.key_seq()[j] == k;
                            assert(self.key_seq()[j] == k);
                        }
                        if self.key_seq().contains(k) && k != key@ {
                            let j = choose|j: int| 0 <= j < self.key_seq().len() && self.key_seq()[j] == k;
                            assert(j < mid.key_seq().len());
                            assert(mid.key_seq()[j] == k);
                        }
                    }
                    assert(self@ =~= old(self)@.insert(key@, value));
                }
            },
        }
    }
}

} // verus!

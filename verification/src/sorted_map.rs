//! A map from `u64` keys that keeps its entries in ascending key order.
use vstd::prelude::*;

verus! {

/// Strictly ascending.
pub open spec fn ascending(keys: Seq<u64>) -> bool {
    forall|i: int, j: int| 0 <= i < j < keys.len() ==> keys[i] < keys[j]
}

/// The map that gives each key the value at the same place.
pub open spec fn paired<V>(keys: Seq<u64>, vals: Seq<V>) -> Map<u64, V> {
    Map::new(|k: u64| keys.contains(k), |k: u64| vals[keys.index_of(k)])
}

/// A map from `u64` keys to values, in ascending key order.
pub struct SortedMap<V> {
    keys: Vec<u64>,
    vals: Vec<V>,
}

impl<V> View for SortedMap<V> {
    type V = Map<u64, V>;

    closed spec fn view(&self) -> Map<u64, V> {
        paired(self.keys@, self.vals@)
    }
}

impl<V> SortedMap<V> {
    /// Keys ascend, and each has a value.
    pub closed spec fn wf(&self) -> bool {
        ascending(self.keys@) && self.keys@.len() == self.vals@.len()
    }

    /// The keys, in ascending order.
    pub closed spec fn order(&self) -> Seq<u64> {
        self.keys@
    }

    /// A key is found at its place.
    proof fn lemma_at(&self, i: int)
        requires
            self.wf(),
            0 <= i < self.keys@.len(),
        ensures
            self@.dom().contains(self.keys@[i]),
            self@[self.keys@[i]] == self.vals@[i],
    {
        let k = self.keys@[i];
        let j = self.keys@.index_of(k);
        assert(self.keys@.contains(k));
        assert(0 <= j < self.keys@.len() && self.keys@[j] == k);
        assert(i == j);
    }

    /// The order holds each key of the map once, ascending.
    pub proof fn lemma_order(&self)
        requires
            self.wf(),
        ensures
            ascending(self.order()),
            forall|k: u64| #[trigger] self@.dom().contains(k) <==> self.order().contains(k),
            self@.dom().finite(),
            self@.dom().len() == self.order().len(),
    {
        let keys = self.keys@;
        assert(keys.no_duplicates());
        keys.unique_seq_to_set();
        assert(self@.dom() =~= keys.to_set());
    }

    /// An empty map.
    pub fn new() -> (m: SortedMap<V>)
        ensures
            m.wf(),
            m@ == Map::<u64, V>::empty(),
            m.order() == Seq::<u64>::empty(),
    {
        let m = SortedMap { keys: Vec::new(), vals: Vec::new() };
        assert(m@ =~= Map::<u64, V>::empty());
        m
    }

    /// How many entries there are.
    pub fn len(&self) -> (n: usize)
        requires
            self.wf(),
        ensures
            n == self.order().len(),
            n == self@.dom().len(),
    {
        proof {
            self.lemma_order();
        }
        self.keys.len()
    }

    /// Where `key` stands, or where it would.
    fn position(&self, key: u64) -> (r: (bool, usize))
        requires
            self.wf(),
        ensures
            r.1 <= self.keys@.len(),
            r.0 ==> r.1 < self.keys@.len() && self.keys@[r.1 as int] == key,
            r.0 == self@.dom().contains(key),
            forall|i: int| 0 <= i < r.1 ==> self.keys@[i] < key,
            !r.0 ==> forall|i: int| r.1 <= i < self.keys@.len() ==> self.keys@[i] > key,
    {
        let mut i: usize = 0;
        while i < self.keys.len()
            invariant
                self.wf(),
                i <= self.keys@.len(),
                forall|j: int| 0 <= j < i ==> self.keys@[j] < key,
            decreases self.keys@.len() - i,
        {
            if self.keys[i] == key {
                proof {
                    self.lemma_at(i as int);
                }
                return (true, i);
            }
            if self.keys[i] > key {
                return (false, i);
            }
            i = i + 1;
        }
        (false, i)
    }

    /// Whether `key` has a value.
    pub fn contains_key(&self, key: u64) -> (r: bool)
        requires
            self.wf(),
        ensures
            r == self@.dom().contains(key),
    {
        self.position(key).0
    }

    /// The value of `key`.
    pub fn get(&self, key: u64) -> (r: Option<&V>)
        requires
            self.wf(),
        ensures
            match r {
                Some(v) => self@.dom().contains(key) && *v == self@[key],
                None => !self@.dom().contains(key),
            },
    {
        let (found, i) = self.position(key);
        if found {
            proof {
                self.lemma_at(i as int);
            }
            Some(&self.vals[i])
        } else {
            None
        }
    }

    /// The value of `key`, to be changed.
    pub fn get_mut(&mut self, key: u64) -> (r: Option<&mut V>)
        requires
            old(self).wf(),
        ensures
            final(self).wf(),
            final(self).order() == old(self).order(),
            match r {
                Some(v) => {
                    &&& old(self)@.dom().contains(key)
                    &&& *v == old(self)@[key]
                    &&& final(self)@ == old(self)@.insert(key, *final(v))
                },
                None => !old(self)@.dom().contains(key) && *final(self) == *old(self),
            },
    {
        let (found, i) = self.position(key);
        if found {
            proof {
                self.lemma_at(i as int);
                lemma_replaced(self.keys@, self.vals@, i as int);
            }
            Some(&mut self.vals[i])
        } else {
            None
        }
    }

    /// Give `key` the value `value`; the one it had comes back.
    pub fn insert(&mut self, key: u64, value: V) -> (r: Option<V>)
        requires
            old(self).wf(),
        ensures
            final(self).wf(),
            final(self)@ == old(self)@.insert(key, value),
            match r {
                Some(v) => {
                    &&& old(self)@.dom().contains(key)
                    &&& v == old(self)@[key]
                    &&& final(self).order() == old(self).order()
                },
                None => {
                    &&& !old(self)@.dom().contains(key)
                    &&& final(self).order().len() == old(self).order().len() + 1
                },
            },
    {
        let (found, i) = self.position(key);
        if found {
            proof {
                self.lemma_at(i as int);
                lemma_replaced(self.keys@, self.vals@, i as int);
            }
            let mut slot: V = value;
            core::mem::swap(&mut self.vals[i], &mut slot);
            assert(self@ =~= old(self)@.insert(key, value));
            Some(slot)
        } else {
            self.keys.insert(i, key);
            self.vals.insert(i, value);
            proof {
                assert forall|a: int| 0 <= a < self.keys@.len() implies self@.dom().contains(
                    #[trigger] self.keys@[a],
                ) && self@[self.keys@[a]] == self.vals@[a] by {
                    self.lemma_at(a);
                }
                assert forall|k: u64| #[trigger] self@.dom().contains(k) implies old(
                    self,
                )@.dom().contains(k) || k == key by {
                    let a = self.keys@.index_of(k);
                    assert(self.keys@.contains(k));
                    if a < i {
                        old(self).lemma_at(a);
                    } else if a > i {
                        old(self).lemma_at(a - 1);
                    }
                }
                assert forall|k: u64| #[trigger] old(self)@.dom().contains(k) implies
                    self@.dom().contains(k) && self@[k] == old(self)@[k] by {
                    let a = old(self).keys@.index_of(k);
                    assert(old(self).keys@.contains(k));
                    old(self).lemma_at(a);
                    let b = if a < i {
                        a
                    } else {
                        a + 1
                    };
                    assert(self.keys@[b] == k);
                }
                assert(self.keys@[i as int] == key);
                assert(self@ =~= old(self)@.insert(key, value));
            }
            None
        }
    }

    /// Take `key` out; its value comes back.
    pub fn remove(&mut self, key: u64) -> (r: Option<V>)
        requires
            old(self).wf(),
        ensures
            final(self).wf(),
            final(self)@ == old(self)@.remove(key),
            match r {
                Some(v) => {
                    &&& old(self)@.dom().contains(key)
                    &&& v == old(self)@[key]
                    &&& final(self).order().len() == old(self).order().len() - 1
                },
                None => !old(self)@.dom().contains(key) && *final(self) == *old(self),
            },
    {
        let (found, i) = self.position(key);
        if found {
            proof {
                self.lemma_at(i as int);
            }
            self.keys.remove(i);
            let v: V = self.vals.remove(i);
            proof {
                assert forall|a: int| 0 <= a < self.keys@.len() implies self@.dom().contains(
                    #[trigger] self.keys@[a],
                ) && self@[self.keys@[a]] == self.vals@[a] by {
                    self.lemma_at(a);
                }
                assert forall|k: u64| #[trigger] self@.dom().contains(k) implies old(
                    self,
                )@.dom().contains(k) && k != key && self@[k] == old(self)@[k] by {
                    let a = self.keys@.index_of(k);
                    assert(self.keys@.contains(k));
                    let b = if a < i {
                        a
                    } else {
                        a + 1
                    };
                    assert(old(self).keys@[b] == k);
                    old(self).lemma_at(b);
                }
                assert forall|k: u64| #[trigger] old(self)@.dom().contains(k) && k != key implies
                    self@.dom().contains(k) by {
                    let a = old(self).keys@.index_of(k);
                    assert(old(self).keys@.contains(k));
                    let b = if a < i {
                        a
                    } else {
                        a - 1
                    };
                    assert(self.keys@[b] == k);
                }
                assert(self@ =~= old(self)@.remove(key));
            }
            Some(v)
        } else {
            assert(self@ =~= old(self)@.remove(key));
            None
        }
    }

    /// The `i`-th key, in ascending order.
    pub fn key_at(&self, i: usize) -> (k: u64)
        requires
            self.wf(),
            i < self.order().len(),
        ensures
            k == self.order()[i as int],
            self@.dom().contains(k),
    {
        proof {
            self.lemma_at(i as int);
        }
        self.keys[i]
    }

    /// The value of the `i`-th key, in ascending order.
    pub fn value_at(&self, i: usize) -> (v: &V)
        requires
            self.wf(),
            i < self.order().len(),
        ensures
            self@.dom().contains(self.order()[i as int]),
            *v == self@[self.order()[i as int]],
    {
        proof {
            self.lemma_at(i as int);
        }
        &self.vals[i]
    }
}

/// Replacing the value at a place replaces the value of its key.
proof fn lemma_replaced<V>(keys: Seq<u64>, vals: Seq<V>, i: int)
    requires
        ascending(keys),
        keys.len() == vals.len(),
        0 <= i < keys.len(),
    ensures
        forall|v: V| #[trigger]
            paired(keys, vals.update(i, v)) == paired(keys, vals).insert(keys[i], v),
{
    assert forall|v: V| #[trigger]
        paired(keys, vals.update(i, v)) == paired(keys, vals).insert(keys[i], v) by {
        assert(keys.contains(keys[i]));
        assert(paired(keys, vals.update(i, v)) =~= paired(keys, vals).insert(keys[i], v));
    }
}

} // verus!

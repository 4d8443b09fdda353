use vstd::prelude::*;

verus! {

/// A map that remembers insertion order: entries live in a vector, oldest
/// first, and keys are pairwise distinct. Lookups walk the vector, which is
/// all the grammar front end needs; the payoff is a fully specified view
/// (`self@` is the ordered sequence of entries).
pub struct OrdHashMap<K, V> {
    entries: Vec<(K, V)>,
}

impl<K, V> View for OrdHashMap<K, V> {
    type V = Seq<(K, V)>;

    closed spec fn view(&self) -> Seq<(K, V)> {
        self.entries@
    }
}

/// Borrowing iterator over the entries of an [`OrdHashMap`], oldest first.
pub struct Iter<'a, K, V> {
    map: &'a OrdHashMap<K, V>,
    pos: usize,
}

/// Consuming iterator over the entries of an [`OrdHashMap`], oldest first.
pub struct IntoIter<K, V> {
    rest: Vec<(K, V)>,
}

impl<K, V> OrdHashMap<K, V> {
    /// Creates an empty map.
    pub fn new() -> (m: Self)
        ensures
            m@ == Seq::<(K, V)>::empty(),
    {
        OrdHashMap { entries: Vec::new() }
    }

    /// The number of entries held.
    pub fn len(&self) -> (n: usize)
        ensures
            n == self@.len(),
    {
        self.entries.len()
    }

    /// The key of the entry at position `i` in insertion order.
    pub fn key_at(&self, i: usize) -> (k: &K)
        requires
            i < self@.len(),
        ensures
            *k == self@[i as int].0,
    {
        &self.entries[i].0
    }

    /// The value of the entry at position `i` in insertion order.
    pub fn value_at(&self, i: usize) -> (v: &V)
        requires
            i < self@.len(),
        ensures
            *v == self@[i as int].1,
    {
        &self.entries[i].1
    }

    /// A borrowing iterator positioned at the oldest entry.
    pub fn iter<'a>(&'a self) -> (it: Iter<'a, K, V>)
        ensures
            it.inv(),
            it.remaining() == self@,
    {
        Iter { map: self, pos: 0 }
    }

    /// A consuming iterator positioned at the oldest entry.
    pub fn into_iter(self) -> (it: IntoIter<K, V>)
        ensures
            it.remaining() == self@,
    {
        IntoIter { rest: self.entries }
    }
}

impl<'a, K, V> Iter<'a, K, V> {
    /// The entries not yet handed out.
    pub closed spec fn remaining(&self) -> Seq<(K, V)> {
        self.map@.skip(self.pos as int)
    }

    pub closed spec fn inv(&self) -> bool {
        self.pos <= self.map@.len()
    }

    /// Hands out the next entry, oldest first, or `None` at the end.
    pub fn next(&mut self) -> (r: Option<(&'a K, &'a V)>)
        requires
            old(self).inv(),
        ensures
            final(self).inv(),
            old(self).remaining().len() == 0 ==> r is None && final(self).remaining()
                == old(self).remaining(),
            old(self).remaining().len() > 0 ==> match r {
                Some(kv) => *kv.0 == old(self).remaining()[0].0 && *kv.1 == old(
                    self,
                ).remaining()[0].1 && final(self).remaining() == old(self).remaining().skip(1),
                None => false,
            },
    {
        if self.pos < self.map.entries.len() {
            let k = &self.map.entries[self.pos].0;
            let v = &self.map.entries[self.pos].1;
            self.pos = self.pos + 1;
            proof {
                assert(final(self).remaining() =~= old(self).remaining().skip(1));
            }
            Some((k, v))
        } else {
            None
        }
    }
}

impl<K, V> IntoIter<K, V> {
    /// The entries not yet handed out.
    pub closed spec fn remaining(&self) -> Seq<(K, V)> {
        self.rest@
    }

    /// Hands out the next entry, oldest first, or `None` at the end.
    pub fn next(&mut self) -> (r: Option<(K, V)>)
        ensures
            old(self).remaining().len() == 0 ==> r is None && final(self).remaining()
                == old(self).remaining(),
            old(self).remaining().len() > 0 ==> match r {
                Some(kv) => kv == old(self).remaining()[0] && final(self).remaining() == old(
                    self,
                ).remaining().skip(1),
                None => false,
            },
    {
        if self.rest.len() > 0 {
            let kv = self.rest.remove(0);
            proof {
                assert(final(self).remaining() =~= old(self).remaining().skip(1));
            }
            Some(kv)
        } else {
            None
        }
    }
}

impl<V> OrdHashMap<String, V> {
    /// Keys are pairwise distinct.
    pub open spec fn wf(&self) -> bool {
        forall|i: int, j: int| 0 <= i < j < self@.len() ==> self@[i].0@ != self@[j].0@
    }

    /// Some entry holds this key.
    pub open spec fn contains_key(&self, key: Seq<char>) -> bool {
        exists|i: int| 0 <= i < self@.len() && self@[i].0@ == key
    }

    /// Finds the position of a key, scanning oldest first.
    fn find(&self, key: &String) -> (r: Option<usize>)
        ensures
            match r {
                Some(i) => i < self@.len() && self@[i as int].0@ == key@,
                None => !self.contains_key(key@),
            },
    {
        let n = self.entries.len();
        let mut i: usize = 0;
        while i < n
            invariant
                n == self@.len(),
                i <= n,
                forall|j: int| 0 <= j < i ==> self@[j].0@ != key@,
            decreases n - i,
        {
            if self.entries[i].0 == *key {
                return Some(i);
            }
            i = i + 1;
        }
        None
    }

    /// Looks a key up; `Some` exactly when the key is present.
    pub fn get(&self, key: &String) -> (r: Option<&V>)
        ensures
            r is Some <==> self.contains_key(key@),
            match r {
                Some(v) => exists|i: int|
                    0 <= i < self@.len() && self@[i].0@ == key@ && *v == self@[i].1,
                None => true,
            },
    {
        match self.find(key) {
            Some(i) => Some(&self.entries[i].1),
            None => None,
        }
    }

    /// Removes the entry holding this key, if any, keeping the order of the
    /// rest.
    pub fn remove(&mut self, key: &String) -> (r: Option<V>)
        requires
            old(self).wf(),
        ensures
            final(self).wf(),
            match r {
                Some(v) => exists|i: int|
                    {
                        &&& 0 <= i < old(self)@.len()
                        &&& old(self)@[i].0@ == key@
                        &&& v == old(self)@[i].1
                        &&& final(self)@ == old(self)@.remove(i)
                    },
                None => !old(self).contains_key(key@) && final(self)@ == old(self)@,
            },
            !final(self).contains_key(key@),
    {
        match self.find(key) {
            Some(i) => {
                let kv = self.entries.remove(i);
                proof {
                    let s = old(self)@;
                    let t = final(self)@;
                    assert forall|p: int, q: int| 0 <= p < q < t.len() implies t[p].0@
                        != t[q].0@ by {
                        s.remove_ensures(i as int);
                    }
                    assert forall|p: int| 0 <= p < t.len() implies t[p].0@ != key@ by {
                        s.remove_ensures(i as int);
                    }
                }
                Some(kv.1)
            },
            None => None,
        }
    }

    /// Inserts an entry. The new entry always becomes the youngest, whether or
    /// not the key was present before; the displaced value, if any, is handed
    /// back.
    pub fn insert(&mut self, key: String, value: V) -> (r: Option<V>)
        requires
            old(self).wf(),
        ensures
            final(self).wf(),
            match r {
                Some(v) => exists|i: int|
                    {
                        &&& 0 <= i < old(self)@.len()
                        &&& old(self)@[i].0@ == key@
                        &&& v == old(self)@[i].1
                        &&& final(self)@ == old(self)@.remove(i).push((key, value))
                    },
                None => !old(self).contains_key(key@) && final(self)@ == old(self)@.push(
                    (key, value),
                ),
            },
    {
        let r = self.remove(&key);
        self.entries.push((key, value));
        r
    }
}


impl<V> OrdHashMap<u64, V> {
    /// Keys are pairwise distinct.
    pub open spec fn wf_int(&self) -> bool {
        forall|i: int, j: int| 0 <= i < j < self@.len() ==> self@[i].0 != self@[j].0
    }

    /// Some entry holds this key.
    pub open spec fn contains_int_key(&self, key: u64) -> bool {
        exists|i: int| 0 <= i < self@.len() && self@[i].0 == key
    }

    /// Finds the position of a key, scanning oldest first.
    fn find_int(&self, key: u64) -> (r: Option<usize>)
        ensures
            match r {
                Some(i) => i < self@.len() && self@[i as int].0 == key,
                None => !self.contains_int_key(key),
            },
    {
        let n = self.entries.len();
        let mut i: usize = 0;
        while i < n
            invariant
                n == self@.len(),
                i <= n,
                forall|j: int| 0 <= j < i ==> self@[j].0 != key,
            decreases n - i,
        {
            if self.entries[i].0 == key {
                return Some(i);
            }
            i = i + 1;
        }
        None
    }

    /// Looks a key up; `Some` exactly when the key is present.
    pub fn get(&self, key: u64) -> (r: Option<&V>)
        ensures
            r is Some <==> self.contains_int_key(key),
            match r {
                Some(v) => exists|i: int|
                    0 <= i < self@.len() && self@[i].0 == key && *v == self@[i].1,
                None => true,
            },
    {
        match self.find_int(key) {
            Some(i) => Some(&self.entries[i].1),
            None => None,
        }
    }

    /// Removes the entry holding this key, if any, keeping the order of the
    /// rest.
    pub fn remove(&mut self, key: u64) -> (r: Option<V>)
        requires
            old(self).wf_int(),
        ensures
            final(self).wf_int(),
            match r {
                Some(v) => exists|i: int|
                    {
                        &&& 0 <= i < old(self)@.len()
                        &&& old(self)@[i].0 == key
                        &&& v == old(self)@[i].1
                        &&& final(self)@ == old(self)@.remove(i)
                    },
                None => !old(self).contains_int_key(key) && final(self)@ == old(self)@,
            },
            !final(self).contains_int_key(key),
    {
        match self.find_int(key) {
            Some(i) => {
                let kv = self.entries.remove(i);
                proof {
                    let s = old(self)@;
                    let t = final(self)@;
                    assert forall|p: int, q: int| 0 <= p < q < t.len() implies t[p].0
                        != t[q].0 by {
                        s.remove_ensures(i as int);
                    }
                    assert forall|p: int| 0 <= p < t.len() implies t[p].0 != key by {
                        s.remove_ensures(i as int);
                    }
                }
                Some(kv.1)
            },
            None => None,
        }
    }

    /// Inserts an entry. The new entry always becomes the youngest, whether
    /// or not the key was present before; the displaced value, if any, is
    /// handed back.
    pub fn insert(&mut self, key: u64, value: V) -> (r: Option<V>)
        requires
            old(self).wf_int(),
        ensures
            final(self).wf_int(),
            match r {
                Some(v) => exists|i: int|
                    {
                        &&& 0 <= i < old(self)@.len()
                        &&& old(self)@[i].0 == key
                        &&& v == old(self)@[i].1
                        &&& final(self)@ == old(self)@.remove(i).push((key, value))
                    },
                None => !old(self).contains_int_key(key) && final(self)@ == old(self)@.push(
                    (key, value),
                ),
            },
    {
        let r = self.remove(key);
        self.entries.push((key, value));
        r
    }
}

} // verus!

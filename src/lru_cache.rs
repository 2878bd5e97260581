//! A bounded cache that evicts the least recently used entry.
use vstd::prelude::*;

verus! {

/// No key occurs twice.
pub open spec fn unique_keys<V>(s: Seq<(u64, V)>) -> bool {
    forall|i: int, j: int| 0 <= i < j < s.len() ==> s[i].0 != s[j].0
}

pub open spec fn has_key<V>(s: Seq<(u64, V)>, k: u64) -> bool {
    exists|i: int| 0 <= i < s.len() && s[i].0 == k
}

#[derive(Debug)]
pub struct LRUCache<V> {
    capacity: usize,
    entries: Vec<(u64, V)>,
}

impl<V> LRUCache<V> {
    /// The entries from the least to the most recently used.
    pub closed spec fn entries(&self) -> Seq<(u64, V)> {
        self.entries@
    }

    pub closed spec fn capacity(&self) -> nat {
        self.capacity as nat
    }

    pub open spec fn well_formed(&self) -> bool {
        &&& unique_keys(self.entries())
        &&& 0 < self.capacity()
        &&& self.entries().len() <= self.capacity()
    }

    pub fn new(capacity: usize) -> (r: Self)
        requires
            capacity > 0,
        ensures
            r.well_formed(),
            r.capacity() == capacity,
            r.entries() == Seq::<(u64, V)>::empty(),
    {
        LRUCache { capacity, entries: Vec::new() }
    }

    fn position(&self, key: &u64) -> (r: Option<usize>)
        ensures
            r is Some ==> r.unwrap() < self.entries().len() && self.entries()[r.unwrap() as int].0
                == *key,
            r is None <==> !has_key(self.entries(), *key),
    {
        let mut i: usize = 0;
        while i < self.entries.len()
            invariant
                i <= self.entries().len(),
                forall|j: int| 0 <= j < i ==> self.entries()[j].0 != *key,
            decreases self.entries().len() - i,
        {
            if self.entries[i].0 == *key {
                return Some(i);
            }
            i = i + 1;
        }
        None
    }

    /// Moves entry `i` to the most recently used place.
    fn touch(&mut self, i: usize)
        requires
            old(self).well_formed(),
            i < old(self).entries().len(),
        ensures
            final(self).well_formed(),
            final(self).capacity() == old(self).capacity(),
            final(self).entries() == old(self).entries().remove(i as int).push(
                old(self).entries()[i as int],
            ),
    {
        let ghost s = self.entries();
        let e = self.entries.remove(i);
        self.entries.push(e);
        proof {
            let t = self.entries();
            assert forall|a: int, b: int| 0 <= a < b < t.len() implies t[a].0 != t[b].0 by {
                let sa = if a < i { a } else if a < t.len() - 1 { a + 1 } else { i as int };
                let sb = if b < i { b } else if b < t.len() - 1 { b + 1 } else { i as int };
                assert(t[a] == s[sa]);
                assert(t[b] == s[sb]);
            }
        }
    }

    /// The value of `key`, which becomes the most recently used entry.
    pub fn get(&mut self, key: &u64) -> (r: Option<&V>)
        requires
            old(self).well_formed(),
        ensures
            final(self).well_formed(),
            final(self).capacity() == old(self).capacity(),
            forall|i: int|
                0 <= i < old(self).entries().len() && old(self).entries()[i].0 == *key ==> {
                    &&& r == Some(&old(self).entries()[i].1)
                    &&& final(self).entries() == old(self).entries().remove(i).push(
                        old(self).entries()[i],
                    )
                },
            !has_key(old(self).entries(), *key) ==> r is None && final(self).entries() == old(
                self,
            ).entries(),
    {
        match self.position(key) {
            Some(i) => {
                let ghost s = self.entries();
                self.touch(i);
                let last = self.entries.len() - 1;
                proof {
                    assert forall|j: int| 0 <= j < s.len() && s[j].0 == *key implies j == i by {
                        if j != i {
                            assert(s[j].0 != s[i as int].0);
                        }
                    }
                }
                Some(&self.entries[last].1)
            },
            None => None,
        }
    }

    /// Sets the value of `key`, which becomes the most recently used entry. A new key in a
    /// full cache evicts the least recently used entry. Returns the value replaced.
    pub fn insert(&mut self, key: u64, value: V) -> (r: Option<V>)
        requires
            old(self).well_formed(),
        ensures
            final(self).well_formed(),
            final(self).capacity() == old(self).capacity(),
            forall|i: int|
                0 <= i < old(self).entries().len() && old(self).entries()[i].0 == key ==> {
                    &&& r == Some(old(self).entries()[i].1)
                    &&& final(self).entries() == old(self).entries().remove(i).push((key, value))
                },
            !has_key(old(self).entries(), key) ==> {
                &&& r is None
                &&& old(self).entries().len() < old(self).capacity() ==> final(self).entries()
                    == old(self).entries().push((key, value))
                &&& old(self).entries().len() == old(self).capacity() ==> final(self).entries()
                    == old(self).entries().drop_first().push((key, value))
            },
    {
        let ghost s = self.entries();
        match self.position(&key) {
            Some(i) => {
                let old_entry = self.entries.remove(i);
                self.entries.push((key, value));
                proof {
                    let t = self.entries();
                    assert forall|a: int, b: int| 0 <= a < b < t.len() implies t[a].0 != t[b].0 by {
                        let sa = if a < i { a } else if a < t.len() - 1 { a + 1 } else { i as int };
                        let sb = if b < i { b } else if b < t.len() - 1 { b + 1 } else { i as int };
                        assert(t[a].0 == s[sa].0);
                        assert(t[b].0 == s[sb].0);
                    }
                    assert forall|j: int| 0 <= j < s.len() && s[j].0 == key implies j == i by {
                        if j != i {
                            assert(s[j].0 != s[i as int].0);
                        }
                    }
                }
                Some(old_entry.1)
            },
            None => {
                if self.entries.len() == self.capacity {
                    self.entries.remove(0);
                }
                let ghost mid = self.entries();
                self.entries.push((key, value));
                proof {
                    let t = self.entries();
                    assert forall|a: int, b: int| 0 <= a < b < t.len() implies t[a].0 != t[b].0 by {
                        if b == t.len() - 1 {
                            assert(mid.contains(t[a]));
                            let k = choose|k: int| 0 <= k < mid.len() && mid[k] == t[a];
                            if mid.len() == s.len() {
                                assert(s[k].0 != key);
                            } else {
                                assert(s[k + 1] == mid[k]);
                            }
                        } else {
                            assert(t[a] == mid[a]);
                            assert(t[b] == mid[b]);
                            if mid.len() < s.len() {
                                assert(mid[a] == s[a + 1]);
                                assert(mid[b] == s[b + 1]);
                            }
                        }
                    }
                    assert(s.remove(0) =~= s.drop_first());
                }
                None
            },
        }
    }
}

} // verus!

//! A map kept as a vector of entries sorted by key.
use vstd::prelude::*;

verus! {

/// The keys strictly increase along the entries.
pub open spec fn sorted<V>(s: Seq<(u64, V)>) -> bool {
    forall|i: int, j: int| 0 <= i < j < s.len() ==> s[i].0 < s[j].0
}

/// Some entry has key `k`.
pub open spec fn has_key<V>(s: Seq<(u64, V)>, k: u64) -> bool {
    exists|i: int| 0 <= i < s.len() && s[i].0 == k
}

/// How many entries have a key below `k`: where an entry with key `k` goes.
pub open spec fn count_below<V>(s: Seq<(u64, V)>, k: u64) -> nat
    decreases s.len(),
{
    if s.len() == 0 {
        0
    } else {
        count_below(s.drop_last(), k) + if s.last().0 < k {
            1nat
        } else {
            0nat
        }
    }
}

/// In a sorted sequence whose first `lo` keys are below `k` and the rest above it,
/// `lo` entries are below `k`.
proof fn lemma_count_below_split<V>(s: Seq<(u64, V)>, k: u64, lo: int)
    requires
        0 <= lo <= s.len(),
        forall|i: int| 0 <= i < lo ==> s[i].0 < k,
        forall|i: int| lo <= i < s.len() ==> s[i].0 > k,
    ensures
        count_below(s, k) == lo,
    decreases s.len(),
{
    if s.len() > 0 {
        if lo == s.len() {
            lemma_count_below_split(s.drop_last(), k, lo - 1);
        } else {
            lemma_count_below_split(s.drop_last(), k, lo);
        }
    }
}

#[derive(Debug, PartialEq, Eq)]
pub struct FlatMap<V>(Vec<(u64, V)>);

impl<V> FlatMap<V> {
    /// The entries, in increasing order of key.
    pub closed spec fn entries(&self) -> Seq<(u64, V)> {
        self.0@
    }

    pub open spec fn well_formed(&self) -> bool {
        sorted(self.entries())
    }

    pub fn new() -> (r: Self)
        ensures
            r.entries() == Seq::<(u64, V)>::empty(),
            r.well_formed(),
    {
        FlatMap(Vec::new())
    }

    pub fn len(&self) -> (r: usize)
        ensures
            r == self.entries().len(),
    {
        self.0.len()
    }

    pub fn is_empty(&self) -> (r: bool)
        ensures
            r == (self.entries().len() == 0),
    {
        self.0.len() == 0
    }

    pub fn capacity(&self) -> (r: usize)
        ensures
            r >= self.entries().len(),
    {
        vec_capacity(&self.0)
    }

    pub fn as_slice(&self) -> (r: &[(u64, V)])
        ensures
            r@ == self.entries(),
    {
        self.0.as_slice()
    }

    /// Sets the value of `key`, returning the value it replaced.
    pub fn insert(&mut self, key: u64, value: V) -> (r: Option<V>)
        requires
            old(self).well_formed(),
        ensures
            final(self).well_formed(),
            forall|i: int|
                0 <= i < old(self).entries().len() && old(self).entries()[i].0 == key ==> {
                    &&& r == Some(old(self).entries()[i].1)
                    &&& final(self).entries() == old(self).entries().update(i, (key, value))
                },
            !has_key(old(self).entries(), key) ==> {
                &&& r is None
                &&& final(self).entries() == old(self).entries().insert(
                    count_below(old(self).entries(), key) as int,
                    (key, value),
                )
            },
    {
        let mut lo: usize = 0;
        let mut hi: usize = self.0.len();
        while lo < hi
            invariant
                self.well_formed(),
                self.entries() == old(self).entries(),
                lo <= hi <= self.entries().len(),
                forall|i: int| 0 <= i < lo ==> self.entries()[i].0 < key,
                forall|i: int| hi <= i < self.entries().len() ==> self.entries()[i].0 > key,
            decreases hi - lo,
        {
            let mid = lo + (hi - lo) / 2;
            let k = self.0[mid].0;
            if k == key {
                let ghost s = self.entries();
                let mut entry = (key, value);
                let ghost e0 = entry;
                vec_swap_at(&mut self.0, mid, &mut entry);
                proof {
                    assert(s.update(mid as int, e0) =~= self.entries());
                }
                return Some(entry.1);
            } else if k < key {
                lo = mid + 1;
            } else {
                hi = mid;
            }
        }
        proof {
            lemma_count_below_split(self.entries(), key, lo as int);
        }
        let ghost s = self.entries();
        self.0.insert(lo, (key, value));
        proof {
            assert forall|i: int, j: int|
                0 <= i < j < self.entries().len() implies self.entries()[i].0 < self.entries()[j].0 by {
                if j < lo {
                } else if i > lo {
                    assert(self.entries()[i] == s[i - 1]);
                    assert(self.entries()[j] == s[j - 1]);
                } else if i == lo {
                    assert(self.entries()[j] == s[j - 1]);
                } else if j == lo {
                } else {
                    assert(self.entries()[j] == s[j - 1]);
                }
            }
        }
        None
    }

    /// The value of `k`, if it has one.
    pub fn get(&self, k: &u64) -> (r: Option<&V>)
        requires
            self.well_formed(),
        ensures
            forall|i: int|
                0 <= i < self.entries().len() && self.entries()[i].0 == *k ==> r == Some(
                    &self.entries()[i].1,
                ),
            !has_key(self.entries(), *k) ==> r is None,
    {
        match self.position(k) {
            Some(i) => Some(&self.0[i].1),
            None => None,
        }
    }

    /// The index of the entry with key `k`.
    fn position(&self, k: &u64) -> (r: Option<usize>)
        requires
            self.well_formed(),
        ensures
            r is Some ==> r.unwrap() < self.entries().len() && self.entries()[r.unwrap() as int].0
                == *k,
            !has_key(self.entries(), *k) <==> r is None,
    {
        let mut i: usize = 0;
        while i < self.0.len()
            invariant
                i <= self.entries().len(),
                forall|j: int| 0 <= j < i ==> self.entries()[j].0 != *k,
            decreases self.entries().len() - i,
        {
            if self.0[i].0 == *k {
                return Some(i);
            }
            i = i + 1;
        }
        None
    }

    /// Removes the entry of `key`, returning its value.
    pub fn remove(&mut self, key: &u64) -> (r: Option<V>)
        requires
            old(self).well_formed(),
        ensures
            final(self).well_formed(),
            forall|i: int|
                0 <= i < old(self).entries().len() && old(self).entries()[i].0 == *key ==> {
                    &&& r == Some(old(self).entries()[i].1)
                    &&& final(self).entries() == old(self).entries().remove(i)
                },
            !has_key(old(self).entries(), *key) ==> r is None && final(self).entries() == old(
                self,
            ).entries(),
    {
        match self.position(key) {
            Some(i) => {
                let e = self.remove_at(i);
                Some(e.1)
            },
            None => None,
        }
    }

    /// Removes the entry of `key` and returns it.
    pub fn remove_entry(&mut self, key: &u64) -> (r: Option<(u64, V)>)
        requires
            old(self).well_formed(),
        ensures
            final(self).well_formed(),
            forall|i: int|
                0 <= i < old(self).entries().len() && old(self).entries()[i].0 == *key ==> {
                    &&& r == Some(old(self).entries()[i])
                    &&& final(self).entries() == old(self).entries().remove(i)
                },
            !has_key(old(self).entries(), *key) ==> r is None && final(self).entries() == old(
                self,
            ).entries(),
    {
        match self.position(key) {
            Some(i) => Some(self.remove_at(i)),
            None => None,
        }
    }

    /// Removes entry `i`, the one of its key.
    fn remove_at(&mut self, i: usize) -> (r: (u64, V))
        requires
            old(self).well_formed(),
            i < old(self).entries().len(),
        ensures
            final(self).well_formed(),
            r == old(self).entries()[i as int],
            final(self).entries() == old(self).entries().remove(i as int),
            forall|j: int|
                0 <= j < old(self).entries().len() && old(self).entries()[j].0 == r.0 ==> j == i,
    {
        let ghost s = self.entries();
        let e = self.0.remove(i);
        proof {
            assert forall|a: int, b: int|
                0 <= a < b < self.entries().len() implies self.entries()[a].0
                < self.entries()[b].0 by {
                if a >= i {
                    assert(self.entries()[a] == s[a + 1]);
                }
                if b >= i {
                    assert(self.entries()[b] == s[b + 1]);
                }
            }
            assert forall|j: int|
                0 <= j < s.len() && s[j].0 == e.0 implies j == i by {
                if j < i {
                    assert(s[j].0 < s[i as int].0);
                } else if j > i {
                    assert(s[i as int].0 < s[j].0);
                }
            }
        }
        e
    }

    /// Hands the entries out one by one, in increasing order of key.
    pub fn into_iter(self) -> (r: FlatMapIntoIter<V>)
        ensures
            r.remaining() == self.entries(),
    {
        let ghost s = self.0@;
        let mut v = self.0;
        let mut out: Vec<(u64, V)> = Vec::new();
        while v.len() > 0
            invariant
                v@.len() <= s.len(),
                v@ == s.subrange(0, v@.len() as int),
                out@ == s.subrange(v@.len() as int, s.len() as int).reverse(),
            decreases v@.len(),
        {
            let ghost before = out@;
            match v.pop() {
                Some(e) => {
                    out.push(e);
                },
                None => {},
            }
            assert(v@ =~= s.subrange(0, v@.len() as int));
            assert(out@ =~= s.subrange(v@.len() as int, s.len() as int).reverse());
        }
        assert(out@.reverse() =~= s);
        FlatMapIntoIter { into_iter: out }
    }
}

/// Relies on `Vec::capacity`, which is never below the length.
#[verifier::external_body]
fn vec_capacity<T>(v: &Vec<T>) -> (r: usize)
    ensures
        r >= v@.len(),
{
    v.capacity()
}

/// Exchanges `*x` with element `i` of `v`.
fn vec_swap_at<T>(v: &mut Vec<T>, i: usize, x: &mut T)
    requires
        i < old(v)@.len(),
    ensures
        final(v)@ == old(v)@.update(i as int, *old(x)),
        *final(x) == old(v)@[i as int],
{
    let ghost s = v@;
    let mut tmp = v.remove(i);
    std::mem::swap(&mut tmp, x);
    v.insert(i, tmp);
    assert(v@ =~= s.update(i as int, *old(x)));
}

/// The entries of a map, handed out in increasing order of key.
pub struct FlatMapIntoIter<V> {
    into_iter: Vec<(u64, V)>,
}

impl<V> FlatMapIntoIter<V> {
    /// What is left to hand out, in order.
    pub closed spec fn remaining(&self) -> Seq<(u64, V)> {
        self.into_iter@.reverse()
    }

    pub fn next(&mut self) -> (r: Option<(u64, V)>)
        ensures
            old(self).remaining().len() == 0 ==> r is None && final(self).remaining().len() == 0,
            old(self).remaining().len() > 0 ==> r == Some(old(self).remaining()[0])
                && final(self).remaining() == old(self).remaining().drop_first(),
    {
        let ghost s = self.into_iter@;
        let r = self.into_iter.pop();
        proof {
            if s.len() > 0 {
                assert(self.into_iter@.reverse() =~= s.reverse().drop_first());
            }
        }
        r
    }
}

} // verus!

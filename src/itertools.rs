//! Small sequence helpers: an unbounded counter, endless cycling, and taking one element
//! out of a sequence.
use vstd::prelude::*;

verus! {

/// Counts up from zero, staying at `u64::MAX` once there.
pub struct Count {
    cur: u64,
}

impl Count {
    /// The next number to hand out.
    pub closed spec fn current(&self) -> u64 {
        self.cur
    }

    pub fn next(&mut self) -> (r: Option<u64>)
        ensures
            r == Some(old(self).current()),
            final(self).current() == if old(self).current() == u64::MAX {
                u64::MAX
            } else {
                (old(self).current() + 1) as u64
            },
    {
        let r = self.cur;
        self.cur = self.cur.saturating_add(1);
        Some(r)
    }
}

/// The numbers 0, 1, 2, ...
pub fn count() -> (r: Count)
    ensures
        r.current() == 0,
{
    Count { cur: 0 }
}

/// Hands out the items in order, then again from the start, for ever.
pub struct Cycle<T> {
    items: Vec<T>,
    pos: usize,
}

impl<T: Copy> Cycle<T> {
    pub closed spec fn items(&self) -> Seq<T> {
        self.items@
    }

    /// Where the next item comes from.
    pub closed spec fn position(&self) -> nat {
        self.pos as nat
    }

    pub open spec fn well_formed(&self) -> bool {
        self.items().len() == 0 || self.position() < self.items().len()
    }

    pub fn next(&mut self) -> (r: Option<T>)
        requires
            old(self).well_formed(),
        ensures
            final(self).well_formed(),
            final(self).items() == old(self).items(),
            old(self).items().len() == 0 ==> r is None,
            old(self).items().len() > 0 ==> r == Some(old(self).items()[old(self).position() as int])
                && final(self).position() == (old(self).position() + 1) % old(self).items().len(),
    {
        if self.items.len() == 0 {
            return None;
        }
        let r = self.items[self.pos];
        proof {
            let n = self.items@.len();
            if self.pos + 1 == n {
                vstd::arithmetic::div_mod::lemma_mod_self_0(n as int);
            } else {
                vstd::arithmetic::div_mod::lemma_small_mod((self.pos + 1) as nat, n);
            }
        }
        self.pos = if self.pos + 1 == self.items.len() { 0 } else { self.pos + 1 };
        Some(r)
    }
}

/// Cycles through `items`.
pub fn cycle<T: Copy>(items: Vec<T>) -> (r: Cycle<T>)
    ensures
        r.well_formed(),
        r.items() == items@,
        r.position() == 0,
{
    Cycle { items, pos: 0 }
}

/// Takes the element at `index` out: it and the other elements in order, or `None` and
/// all of them when `index` is past the end.
pub fn extract<T>(items: Vec<T>, index: usize) -> (r: (Option<T>, Vec<T>))
    ensures
        index < items@.len() ==> r.0 == Some(items@[index as int]) && r.1@ == items@.remove(
            index as int,
        ),
        index >= items@.len() ==> r.0 is None && r.1@ == items@,
{
    let mut rest = items;
    if index < rest.len() {
        let e = rest.remove(index);
        (Some(e), rest)
    } else {
        (None, rest)
    }
}

} // verus!

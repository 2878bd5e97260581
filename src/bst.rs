//! A set of integers kept in an unbalanced binary search tree.
use vstd::prelude::*;

verus! {

struct Node {
    key: i64,
    left_ptr: Option<Box<Node>>,
    right_ptr: Option<Box<Node>>,
}

/// The keys stored under `node`.
spec fn keys(node: Option<Box<Node>>) -> Set<i64>
    decreases node,
{
    match node {
        None => Set::empty(),
        Some(n) => keys(n.left_ptr).union(keys(n.right_ptr)).insert(n.key),
    }
}

/// Smaller keys lie to the left of a node, larger ones to the right.
spec fn ordered(node: Option<Box<Node>>) -> bool
    decreases node,
{
    match node {
        None => true,
        Some(n) => {
            &&& ordered(n.left_ptr)
            &&& ordered(n.right_ptr)
            &&& forall|k: i64| #[trigger] keys(n.left_ptr).contains(k) ==> k < n.key
            &&& forall|k: i64| #[trigger] keys(n.right_ptr).contains(k) ==> n.key < k
        },
    }
}

proof fn lemma_keys_finite(node: Option<Box<Node>>)
    requires
        ordered(node),
    ensures
        keys(node).finite(),
    decreases node,
{
    if let Some(n) = node {
        lemma_keys_finite(n.left_ptr);
        lemma_keys_finite(n.right_ptr);
    }
}

/// A key sits on the path that the search for it takes.
fn contains_in(node: &Option<Box<Node>>, key: i64) -> (r: bool)
    requires
        ordered(*node),
    ensures
        r == keys(*node).contains(key),
    decreases *node,
{
    match node {
        None => false,
        Some(n) => {
            assert(keys(*node) == keys(n.left_ptr).union(keys(n.right_ptr)).insert(n.key));
            assert(ordered(n.left_ptr));
            if n.key < key {
                contains_in(&n.right_ptr, key)
            } else if n.key == key {
                true
            } else {
                contains_in(&n.left_ptr, key)
            }
        },
    }
}

fn insert_into(node: &mut Option<Box<Node>>, key: i64) -> (r: bool)
    requires
        ordered(*old(node)),
    ensures
        ordered(*final(node)),
        keys(*final(node)) == keys(*old(node)).insert(key),
        r == !keys(*old(node)).contains(key),
    decreases *old(node),
{
    match node.take() {
        None => {
            *node = Some(Box::new(Node { key, left_ptr: None, right_ptr: None }));
            assert(keys(*node) =~= keys(*old(node)).insert(key));
            true
        },
        Some(mut b) => {
            assert(keys(*old(node)) == keys(b.left_ptr).union(keys(b.right_ptr)).insert(b.key));
            assert(ordered(b.left_ptr) && ordered(b.right_ptr));
            let r;
            if b.key < key {
                r = insert_into(&mut b.right_ptr, key);
            } else if b.key == key {
                r = false;
            } else {
                r = insert_into(&mut b.left_ptr, key);
            }
            *node = Some(b);
            assert(keys(*node) =~= keys(*old(node)).insert(key));
            r
        },
    }
}

/// Takes the smallest key out of a non-empty tree.
fn delete_min(node: &mut Option<Box<Node>>) -> (r: i64)
    requires
        ordered(*old(node)),
        old(node).is_some(),
    ensures
        ordered(*final(node)),
        keys(*old(node)).contains(r),
        forall|k: i64| #[trigger] keys(*old(node)).contains(k) ==> r <= k,
        keys(*final(node)) == keys(*old(node)).remove(r),
    decreases *old(node),
{
    let mut b = node.take().unwrap();
    assert(keys(*old(node)) == keys(b.left_ptr).union(keys(b.right_ptr)).insert(b.key));
    assert(ordered(b.left_ptr) && ordered(b.right_ptr));
    if b.left_ptr.is_none() {
        *node = b.right_ptr.take();
        assert(keys(*node) =~= keys(*old(node)).remove(b.key));
        b.key
    } else {
        let m = delete_min(&mut b.left_ptr);
        *node = Some(b);
        assert(keys(*node) =~= keys(*old(node)).remove(m));
        m
    }
}

fn remove_from(node: &mut Option<Box<Node>>, key: i64) -> (r: bool)
    requires
        ordered(*old(node)),
    ensures
        ordered(*final(node)),
        keys(*final(node)) == keys(*old(node)).remove(key),
        r == keys(*old(node)).contains(key),
    decreases *old(node),
{
    match node.take() {
        None => false,
        Some(mut b) => {
            assert(keys(*old(node)) == keys(b.left_ptr).union(keys(b.right_ptr)).insert(b.key));
            assert(ordered(b.left_ptr) && ordered(b.right_ptr));
            if b.key < key {
                let r = remove_from(&mut b.right_ptr, key);
                *node = Some(b);
                assert(keys(*node) =~= keys(*old(node)).remove(key));
                r
            } else if key < b.key {
                let r = remove_from(&mut b.left_ptr, key);
                *node = Some(b);
                assert(keys(*node) =~= keys(*old(node)).remove(key));
                r
            } else {
                let left = b.left_ptr.take();
                let right = b.right_ptr.take();
                match (left, right) {
                    (None, None) => {
                        *node = None;
                    },
                    (Some(l), None) => {
                        *node = Some(l);
                    },
                    (None, Some(rt)) => {
                        *node = Some(rt);
                    },
                    (Some(l), Some(rt)) => {
                        let mut right = Some(rt);
                        let m = delete_min(&mut right);
                        b.key = m;
                        b.left_ptr = Some(l);
                        b.right_ptr = right;
                        *node = Some(b);
                    },
                }
                assert(keys(*node) =~= keys(*old(node)).remove(key));
                true
            }
        },
    }
}

#[derive(Default)]
pub struct BstSet {
    root: Option<Box<Node>>,
    size: usize,
}

impl View for BstSet {
    type V = Set<i64>;

    closed spec fn view(&self) -> Set<i64> {
        keys(self.root)
    }
}

impl BstSet {
    pub closed spec fn well_formed(&self) -> bool {
        &&& ordered(self.root)
        &&& self.size == keys(self.root).len()
    }

    pub fn new() -> (r: Self)
        ensures
            r.well_formed(),
            r@ == Set::<i64>::empty(),
    {
        BstSet { root: None, size: 0 }
    }

    pub fn len(&self) -> (r: usize)
        requires
            self.well_formed(),
        ensures
            r == self@.len(),
    {
        self.size
    }

    pub fn is_empty(&self) -> (r: bool)
        requires
            self.well_formed(),
        ensures
            r == (self@.len() == 0),
    {
        proof {
            lemma_keys_finite(self.root);
            if self.root is Some {
                assert(self@.contains(self.root->Some_0.key));
            }
        }
        self.root.is_none()
    }

    pub fn contains(&self, key: i64) -> (r: bool)
        requires
            self.well_formed(),
        ensures
            r == self@.contains(key),
    {
        contains_in(&self.root, key)
    }

    /// Adds `key`; returns whether it was new.
    pub fn insert(&mut self, key: i64) -> (r: bool)
        requires
            old(self).well_formed(),
            old(self)@.len() < usize::MAX,
        ensures
            final(self).well_formed(),
            final(self)@ == old(self)@.insert(key),
            r == !old(self)@.contains(key),
    {
        proof {
            lemma_keys_finite(self.root);
        }
        let r = insert_into(&mut self.root, key);
        if r {
            self.size = self.size + 1;
        }
        r
    }

    /// Takes `key` out; returns whether it was there.
    pub fn remove(&mut self, key: i64) -> (r: bool)
        requires
            old(self).well_formed(),
        ensures
            final(self).well_formed(),
            final(self)@ == old(self)@.remove(key),
            r == old(self)@.contains(key),
    {
        proof {
            lemma_keys_finite(self.root);
        }
        let r = remove_from(&mut self.root, key);
        if r {
            self.size = self.size - 1;
        }
        r
    }
}

} // verus!

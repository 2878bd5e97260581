//! A map from strings to values, kept as a prefix tree in an arena of nodes.
use vstd::prelude::*;
use vstd::string::StrSliceExecFns;

verus! {

struct TrieNode<V> {
    value: Option<V>,
    parent: usize,
    label: char,
    children: Vec<(char, usize)>,
}

pub struct Trie<V> {
    size: usize,
    nodes: Vec<TrieNode<V>>,
}

/// The characters of `key`.
fn chars_of(key: &str) -> (r: Vec<char>)
    ensures
        r@ == key@,
{
    let n = key.unicode_len();
    let mut out: Vec<char> = Vec::new();
    let mut i: usize = 0;
    while i < n
        invariant
            n == key@.len(),
            i <= n,
            out@ == key@.subrange(0, i as int),
        decreases n - i,
    {
        out.push(key.get_char(i));
        i = i + 1;
        assert(out@ =~= key@.subrange(0, i as int));
    }
    assert(key@.subrange(0, n as int) =~= key@);
    out
}

spec fn parent_of<V>(nodes: Seq<TrieNode<V>>, n: int) -> int {
    nodes[n].parent as int
}

spec fn label_of<V>(nodes: Seq<TrieNode<V>>, n: int) -> char {
    nodes[n].label
}

/// The key that leads from the root to node `n`.
spec fn path<V>(nodes: Seq<TrieNode<V>>, n: int) -> Seq<char>
    decreases n,
{
    if n <= 0 || n >= nodes.len() || parent_of(nodes, n) >= n {
        Seq::empty()
    } else {
        path(nodes, parent_of(nodes, n)).push(label_of(nodes, n))
    }
}

spec fn nodes_ok<V>(nodes: Seq<TrieNode<V>>) -> bool {
    &&& nodes.len() >= 1
    &&& forall|n: int| 0 < n < nodes.len() ==> #[trigger] parent_of(nodes, n) < n
    &&& forall|n: int, m: int|
        0 < n < m < nodes.len() && parent_of(nodes, n) == parent_of(nodes, m) ==> #[trigger] label_of(nodes, n)
            != #[trigger] label_of(nodes, m)
    &&& forall|n: int, j: int|
        0 <= n < nodes.len() && 0 <= j < nodes[n].children@.len() ==> {
            let (c, m) = #[trigger] nodes[n].children@[j];
            &&& 0 < m < nodes.len()
            &&& parent_of(nodes, m as int) == n
            &&& label_of(nodes, m as int) == c
        }
    &&& forall|m: int|
        #![trigger label_of(nodes, m)]
        0 < m < nodes.len() ==> nodes[parent_of(nodes, m)].children@.contains((label_of(nodes, m), m as usize))
}

/// `p` begins `s`.
pub open spec fn is_prefix(p: Seq<char>, s: Seq<char>) -> bool {
    p.len() <= s.len() && s.subrange(0, p.len() as int) == p
}

/// Some node has path `k` and holds a value.
spec fn has_key_in<V>(nodes: Seq<TrieNode<V>>, k: Seq<char>) -> bool {
    exists|n: int| 0 <= n < nodes.len() && path(nodes, n) == k && nodes[n].value is Some
}

/// The stored keys and their values.
spec fn view_of<V>(nodes: Seq<TrieNode<V>>) -> Map<Seq<char>, V> {
    Map::new(
        |k: Seq<char>| has_key_in(nodes, k),
        |k: Seq<char>|
            {
                let n = choose|n: int|
                    0 <= n < nodes.len() && path(nodes, n) == k && nodes[n].value is Some;
                nodes[n].value->Some_0
            },
    )
}


impl<V> Trie<V> {

    spec fn structure_ok(&self) -> bool {
        nodes_ok(self.nodes@)
    }

    /// Some node has path `k` and holds a value.
    pub closed spec fn has_key(&self, k: Seq<char>) -> bool {
        has_key_in(self.nodes@, k)
    }

    /// The stored keys and their values.
    pub closed spec fn view(&self) -> Map<Seq<char>, V> {
        view_of(self.nodes@)
    }

    pub closed spec fn well_formed(&self) -> bool {
        &&& self.structure_ok()
        &&& self.view().dom().finite()
        &&& self.size == self.view().dom().len()
    }

    /// The stored keys are those of the nodes holding a value.
    proof fn lemma_view_dom(&self)
        ensures
            forall|k: Seq<char>| #[trigger] self.view().contains_key(k) == self.has_key(k),
    {
    }

    /// Two nodes with the same path are the same node.
    proof fn lemma_path_injective(&self, n: int, m: int)
        requires
            self.structure_ok(),
            0 <= n < self.nodes@.len(),
            0 <= m < self.nodes@.len(),
            path(self.nodes@, n) == path(self.nodes@, m),
        ensures
            n == m,
        decreases n + m,
    {
        if n != m {
            if n == 0 {
                assert(path(self.nodes@, 0) =~= Seq::<char>::empty());
                assert(path(self.nodes@, m) == path(self.nodes@, parent_of(self.nodes@, m)).push(label_of(self.nodes@, m)));
                assert(path(self.nodes@, n).len() != path(self.nodes@, m).len());
            } else if m == 0 {
                assert(path(self.nodes@, 0) =~= Seq::<char>::empty());
                assert(path(self.nodes@, n) == path(self.nodes@, parent_of(self.nodes@, n)).push(label_of(self.nodes@, n)));
                assert(path(self.nodes@, n).len() != path(self.nodes@, m).len());
            } else {
                let pn = parent_of(self.nodes@, n);
                let pm = parent_of(self.nodes@, m);
                assert(path(self.nodes@, n) == path(self.nodes@, pn).push(label_of(self.nodes@, n)));
                assert(path(self.nodes@, m) == path(self.nodes@, pm).push(label_of(self.nodes@, m)));
                assert(path(self.nodes@, pn) =~= path(self.nodes@, n).drop_last());
                assert(path(self.nodes@, pm) =~= path(self.nodes@, m).drop_last());
                self.lemma_path_injective(pn, pm);
                assert(label_of(self.nodes@, n) == path(self.nodes@, n).last());
                assert(label_of(self.nodes@, m) == path(self.nodes@, m).last());
                if n < m {
                    assert(label_of(self.nodes@, n) != label_of(self.nodes@, m));
                } else {
                    assert(label_of(self.nodes@, m) != label_of(self.nodes@, n));
                }
            }
        }
    }

    /// Every prefix of a node's path is the path of a node.
    proof fn lemma_prefix_node(&self, n: int, j: int)
        requires
            self.structure_ok(),
            0 <= n < self.nodes@.len(),
            0 <= j <= path(self.nodes@, n).len(),
        ensures
            exists|a: int| 0 <= a < self.nodes@.len() && #[trigger] path(self.nodes@, a) == path(self.nodes@, n).subrange(0, j),
        decreases n,
    {
        if j == path(self.nodes@, n).len() {
            assert(path(self.nodes@, n).subrange(0, j) =~= path(self.nodes@, n));
        } else {
            let p = parent_of(self.nodes@, n);
            assert(n > 0);
            assert(path(self.nodes@, n) == path(self.nodes@, p).push(label_of(self.nodes@, n)));
            self.lemma_prefix_node(p, j);
            assert(path(self.nodes@, p).subrange(0, j) =~= path(self.nodes@, n).subrange(0, j));
        }
    }


    /// Paths depend only on the parents and labels of nodes, which later nodes leave alone.
    proof fn lemma_path_same(&self, other: &Self, n: int)
        requires
            0 <= n < self.nodes@.len(),
            self.nodes@.len() <= other.nodes@.len(),
            forall|i: int|
                0 <= i < self.nodes@.len() ==> #[trigger] parent_of(other.nodes@, i) == parent_of(self.nodes@, i)
                    && label_of(other.nodes@, i) == label_of(self.nodes@, i),
        ensures
            path(other.nodes@, n) == path(self.nodes@, n),
        decreases n,
    {
        assert(parent_of(other.nodes@, n) == parent_of(self.nodes@, n));
        if n > 0 && parent_of(self.nodes@, n) < n {
            self.lemma_path_same(other, parent_of(self.nodes@, n));
        }
    }

    /// The stored value at the node with path `k`, if any, is what the view maps `k` to.
    proof fn lemma_view_at(&self, n: int)
        requires
            self.structure_ok(),
            0 <= n < self.nodes@.len(),
        ensures
            self.nodes@[n].value is Some ==> self.view().contains_key(path(self.nodes@, n)) && self.view()[path(self.nodes@, n)]
                == self.nodes@[n].value->Some_0,
            self.nodes@[n].value is None ==> !self.view().contains_key(path(self.nodes@, n)),
    {
        let k = path(self.nodes@, n);
        if self.has_key(k) {
            let m = choose|m: int| 0 <= m < self.nodes@.len() && path(self.nodes@, m) == k && self.nodes@[m].value is Some;
            self.lemma_path_injective(m, n);
        }
    }

    /// Adds a node below `parent` along `c`, where there was none.
    fn add_node(&mut self, parent: usize, c: char) -> (r: usize)
        requires
            old(self).structure_ok(),
            parent < old(self).nodes@.len(),
            forall|m: int| 0 <= m < old(self).nodes@.len() ==> path(old(self).nodes@, m) != path(old(self).nodes@, parent as int).push(c),
        ensures
            final(self).structure_ok(),
            final(self).view() == old(self).view(),
            final(self).size == old(self).size,
            r == old(self).nodes@.len(),
            final(self).nodes@.len() == old(self).nodes@.len() + 1,
            path(final(self).nodes@, r as int) == path(old(self).nodes@, parent as int).push(c),
            final(self).nodes@[r as int].value is None,
            forall|n: int| 0 <= n < old(self).nodes@.len() ==> #[trigger] path(final(self).nodes@, n) == path(old(self).nodes@, n)
                && final(self).nodes@[n].value == old(self).nodes@[n].value,
    {
        let ghost before = *self;
        let r = self.nodes.len();
        self.nodes.push(TrieNode { value: None, parent, label: c, children: Vec::new() });
        let mut p = self.nodes.remove(parent);
        p.children.push((c, r));
        self.nodes.insert(parent, p);
        proof {
            assert(forall|i: int| 0 <= i < before.nodes@.len() ==> #[trigger] self.nodes@[i].parent == before.nodes@[i].parent
                && self.nodes@[i].label == before.nodes@[i].label && self.nodes@[i].value == before.nodes@[i].value
                && (i != parent ==> self.nodes@[i].children == before.nodes@[i].children));
            assert(self.nodes@[parent as int].children@ == before.nodes@[parent as int].children@.push((c, r)));
            assert forall|n: int| 0 <= n < before.nodes@.len() implies #[trigger] path(self.nodes@, n) == path(before.nodes@, n) by {
                before.lemma_path_same(self, n);
            }
            assert(path(self.nodes@, r as int) == path(self.nodes@, parent as int).push(c));
            // the structure
            assert forall|n: int, m: int|
                0 < n < m < self.nodes@.len() && parent_of(self.nodes@, n) == parent_of(self.nodes@, m) implies #[trigger] label_of(self.nodes@, n)
                    != #[trigger] label_of(self.nodes@, m) by {
                if m == r {
                    if label_of(self.nodes@, n) == c {
                        assert(parent_of(before.nodes@, n) < n);
                        assert(path(before.nodes@, n) == path(before.nodes@, parent_of(before.nodes@, n)).push(label_of(before.nodes@, n)));
                        assert(path(before.nodes@, n) == path(before.nodes@, parent as int).push(c));
                    }
                } else {
                    assert(parent_of(before.nodes@, n) == parent_of(before.nodes@, m));
                    assert(label_of(before.nodes@, n) != label_of(before.nodes@, m));
                }
            }
            assert forall|n: int, j: int|
                0 <= n < self.nodes@.len() && 0 <= j < self.nodes@[n].children@.len() implies {
                    let (cc, m) = #[trigger] self.nodes@[n].children@[j];
                    &&& 0 < m < self.nodes@.len()
                    &&& parent_of(self.nodes@, m as int) == n
                    &&& label_of(self.nodes@, m as int) == cc
                } by {
                if n == r {
                } else if n == parent && j == self.nodes@[n].children@.len() - 1 {
                } else {
                    assert(self.nodes@[n].children@[j] == before.nodes@[n].children@[j]);
                }
            }
            assert forall|m: int|

                #![trigger label_of(self.nodes@, m)]

                0 < m < self.nodes@.len() implies self.nodes@[parent_of(self.nodes@, m)].children@.contains((label_of(self.nodes@, m), m as usize)) by {
                if m == r {
                    let j = self.nodes@[parent as int].children@.len() - 1;
                    assert(parent_of(self.nodes@, m) == parent);
                    assert(label_of(self.nodes@, m) == c);
                    assert(self.nodes@[parent as int].children@[j] == (c, r));
                } else {
                    assert(label_of(before.nodes@, m) == label_of(self.nodes@, m));
                    assert(before.nodes@[parent_of(before.nodes@, m)].children@.contains((label_of(before.nodes@, m), m as usize)));
                    let j = choose|j: int|
                        0 <= j < before.nodes@[parent_of(before.nodes@, m)].children@.len()
                            && before.nodes@[parent_of(before.nodes@, m)].children@[j] == (label_of(before.nodes@, m), m as usize);
                    let q = parent_of(before.nodes@, m);
                    assert(parent_of(self.nodes@, m) == q);
                    if q == parent {
                        assert(self.nodes@[q].children@[j] == before.nodes@[q].children@[j]);
                    } else {
                        assert(self.nodes@[q].children@[j] == before.nodes@[q].children@[j]);
                    }
                }
            }
            assert forall|n: int| 0 < n < self.nodes@.len() implies #[trigger] parent_of(self.nodes@, n) < n by {
                if n < r {
                    assert(parent_of(before.nodes@, n) < n);
                }
            }
            assert(self.structure_ok());
            // the view
            assert forall|k: Seq<char>| self.has_key(k) == before.has_key(k) by {
                if self.has_key(k) {
                    let n = choose|n: int| 0 <= n < self.nodes@.len() && path(self.nodes@, n) == k && self.nodes@[n].value is Some;
                    assert(n != r);
                    assert(path(before.nodes@, n) == k);
                }
                if before.has_key(k) {
                    let n = choose|n: int| 0 <= n < before.nodes@.len() && path(before.nodes@, n) == k && before.nodes@[n].value is Some;
                    assert(path(self.nodes@, n) == k);
                }
            }
            assert forall|k: Seq<char>| #[trigger] self.view().contains_key(k) implies self.view()[k] == before.view()[k] by {
                let n = choose|n: int| 0 <= n < self.nodes@.len() && path(self.nodes@, n) == k && self.nodes@[n].value is Some;
                assert(n != r);
                self.lemma_view_at(n);
                before.lemma_view_at(n);
            }
            self.lemma_view_dom();
            before.lemma_view_dom();
            assert(self.view() =~= before.view());
        }
        r
    }

    /// Sets the value of `key`, returning the value it replaced.
    pub fn insert(&mut self, key: &str, value: V) -> (r: Option<V>)
        requires
            old(self).well_formed(),
            old(self).view().dom().len() < usize::MAX,
        ensures
            final(self).well_formed(),
            final(self).view() == old(self).view().insert(key@, value),
            old(self).view().contains_key(key@) ==> r == Some(old(self).view()[key@]),
            !old(self).view().contains_key(key@) ==> r is None,
    {
        let ghost start = *self;
        let k = chars_of(key);
        let mut cur: usize = 0;
        let mut i: usize = 0;
        while i < k.len()
            invariant
                self.structure_ok(),
                self.view() == start.view(),
                self.size == start.size,
                i <= k@.len(),
                cur < self.nodes@.len(),
                path(self.nodes@, cur as int) == k@.subrange(0, i as int),
            decreases k@.len() - i,
        {
            let c = k[i];
            cur = match self.child(cur, c) {
                Some(m) => m,
                None => self.add_node(cur, c),
            };
            assert(k@.subrange(0, i + 1) =~= k@.subrange(0, i as int).push(c));
            i = i + 1;
        }
        assert(k@.subrange(0, k@.len() as int) =~= k@);
        proof {
            self.lemma_view_at(cur as int);
        }
        let old_value = self.set_value(cur, Some(value));
        if old_value.is_none() {
            proof {
                assert(self.view().dom() =~= start.view().dom().insert(k@));
            }
            self.size = self.size + 1;
        } else {
            assert(self.view().dom() =~= start.view().dom());
        }
        old_value
    }

    /// Takes `key` out, returning its value.
    pub fn remove(&mut self, key: &str) -> (r: Option<V>)
        requires
            old(self).well_formed(),
        ensures
            final(self).well_formed(),
            final(self).view() == old(self).view().remove(key@),
            old(self).view().contains_key(key@) ==> r == Some(old(self).view()[key@]),
            !old(self).view().contains_key(key@) ==> r is None,
    {
        let k = chars_of(key);
        let found = self.find(&k);
        let cur = match found {
            None => {
                proof {
                    assert(!self.view().contains_key(k@));
                    assert(self.view().remove(k@) =~= self.view());
                }
                return None;
            },
            Some(n) => n,
        };
        let ghost start = *self;
        proof {
            self.lemma_view_at(cur as int);
        }
        let old_value = self.set_value(cur, None);
        if old_value.is_some() {
            proof {
                assert(self.view().dom() =~= start.view().dom().remove(k@));
            }
            self.size = self.size - 1;
        } else {
            assert(self.view().dom() =~= start.view().dom());
        }
        old_value
    }

    /// Puts `v` in node `n`, returning what was there.
    fn set_value(&mut self, n: usize, v: Option<V>) -> (r: Option<V>)
        requires
            old(self).structure_ok(),
            n < old(self).nodes@.len(),
        ensures
            final(self).structure_ok(),
            final(self).size == old(self).size,
            r == old(self).nodes@[n as int].value,
            v is Some ==> final(self).view() == old(self).view().insert(path(old(self).nodes@, n as int), v->Some_0),
            v is None ==> final(self).view() == old(self).view().remove(path(old(self).nodes@, n as int)),
    {
        let ghost mid = *self;
        let ghost key = path(mid.nodes@, n as int);
        let mut node = self.nodes.remove(n);
        let old_value = node.value.take();
        node.value = v;
        self.nodes.insert(n, node);
        proof {
            assert(self.nodes@ == mid.nodes@.update(n as int, self.nodes@[n as int]));
            assert forall|i: int| 0 <= i < mid.nodes@.len() implies #[trigger] parent_of(self.nodes@, i) == parent_of(mid.nodes@, i)
                && label_of(self.nodes@, i) == label_of(mid.nodes@, i) && self.nodes@[i].children == mid.nodes@[i].children by {
            }
            assert forall|i: int| 0 <= i < mid.nodes@.len() implies #[trigger] path(self.nodes@, i) == path(mid.nodes@, i) by {
                mid.lemma_path_same(self, i);
            }
            self.lemma_structure_carry(&mid);
            assert forall|kk: Seq<char>| #[trigger] self.has_key(kk) == (if v is Some {
                mid.has_key(kk) || kk == key
            } else {
                mid.has_key(kk) && kk != key
            }) by {
                if self.has_key(kk) {
                    let i = choose|i: int| 0 <= i < self.nodes@.len() && path(self.nodes@, i) == kk && self.nodes@[i].value is Some;
                    if i != n {
                        assert(path(mid.nodes@, i) == kk && mid.nodes@[i].value is Some);
                        if kk == key {
                            mid.lemma_path_injective(i, n as int);
                        }
                    }
                }
                if mid.has_key(kk) {
                    let i = choose|i: int| 0 <= i < mid.nodes@.len() && path(mid.nodes@, i) == kk && mid.nodes@[i].value is Some;
                    if i != n {
                        assert(path(self.nodes@, i) == kk && self.nodes@[i].value is Some);
                    }
                }
                if kk == key && v is Some {
                    assert(path(self.nodes@, n as int) == kk);
                }
            }
            assert forall|kk: Seq<char>| #[trigger] self.view().contains_key(kk) implies self.view()[kk] == (if v is Some {
                mid.view().insert(key, v->Some_0)
            } else {
                mid.view().remove(key)
            })[kk] by {
                let i = choose|i: int| 0 <= i < self.nodes@.len() && path(self.nodes@, i) == kk && self.nodes@[i].value is Some;
                self.lemma_view_at(i);
                if i != n {
                    assert(mid.nodes@[i].value == self.nodes@[i].value);
                    mid.lemma_view_at(i);
                    if kk == key {
                        mid.lemma_path_injective(i, n as int);
                    }
                }
            }
            self.lemma_view_dom();
            mid.lemma_view_dom();
            if v is Some {
                assert(self.view() =~= mid.view().insert(key, v->Some_0));
            } else {
                assert(self.view() =~= mid.view().remove(key));
            }
        }
        old_value
    }

    /// The structure holds after a change that keeps every node's parent, label and
    /// children.
    proof fn lemma_structure_carry(&self, before: &Self)
        requires
            before.structure_ok(),
            self.nodes@.len() == before.nodes@.len(),
            forall|i: int| 0 <= i < before.nodes@.len() ==> #[trigger] parent_of(self.nodes@, i) == parent_of(before.nodes@, i)
                && label_of(self.nodes@, i) == label_of(before.nodes@, i) && self.nodes@[i].children == before.nodes@[i].children,
        ensures
            self.structure_ok(),
    {
        assert forall|n: int| 0 < n < self.nodes@.len() implies #[trigger] parent_of(self.nodes@, n) < n by {
            assert(parent_of(before.nodes@, n) < n);
        }
        assert forall|n: int, m: int|
            0 < n < m < self.nodes@.len() && parent_of(self.nodes@, n) == parent_of(self.nodes@, m) implies #[trigger] label_of(self.nodes@, n)
                != #[trigger] label_of(self.nodes@, m) by {
            assert(parent_of(before.nodes@, n) == parent_of(self.nodes@, n));
            assert(parent_of(before.nodes@, m) == parent_of(self.nodes@, m));
            assert(label_of(before.nodes@, n) != label_of(before.nodes@, m));
        }
        assert forall|n: int, j: int|
            0 <= n < self.nodes@.len() && 0 <= j < self.nodes@[n].children@.len() implies {
                let (cc, m) = #[trigger] self.nodes@[n].children@[j];
                &&& 0 < m < self.nodes@.len()
                &&& parent_of(self.nodes@, m as int) == n
                &&& label_of(self.nodes@, m as int) == cc
            } by {
            assert(parent_of(self.nodes@, n) == parent_of(before.nodes@, n));
            assert(self.nodes@[n].children == before.nodes@[n].children);
            let (cc, m) = before.nodes@[n].children@[j];
            assert(parent_of(self.nodes@, m as int) == parent_of(before.nodes@, m as int));
        }
        assert forall|m: int|

            #![trigger label_of(self.nodes@, m)]

            0 < m < self.nodes@.len() implies self.nodes@[parent_of(self.nodes@, m)].children@.contains((label_of(self.nodes@, m), m as usize)) by {
            assert(parent_of(self.nodes@, m) == parent_of(before.nodes@, m));
            assert(label_of(before.nodes@, m) == label_of(self.nodes@, m));
            let q = parent_of(before.nodes@, m);
            assert(parent_of(before.nodes@, m) < m);
            assert(parent_of(self.nodes@, q) == parent_of(before.nodes@, q));
            assert(self.nodes@[q].children == before.nodes@[q].children);
        }
    }


    /// A node whose path begins another node's path comes no later in the arena.
    proof fn lemma_prefix_index(&self, a: int, x: int)
        requires
            self.structure_ok(),
            0 <= a < self.nodes@.len(),
            0 <= x < self.nodes@.len(),
            is_prefix(path(self.nodes@, a), path(self.nodes@, x)),
        ensures
            a <= x,
        decreases x,
    {
        if path(self.nodes@, a) =~= path(self.nodes@, x) {
            self.lemma_path_injective(a, x);
        } else {
            assert(x > 0) by {
                if x == 0 {
                    assert(path(self.nodes@, 0).len() == 0);
                }
            }
            let q = parent_of(self.nodes@, x);
            assert(path(self.nodes@, x) == path(self.nodes@, q).push(label_of(self.nodes@, x)));
            assert(path(self.nodes@, a).len() < path(self.nodes@, x).len());
            assert(path(self.nodes@, q).subrange(0, path(self.nodes@, a).len() as int)
                =~= path(self.nodes@, x).subrange(0, path(self.nodes@, a).len() as int));
            self.lemma_prefix_index(a, q);
        }
    }

    /// Whether the path of `a` begins the path of `i`: walks up from `i`.
    fn descends(&self, a: usize, i: usize) -> (r: bool)
        requires
            self.structure_ok(),
            a < self.nodes@.len(),
            i < self.nodes@.len(),
        ensures
            r == is_prefix(path(self.nodes@, a as int), path(self.nodes@, i as int)),
    {
        let ghost pa = path(self.nodes@, a as int);
        let ghost pi = path(self.nodes@, i as int);
        let mut cur = i;
        assert(pi.subrange(0, pi.len() as int) =~= pi);
        while cur > a
            invariant
                self.structure_ok(),
                a < self.nodes@.len(),
                cur < self.nodes@.len(),
                pa == path(self.nodes@, a as int),
                pi == path(self.nodes@, i as int),
                is_prefix(path(self.nodes@, cur as int), pi),
                is_prefix(pa, pi) ==> is_prefix(pa, path(self.nodes@, cur as int)),
            decreases cur,
        {
            let q = self.nodes[cur].parent;
            proof {
                assert(parent_of(self.nodes@, cur as int) < cur);
                let pc = path(self.nodes@, cur as int);
                assert(pc == path(self.nodes@, q as int).push(label_of(self.nodes@, cur as int)));
                let pq = path(self.nodes@, q as int);
                assert(pq =~= pc.drop_last());
                assert(pi.subrange(0, pq.len() as int) =~= pc.subrange(0, pq.len() as int));
                if is_prefix(pa, pi) {
                    if pa.len() == pc.len() {
                        assert(pa =~= pc);
                        self.lemma_path_injective(a as int, cur as int);
                    }
                    assert(pq.subrange(0, pa.len() as int) =~= pc.subrange(0, pa.len() as int));
                }
            }
            cur = q;
        }
        proof {
            if is_prefix(pa, pi) && cur != a {
                self.lemma_prefix_index(a as int, cur as int);
            }
        }
        cur == a
    }

    /// Some stored key begins with `prefix`.
    pub fn starts_with(&self, prefix: &str) -> (r: bool)
        requires
            self.well_formed(),
        ensures
            r == exists|k: Seq<char>| #[trigger] self.view().contains_key(k) && is_prefix(prefix@, k),
    {
        let p = chars_of(prefix);
        proof {
            self.lemma_view_dom();
        }
        let a = match self.find(&p) {
            Some(a) => a,
            None => {
                proof {
                    assert forall|k: Seq<char>| #[trigger] self.view().contains_key(k) implies !is_prefix(prefix@, k) by {
                        if is_prefix(prefix@, k) {
                            let n = choose|n: int| 0 <= n < self.nodes@.len() && path(self.nodes@, n) == k && self.nodes@[n].value is Some;
                            self.lemma_prefix_node(n, prefix@.len() as int);
                            let b = choose|b: int| 0 <= b < self.nodes@.len() && #[trigger] path(self.nodes@, b) == path(self.nodes@, n).subrange(0, prefix@.len() as int);
                        }
                    }
                }
                return false;
            },
        };
        let mut i: usize = 0;
        while i < self.nodes.len()
            invariant
                self.well_formed(),
                a < self.nodes@.len(),
                path(self.nodes@, a as int) == prefix@,
                i <= self.nodes@.len(),
                forall|j: int| 0 <= j < i ==> !(self.nodes@[j].value is Some && is_prefix(prefix@, #[trigger] path(self.nodes@, j))),
            decreases self.nodes@.len() - i,
        {
            if self.nodes[i].value.is_some() && self.descends(a, i) {
                proof {
                    self.lemma_view_at(i as int);
                }
                return true;
            }
            i = i + 1;
        }
        proof {
            assert forall|k: Seq<char>| #[trigger] self.view().contains_key(k) implies !is_prefix(prefix@, k) by {
                if is_prefix(prefix@, k) {
                    let n = choose|n: int| 0 <= n < self.nodes@.len() && path(self.nodes@, n) == k && self.nodes@[n].value is Some;
                    assert(!(self.nodes@[n].value is Some && is_prefix(prefix@, path(self.nodes@, n))));
                }
            }
        }
        false
    }

    pub fn new() -> (r: Self)
        ensures
            r.well_formed(),
            r.view() == Map::<Seq<char>, V>::empty(),
    {
        let mut nodes: Vec<TrieNode<V>> = Vec::new();
        nodes.push(TrieNode { value: None, parent: 0, label: 'a', children: Vec::new() });
        let r = Trie { size: 0, nodes };
        assert(r.view() =~= Map::<Seq<char>, V>::empty());
        r
    }

    pub fn len(&self) -> (r: usize)
        requires
            self.well_formed(),
        ensures
            r == self.view().dom().len(),
    {
        self.size
    }

    pub fn is_empty(&self) -> (r: bool)
        requires
            self.well_formed(),
        ensures
            r == (self.view().dom().len() == 0),
    {
        self.size == 0
    }

    /// The child of node `n` along character `c`.
    fn child(&self, n: usize, c: char) -> (r: Option<usize>)
        requires
            self.structure_ok(),
            n < self.nodes@.len(),
        ensures
            r is Some ==> {
                let m = r->Some_0 as int;
                &&& 0 < m < self.nodes@.len()
                &&& path(self.nodes@, m) == path(self.nodes@, n as int).push(c)
            },
            r is None ==> forall|m: int|
                0 <= m < self.nodes@.len() ==> path(self.nodes@, m) != path(self.nodes@, n as int).push(c),
    {
        let children = &self.nodes[n].children;
        let mut j: usize = 0;
        while j < children.len()
            invariant
                self.structure_ok(),
                n < self.nodes@.len(),
                children@ == self.nodes@[n as int].children@,
                j <= children@.len(),
                forall|i: int| 0 <= i < j ==> children@[i].0 != c,
            decreases children@.len() - j,
        {
            if children[j].0 == c {
                let m = children[j].1;
                proof {
                    assert(self.nodes@[n as int].children@[j as int] == (c, m));
                    assert(path(self.nodes@, m as int) == path(self.nodes@, parent_of(self.nodes@, m as int)).push(label_of(self.nodes@, m as int)));
                }
                return Some(m);
            }
            j = j + 1;
        }
        proof {
            assert forall|m: int| 0 <= m < self.nodes@.len() implies path(self.nodes@, m) != path(self.nodes@, n as int).push(c) by {
                if path(self.nodes@, m) == path(self.nodes@, n as int).push(c) {
                    if m == 0 {
                        assert(path(self.nodes@, 0).len() == 0);
                    }
                    assert(m > 0);
                    let p = parent_of(self.nodes@, m);
                    assert(path(self.nodes@, m) == path(self.nodes@, p).push(label_of(self.nodes@, m)));
                    assert(path(self.nodes@, p) =~= path(self.nodes@, m).drop_last());
                    assert(path(self.nodes@, n as int) =~= path(self.nodes@, m).drop_last());
                    self.lemma_path_injective(p, n as int);
                    assert(self.nodes@[p].children@.contains((label_of(self.nodes@, m), m as usize)));
                    let i = choose|i: int|
                        0 <= i < self.nodes@[p].children@.len() && self.nodes@[p].children@[i]
                            == (label_of(self.nodes@, m), m as usize);
                    assert(label_of(self.nodes@, m) == path(self.nodes@, m).last());
                    assert(c == path(self.nodes@, n as int).push(c).last());
                    assert(children@[i].0 == c);
                }
            }
        }
        None
    }

    /// The node whose path is `key`.
    fn find(&self, key: &Vec<char>) -> (r: Option<usize>)
        requires
            self.structure_ok(),
        ensures
            r is Some ==> r->Some_0 < self.nodes@.len() && path(self.nodes@, r->Some_0 as int) == key@,
            r is None ==> forall|m: int| 0 <= m < self.nodes@.len() ==> path(self.nodes@, m) != key@,
    {
        let mut cur: usize = 0;
        let mut i: usize = 0;
        while i < key.len()
            invariant
                self.structure_ok(),
                i <= key@.len(),
                cur < self.nodes@.len(),
                path(self.nodes@, cur as int) == key@.subrange(0, i as int),
            decreases key@.len() - i,
        {
            match self.child(cur, key[i]) {
                Some(m) => {
                    assert(key@.subrange(0, i + 1) =~= key@.subrange(0, i as int).push(key@[i as int]));
                    cur = m;
                },
                None => {
                    proof {
                        assert forall|m: int| 0 <= m < self.nodes@.len() implies path(self.nodes@, m) != key@ by {
                            if path(self.nodes@, m) == key@ {
                                self.lemma_prefix_node(m, i + 1);
                                let a = choose|a: int|
                                    0 <= a < self.nodes@.len() && #[trigger] path(self.nodes@, a) == path(self.nodes@, m).subrange(0, i + 1);
                                assert(path(self.nodes@, m).subrange(0, i + 1) =~= key@.subrange(0, i as int).push(key@[i as int]));
                            }
                        }
                    }
                    return None;
                },
            }
            i = i + 1;
        }
        assert(key@.subrange(0, key@.len() as int) =~= key@);
        Some(cur)
    }

    /// The value of `key`.
    pub fn get(&self, key: &str) -> (r: Option<&V>)
        requires
            self.well_formed(),
        ensures
            r is Some <==> self.view().contains_key(key@),
            r is Some ==> *r->Some_0 == self.view()[key@],
    {
        let k = chars_of(key);
        match self.find(&k) {
            Some(n) => {
                proof {
                    if self.has_key(key@) {
                        let m = choose|m: int|
                            0 <= m < self.nodes@.len() && path(self.nodes@, m) == key@ && self.nodes@[m].value is Some;
                        self.lemma_path_injective(m, n as int);
                    }
                }
                self.nodes[n].value.as_ref()
            },
            None => None,
        }
    }

    pub fn contains(&self, key: &str) -> (r: bool)
        requires
            self.well_formed(),
        ensures
            r == self.view().contains_key(key@),
    {
        self.get(key).is_some()
    }
}

} // verus!

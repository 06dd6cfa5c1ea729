//! A plain mutable trie: key sequence to value, children kept in owned lists.
use vstd::prelude::*;

use crate::key::{found, is_prefix, is_strict_prefix, lemma_path_of_drop_first, lemma_prefix_step, path_of, TrieKey};

verus! {

/// One node of a [`TreeMap`]: the token of the edge that leads to it, the
/// value stored at this exact path (if any), and its children.
pub struct TreeNode<T, Idx: TrieKey> {
    key: Idx,
    value: Option<T>,
    nodes: Vec<TreeNode<T, Idx>>,
}

/// A mutable map from non-empty key sequences to values.
pub struct TreeMap<T, Idx: TrieKey> {
    head: TreeNode<T, Idx>,
}

impl<T, Idx: TrieKey> TreeNode<T, Idx> {
    /// Siblings carry distinct tokens, at every level.
    pub closed spec fn wf(self) -> bool
        decreases self,
    {
        &&& forall|i: int, j: int|
            0 <= i < j < self.nodes@.len() ==> (#[trigger] self.nodes@[i]).key@
                != (#[trigger] self.nodes@[j]).key@
        &&& forall|i: int| 0 <= i < self.nodes@.len() ==> (#[trigger] self.nodes@[i]).wf()
    }

    pub closed spec fn key_view(self) -> Idx::V {
        self.key@
    }

    pub closed spec fn has_child(self, k: Idx::V) -> bool {
        exists|i: int| 0 <= i < self.nodes@.len() && (#[trigger] self.nodes@[i]).key@ == k
    }

    pub closed spec fn child(self, k: Idx::V) -> Self {
        self.nodes@[choose|i: int| 0 <= i < self.nodes@.len() && (#[trigger] self.nodes@[i]).key@ == k]
    }

    /// The value stored at `path` below this node.
    pub closed spec fn lookup(self, path: Seq<Idx::V>) -> Option<T>
        decreases path.len(),
    {
        if path.len() == 0 {
            self.value
        } else if self.has_child(path[0]) {
            self.child(path[0]).lookup(path.drop_first())
        } else {
            None
        }
    }

    /// The node reached from this one along `path`.
    pub closed spec fn node_at(self, path: Seq<Idx::V>) -> Option<Self>
        decreases path.len(),
    {
        if path.len() == 0 {
            Some(self)
        } else if self.has_child(path[0]) {
            self.child(path[0]).node_at(path.drop_first())
        } else {
            None
        }
    }

    /// A node stands at `path` below this one, whether or not it holds a
    /// value.
    pub closed spec fn has_path(self, path: Seq<Idx::V>) -> bool {
        self.node_at(path) is Some
    }

    /// The tokens of the children of the node at `path`, in order.
    pub closed spec fn keys_at(self, path: Seq<Idx::V>) -> Seq<Idx::V> {
        self.node_at(path)->Some_0.nodes@.map_values(|c: Self| c.key@)
    }

    proof fn lemma_child_at(self, i: int)
        requires
            self.wf(),
            0 <= i < self.nodes@.len(),
        ensures
            self.has_child(self.nodes@[i].key@),
            self.child(self.nodes@[i].key@) == self.nodes@[i],
    {
        let k = self.nodes@[i].key@;
        assert(self.has_child(k));
        let j = choose|j: int| 0 <= j < self.nodes@.len() && (#[trigger] self.nodes@[j]).key@ == k;
        if j < i {
            assert(self.nodes@[j].key@ != self.nodes@[i].key@);
        } else if i < j {
            assert(self.nodes@[i].key@ != self.nodes@[j].key@);
        }
    }

    proof fn lemma_leaf_lookup(self, path: Seq<Idx::V>)
        requires
            self.nodes@.len() == 0,
            self.value is None,
        ensures
            self.lookup(path) is None,
    {
    }

    fn child_index(&self, key: &Idx) -> (r: Option<usize>)
        requires
            self.wf(),
        ensures
            match r {
                Some(i) => i < self.nodes@.len() && self.nodes@[i as int].key@ == key@,
                None => !self.has_child(key@),
            },
    {
        let mut i: usize = 0;
        while i < self.nodes.len()
            invariant
                i <= self.nodes@.len(),
                forall|j: int| 0 <= j < i ==> (#[trigger] self.nodes@[j]).key@ != key@,
            decreases self.nodes@.len() - i,
        {
            if self.nodes[i].key.key_eq(key) {
                return Some(i);
            }
            i += 1;
        }
        None
    }

    /// Stores `value` at `index` below this node, creating the nodes that
    /// are missing and overwriting a value already there.
    pub fn insert(&mut self, index: &[Idx], value: T)
        requires
            old(self).wf(),
        ensures
            final(self).wf(),
            final(self).key_view() == old(self).key_view(),
            forall|p: Seq<Idx::V>|
                #[trigger] final(self).lookup(p) == if p == path_of(index@) {
                    Some(value)
                } else {
                    old(self).lookup(p)
                },
            forall|p: Seq<Idx::V>|
                #[trigger] final(self).has_path(p) == (old(self).has_path(p) || is_prefix(p, path_of(index@))),
            forall|p: Seq<Idx::V>|
                old(self).has_path(p) ==> #[trigger] final(self).keys_at(p) == if is_strict_prefix(p, path_of(index@))
                    && !old(self).has_path(path_of(index@).subrange(0, p.len() as int + 1)) {
                    old(self).keys_at(p).push(path_of(index@)[p.len() as int])
                } else {
                    old(self).keys_at(p)
                },
        decreases index@.len(),
    {
        let ghost path = path_of(index@);
        if index.len() == 0 {
            self.value = Some(value);
            proof {
                assert forall|p: Seq<Idx::V>| #[trigger] final(self).has_path(p) == (old(self).has_path(p) || is_prefix(p, path))
                    && (old(self).has_path(p) ==> final(self).keys_at(p) == old(self).keys_at(p)) by {
                    if p.len() == 0 {
                        assert(p =~= path);
                    }
                }
            }
            proof {
                assert forall|p: Seq<Idx::V>| #[trigger]
                    final(self).lookup(p) == if p == path {
                        Some(value)
                    } else {
                        old(self).lookup(p)
                    } by {
                    if p.len() == 0 {
                        assert(p =~= path);
                    }
                }
            }
            return ;
        }
        let key = &index[0];
        let ghost mid_nodes = self.nodes@;
        let i = match self.child_index(key) {
            Some(i) => i,
            None => {
                let n = TreeNode { key: key.duplicate(), value: None, nodes: Vec::new() };
                proof {
                    assert(!old(self).has_child(key@));
                }
                self.nodes.push(n);
                self.nodes.len() - 1
            },
        };
        let ghost before = *self;
        proof {
            lemma_path_of_drop_first(index@);
            assert forall|a: int, b: int|
                0 <= a < b < before.nodes@.len() implies (#[trigger] before.nodes@[a]).key@
                != (#[trigger] before.nodes@[b]).key@ by {
                if b == mid_nodes.len() && before.nodes@.len() > mid_nodes.len() {
                    assert(mid_nodes[a] == before.nodes@[a]);
                    assert(old(self).nodes@[a].key@ != key@);
                }
            }
            assert forall|a: int| 0 <= a < before.nodes@.len() implies (#[trigger] before.nodes@[a]).wf() by {
                if a < mid_nodes.len() {
                    assert(mid_nodes[a] == before.nodes@[a]);
                }
            }
            assert(before.wf());
        }
        let rest = &index[1..index.len()];
        self.nodes[i].insert(rest, value);
        proof {
            let rest_path = path_of(rest@);
            assert(rest@ == index@.drop_first());
            assert(rest_path == path.drop_first());
            let c0 = before.nodes@[i as int];
            let c1 = self.nodes@[i as int];
            assert forall|a: int, b: int|
                0 <= a < b < self.nodes@.len() implies (#[trigger] self.nodes@[a]).key@
                != (#[trigger] self.nodes@[b]).key@ by {
                assert(before.nodes@[a].key@ != before.nodes@[b].key@);
            }
            assert forall|a: int| 0 <= a < self.nodes@.len() implies (#[trigger] self.nodes@[a]).wf() by {
                assert(before.nodes@[a].wf());
            }
            assert(self.wf());
            assert forall|p: Seq<Idx::V>| #[trigger]
                self.lookup(p) == if p == path {
                    Some(value)
                } else {
                    old(self).lookup(p)
                } by {
                if p.len() == 0 {
                    assert(p != path);
                } else if p[0] == key@ {
                    self.lemma_child_at(i as int);
                    before.lemma_child_at(i as int);
                    assert(self.lookup(p) == c1.lookup(p.drop_first()));
                    if p.drop_first() == rest_path {
                        assert forall|j: int| 0 <= j < p.len() implies p[j] == path[j] by {
                            if j > 0 {
                                assert(p[j] == p.drop_first()[j - 1]);
                                assert(path[j] == path.drop_first()[j - 1]);
                            }
                        }
                        assert(p =~= path);
                    } else {
                        assert(p != path);
                    }
                    if i < mid_nodes.len() {
                        assert(mid_nodes[i as int] == c0);
                        old(self).lemma_child_at(i as int);
                    } else {
                        c0.lemma_leaf_lookup(p.drop_first());
                    }
                } else {
                    assert(p != path);
                    if self.has_child(p[0]) {
                        let j = choose|j: int|
                            0 <= j < self.nodes@.len() && (#[trigger] self.nodes@[j]).key@ == p[0];
                        self.lemma_child_at(j);
                        assert(j != i);
                        assert(j < mid_nodes.len());
                        assert(mid_nodes[j] == self.nodes@[j]);
                        old(self).lemma_child_at(j);
                    } else if old(self).has_child(p[0]) {
                        let j = choose|j: int|
                            0 <= j < mid_nodes.len() && (#[trigger] mid_nodes[j]).key@ == p[0];
                        assert(j != i);
                        assert(self.nodes@[j] == mid_nodes[j]);
                    }
                }
            }
            let existed = i < mid_nodes.len();
            if existed {
                old(self).lemma_child_at(i as int);
            }
            assert(old(self).has_child(key@) == existed);
            assert(path.len() == index@.len() && path[0] == key@);
            assert(path_of(rest@) == path.drop_first());
            self.lemma_child_at(i as int);
            assert(old(self).has_path(path.subrange(0, 1)) == existed) by {
                let s1 = path.subrange(0, 1);
                assert(s1.len() == 1);
                assert(s1[0] == key@);
                if existed {
                    let c = old(self).child(key@);
                    assert(s1.drop_first().len() == 0);
                    assert(c.node_at(s1.drop_first()) == Some(c));
                    assert(old(self).node_at(s1) == c.node_at(s1.drop_first()));
                } else {
                    assert(old(self).node_at(s1) is None);
                }
            }
            assert(self.nodes@.map_values(|c: Self| c.key@) =~= if existed {
                old(self).nodes@.map_values(|c: Self| c.key@)
            } else {
                old(self).nodes@.map_values(|c: Self| c.key@).push(key@)
            }) by {
                assert forall|j: int| 0 <= j < self.nodes@.len() implies self.nodes@[j].key@ == before.nodes@[j].key@ by {
                }
                if !existed {
                    assert(before.nodes@ == mid_nodes.push(before.nodes@[i as int]));
                }
            }
            assert forall|p: Seq<Idx::V>| #![trigger self.has_path(p)] #![trigger self.keys_at(p)] self.has_path(p) == (old(self).has_path(p) || is_prefix(p, path))
                && (old(self).has_path(p) ==> self.keys_at(p) == if is_strict_prefix(p, path)
                    && !old(self).has_path(path.subrange(0, p.len() as int + 1)) {
                    old(self).keys_at(p).push(path[p.len() as int])
                } else {
                    old(self).keys_at(p)
                }) by {
                if p.len() == 0 {
                    assert(is_prefix(p, path)) by {
                        assert(p =~= path.subrange(0, 0));
                    }
                } else {
                    lemma_prefix_step(p, path);
                    let q = p.drop_first();
                    if p[0] == key@ {
                        let c0 = before.nodes@[i as int];
                        let c1 = self.nodes@[i as int];
                        assert(self.node_at(p) == c1.node_at(q));
                        let r = path.drop_first();
                        assert(c1.has_path(q) == (c0.has_path(q) || is_prefix(q, r)));
                        assert(is_strict_prefix(p, path) == is_strict_prefix(q, r));
                        assert(is_prefix(p, path) == is_prefix(q, r));
                        if existed {
                            assert(old(self).node_at(p) == c0.node_at(q));
                            if p.len() < path.len() {
                                let s2 = path.subrange(0, p.len() as int + 1);
                                assert(old(self).node_at(s2) == c0.node_at(s2.drop_first()));
                                assert(s2.drop_first() == r.subrange(0, q.len() as int + 1));
                                assert(path[p.len() as int] == r[q.len() as int]);
                            }
                            if c0.has_path(q) {
                                assert(c1.keys_at(q) == if is_strict_prefix(q, r) && !c0.has_path(r.subrange(0, q.len() as int + 1)) {
                                    c0.keys_at(q).push(r[q.len() as int])
                                } else {
                                    c0.keys_at(q)
                                });
                            }
                        } else {
                            assert(!old(self).has_path(p));
                            assert(c0.has_path(q) == (q.len() == 0));
                            if q.len() == 0 {
                                assert(is_prefix(q, path.drop_first())) by {
                                    assert(q =~= path.drop_first().subrange(0, 0));
                                }
                            }
                        }
                    } else {
                        assert(!is_prefix(p, path));
                        if self.has_child(p[0]) {
                            let j = choose|j: int|
                                0 <= j < self.nodes@.len() && (#[trigger] self.nodes@[j]).key@ == p[0];
                            self.lemma_child_at(j);
                            assert(j != i);
                            assert(mid_nodes[j] == self.nodes@[j]);
                            old(self).lemma_child_at(j);
                        } else if old(self).has_child(p[0]) {
                            let j = choose|j: int|
                                0 <= j < mid_nodes.len() && (#[trigger] mid_nodes[j]).key@ == p[0];
                            assert(j != i);
                            assert(self.nodes@[j] == mid_nodes[j]);
                            assert(self.has_child(p[0]));
                        }
                    }
                }
            }
        }
    }

    /// The value stored at `index` below this node, if that path exists and
    /// holds one.
    pub fn find(&self, index: &[Idx]) -> (r: Option<&T>)
        requires
            self.wf(),
        ensures
            found(r, self.lookup(path_of(index@))),
        decreases index@.len(),
    {
        if index.len() == 0 {
            return self.value.as_ref();
        }
        let key = &index[0];
        proof {
            lemma_path_of_drop_first(index@);
        }
        match self.find_node(key) {
            Some(n) => {
                let rest = &index[1..index.len()];
                proof {
                    assert(rest@ == index@.drop_first());
                }
                n.find(rest)
            },
            None => None,
        }
    }

    /// The child reached over `key`, if there is one.
    pub fn find_node(&self, key: &Idx) -> (r: Option<&TreeNode<T, Idx>>)
        requires
            self.wf(),
        ensures
            match r {
                Some(n) => self.has_child(key@) && *n == self.child(key@),
                None => !self.has_child(key@),
            },
    {
        match self.child_index(key) {
            Some(i) => {
                proof {
                    self.lemma_child_at(i as int);
                }
                Some(&self.nodes[i])
            },
            None => None,
        }
    }
}

impl<T, Idx: TrieKey> View for TreeMap<T, Idx> {
    type V = Map<Seq<Idx::V>, T>;

    closed spec fn view(&self) -> Map<Seq<Idx::V>, T> {
        Map::new(
            |p: Seq<Idx::V>| p.len() > 0 && self.head.lookup(p) is Some,
            |p: Seq<Idx::V>| self.head.lookup(p)->Some_0,
        )
    }
}

impl<T, Idx: TrieKey> TreeMap<T, Idx> {
    pub closed spec fn wf(self) -> bool {
        self.head.wf()
    }

    /// An empty map.
    pub fn new() -> (r: Self)
        ensures
            r.wf(),
            r@ == Map::<Seq<Idx::V>, T>::empty(),
    {
        let r = TreeMap { head: TreeNode { key: Idx::default(), value: None, nodes: Vec::new() } };
        proof {
            assert forall|p: Seq<Idx::V>| !#[trigger] r@.contains_key(p) by {
                r.head.lemma_leaf_lookup(p);
            }
            assert(r@ =~= Map::<Seq<Idx::V>, T>::empty());
        }
        r
    }

    /// Stores `value` under `index`, overwriting an earlier value. An empty
    /// key sequence is ignored.
    pub fn insert(&mut self, index: &[Idx], value: T)
        requires
            old(self).wf(),
        ensures
            final(self).wf(),
            final(self)@ == if index@.len() == 0 {
                old(self)@
            } else {
                old(self)@.insert(path_of(index@), value)
            },
    {
        if index.len() == 0 {
            return ;
        }
        self.head.insert(index, value);
        proof {
            let path = path_of(index@);
            assert(path.len() > 0);
            assert(self@ =~= old(self)@.insert(path, value));
        }
    }

    /// The value stored under `index`; nothing for an empty key sequence.
    pub fn find(&self, index: &[Idx]) -> (r: Option<&T>)
        requires
            self.wf(),
        ensures
            found(
                r,
                if index@.len() > 0 && self@.contains_key(path_of(index@)) {
                    Some(self@[path_of(index@)])
                } else {
                    None
                },
            ),
    {
        if index.len() == 0 {
            return None;
        }
        self.head.find(index)
    }
}

} // verus!

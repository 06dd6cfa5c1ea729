//! The weighted trie that plans a compiled layout: each node counts the
//! insertions that passed through it and carries the compiler's bookkeeping.
use vstd::prelude::*;

use crate::key::{found, is_prefix, is_strict_prefix, lemma_path_of_drop_first, lemma_prefix_step, path_of, TrieKey};

verus! {

/// A node of the weighted trie. `idx_counts` is the node's weight: the
/// number of insertions whose key sequence went on below it.
/// `built_sub_nodes`, `visited` and `list_offset` belong to the compiler.
pub struct CountedTreeNode<T, Idx: TrieKey> {
    pub key: Idx,
    pub value: Option<T>,
    pub idx_counts: i32,
    pub built_sub_nodes: i32,
    pub visited: bool,
    pub list_offset: i32,
    pub nodes: Vec<CountedTreeNode<T, Idx>>,
}

/// The weighted trie, held by its synthetic root.
pub struct CountedTreeMap<T, Idx: TrieKey> {
    head: Option<CountedTreeNode<T, Idx>>,
}

impl<T, Idx: TrieKey> CountedTreeNode<T, Idx> {
    /// A node that the compiler has not touched yet.
    pub open spec fn fresh(self) -> bool {
        &&& !self.visited
        &&& self.built_sub_nodes == 0
        &&& self.list_offset == -1
    }

    /// Siblings carry distinct tokens; no child is heavier than its parent;
    /// every node is fresh.
    pub open spec fn wf(self) -> bool
        decreases self,
    {
        &&& self.fresh()
        &&& 0 <= self.idx_counts
        &&& forall|i: int, j: int|
            0 <= i < j < self.nodes@.len() ==> (#[trigger] self.nodes@[i]).key@
                != (#[trigger] self.nodes@[j]).key@
        &&& forall|i: int|
            0 <= i < self.nodes@.len() ==> (#[trigger] self.nodes@[i]).idx_counts <= self.idx_counts
        &&& forall|i: int| 0 <= i < self.nodes@.len() ==> (#[trigger] self.nodes@[i]).wf()
    }

    /// The children of this node carry distinct tokens.
    pub open spec fn distinct(self) -> bool {
        forall|i: int, j: int|
            0 <= i < j < self.nodes@.len() ==> (#[trigger] self.nodes@[i]).key@ != (#[trigger] self.nodes@[j]).key@
    }

    /// Siblings stand in descending order of weight, at every level.
    pub open spec fn sorted(self) -> bool
        decreases self,
    {
        &&& forall|i: int, j: int|
            0 <= i < j < self.nodes@.len() ==> (#[trigger] self.nodes@[i]).idx_counts
                >= (#[trigger] self.nodes@[j]).idx_counts
        &&& forall|i: int| 0 <= i < self.nodes@.len() ==> (#[trigger] self.nodes@[i]).sorted()
    }

    /// The number of nodes in this subtree, this one included.
    pub open spec fn count(self) -> nat
        decreases self,
    {
        1 + Self::count_all(self.nodes@)
    }

    /// The number of nodes in a list of subtrees.
    pub open spec fn count_all(s: Seq<Self>) -> nat
        decreases s,
    {
        if s.len() == 0 {
            0
        } else {
            s[0].count() + Self::count_all(s.drop_first())
        }
    }

    pub open spec fn has_child(self, k: Idx::V) -> bool {
        exists|i: int| 0 <= i < self.nodes@.len() && (#[trigger] self.nodes@[i]).key@ == k
    }

    pub open spec fn child(self, k: Idx::V) -> Self {
        self.nodes@[choose|i: int| 0 <= i < self.nodes@.len() && (#[trigger] self.nodes@[i]).key@ == k]
    }

    /// The value stored at `path` below this node.
    pub open spec fn lookup(self, path: Seq<Idx::V>) -> Option<T>
        decreases path.len(),
    {
        if path.len() == 0 {
            self.value
        } else if self.has_child(path[0]) {
            self.child(path[0]).lookup(path.drop_first())
        } else {
            None
        }
    }

    /// The node reached from this one along `path`.
    pub open spec fn node_at(self, path: Seq<Idx::V>) -> Option<Self>
        decreases path.len(),
    {
        if path.len() == 0 {
            Some(self)
        } else if self.has_child(path[0]) {
            self.child(path[0]).node_at(path.drop_first())
        } else {
            None
        }
    }

    /// A node stands at `path` below this one.
    pub open spec fn has_path(self, path: Seq<Idx::V>) -> bool {
        self.node_at(path) is Some
    }

    /// The weight of the node at `path`.
    pub open spec fn weight_at(self, path: Seq<Idx::V>) -> int {
        self.node_at(path)->Some_0.idx_counts as int
    }

    /// The tokens of the children of the node at `path`, in order.
    pub open spec fn keys_at(self, path: Seq<Idx::V>) -> Seq<Idx::V> {
        self.node_at(path)->Some_0.nodes@.map_values(|c: Self| c.key@)
    }

    pub proof fn lemma_child_at(self, i: int)
        requires
            forall|a: int, b: int|
                0 <= a < b < self.nodes@.len() ==> (#[trigger] self.nodes@[a]).key@
                    != (#[trigger] self.nodes@[b]).key@,
            0 <= i < self.nodes@.len(),
        ensures
            self.has_child(self.nodes@[i].key@),
            self.child(self.nodes@[i].key@) == self.nodes@[i],
    {
        let k = self.nodes@[i].key@;
        assert(self.has_child(k));
        let j = choose|j: int| 0 <= j < self.nodes@.len() && (#[trigger] self.nodes@[j]).key@ == k;
        if j < i {
            assert(self.nodes@[j].key@ != self.nodes@[i].key@);
        } else if i < j {
            assert(self.nodes@[i].key@ != self.nodes@[j].key@);
        }
    }

    pub proof fn lemma_leaf_lookup(self, path: Seq<Idx::V>)
        requires
            self.nodes@.len() == 0,
            self.value is None,
        ensures
            self.lookup(path) is None,
    {
    }

    pub proof fn lemma_count_all_concat(a: Seq<Self>, b: Seq<Self>)
        ensures
            Self::count_all(a + b) == Self::count_all(a) + Self::count_all(b),
        decreases a.len(),
    {
        if a.len() > 0 {
            assert((a + b).drop_first() =~= a.drop_first() + b);
            Self::lemma_count_all_concat(a.drop_first(), b);
        } else {
            assert(a + b =~= b);
        }
    }

    pub proof fn lemma_count_all_single(x: Self)
        ensures
            Self::count_all(seq![x]) == x.count(),
    {
        assert(seq![x].drop_first() =~= Seq::<Self>::empty());
        assert(Self::count_all(Seq::<Self>::empty()) == 0);
    }

    pub proof fn lemma_count_all_at_least_len(s: Seq<Self>)
        ensures
            Self::count_all(s) >= s.len(),
        decreases s.len(),
    {
        if s.len() > 0 {
            assert(s[0].count() >= 1);
            Self::lemma_count_all_at_least_len(s.drop_first());
        }
    }

    pub proof fn lemma_count_all_pointwise(a: Seq<Self>, b: Seq<Self>)
        requires
            a.len() == b.len(),
            forall|i: int| 0 <= i < a.len() ==> (#[trigger] a[i]).count() == b[i].count(),
        ensures
            Self::count_all(a) == Self::count_all(b),
        decreases a.len(),
    {
        if a.len() > 0 {
            assert forall|i: int| 0 <= i < a.drop_first().len() implies (#[trigger] a.drop_first()[i]).count()
                == b.drop_first()[i].count() by {
                assert(a.drop_first()[i] == a[i + 1]);
                assert(b.drop_first()[i] == b[i + 1]);
            }
            Self::lemma_count_all_pointwise(a.drop_first(), b.drop_first());
        }
    }

    /// Stores `value` at `index` below this node, creating the nodes that
    /// are missing and overwriting a value already there. Every node that the
    /// key sequence goes on below gains one unit of weight.
    pub fn insert(&mut self, index: &[Idx], value: T)
        requires
            old(self).wf(),
            index@.len() > 0 ==> old(self).idx_counts < i32::MAX,
        ensures
            final(self).wf(),
            final(self).key == old(self).key,
            final(self).idx_counts == old(self).idx_counts + if index@.len() > 0 {
                1int
            } else {
                0int
            },
            forall|p: Seq<Idx::V>|
                #[trigger] final(self).lookup(p) == if p == path_of(index@) {
                    Some(value)
                } else {
                    old(self).lookup(p)
                },
            forall|p: Seq<Idx::V>|
                #[trigger] final(self).has_path(p) == (old(self).has_path(p) || is_prefix(p, path_of(index@))),
            forall|p: Seq<Idx::V>|
                #[trigger] final(self).has_path(p) ==> final(self).weight_at(p) == (if old(self).has_path(p) {
                    old(self).weight_at(p)
                } else {
                    0
                }) + if is_strict_prefix(p, path_of(index@)) {
                    1int
                } else {
                    0int
                },
            forall|p: Seq<Idx::V>|
                old(self).has_path(p) ==> #[trigger] final(self).keys_at(p) == if is_strict_prefix(p, path_of(index@))
                    && !old(self).has_path(path_of(index@).subrange(0, p.len() as int + 1)) {
                    old(self).keys_at(p).push(path_of(index@)[p.len() as int])
                } else {
                    old(self).keys_at(p)
                },
        decreases index@.len(),
    {
        let ghost path = path_of(index@);
        if index.len() == 0 {
            self.value = Some(value);
            proof {
                assert forall|p: Seq<Idx::V>| #[trigger] final(self).has_path(p) == (old(self).has_path(p) || is_prefix(p, path))
                    && (final(self).has_path(p) ==> final(self).weight_at(p) == old(self).weight_at(p))
                    && (old(self).has_path(p) ==> final(self).keys_at(p) == old(self).keys_at(p)) by {
                    if p.len() == 0 {
                        assert(p =~= path);
                    }
                }
            }
            proof {
                assert forall|p: Seq<Idx::V>| #[trigger]
                    final(self).lookup(p) == if p == path {
                        Some(value)
                    } else {
                        old(self).lookup(p)
                    } by {
                    if p.len() == 0 {
                        assert(p =~= path);
                    }
                }
            }
            return ;
        }
        self.idx_counts += 1;
        let key = &index[0];
        let ghost mid_nodes = self.nodes@;
        let i = match self.child_index(key) {
            Some(i) => i,
            None => {
                let n = CountedTreeNode {
                    key: key.duplicate(),
                    value: None,
                    idx_counts: 0,
                    built_sub_nodes: 0,
                    visited: false,
                    list_offset: -1,
                    nodes: Vec::new(),
                };
                proof {
                    assert(!old(self).has_child(key@));
                }
                self.nodes.push(n);
                self.nodes.len() - 1
            },
        };
        let ghost before = *self;
        proof {
            lemma_path_of_drop_first(index@);
            assert forall|a: int, b: int|
                0 <= a < b < before.nodes@.len() implies (#[trigger] before.nodes@[a]).key@
                != (#[trigger] before.nodes@[b]).key@ by {
                if b == mid_nodes.len() && before.nodes@.len() > mid_nodes.len() {
                    assert(mid_nodes[a] == before.nodes@[a]);
                    assert(old(self).nodes@[a].key@ != key@);
                }
            }
            assert forall|a: int| 0 <= a < before.nodes@.len() implies (#[trigger] before.nodes@[a]).wf()
                && before.nodes@[a].idx_counts <= old(self).idx_counts by {
                if a < mid_nodes.len() {
                    assert(mid_nodes[a] == before.nodes@[a]);
                }
            }
        }
        let rest = &index[1..index.len()];
        self.nodes[i].insert(rest, value);
        proof {
            let rest_path = path_of(rest@);
            assert(rest@ == index@.drop_first());
            assert(rest_path == path.drop_first());
            let c0 = before.nodes@[i as int];
            let c1 = self.nodes@[i as int];
            assert forall|a: int, b: int|
                0 <= a < b < self.nodes@.len() implies (#[trigger] self.nodes@[a]).key@
                != (#[trigger] self.nodes@[b]).key@ by {
                assert(before.nodes@[a].key@ != before.nodes@[b].key@);
            }
            assert forall|a: int| 0 <= a < self.nodes@.len() implies (#[trigger] self.nodes@[a]).wf()
                && self.nodes@[a].idx_counts <= self.idx_counts by {
                assert(before.nodes@[a].wf());
            }
            assert(self.wf());
            assert forall|p: Seq<Idx::V>| #[trigger]
                self.lookup(p) == if p == path {
                    Some(value)
                } else {
                    old(self).lookup(p)
                } by {
                if p.len() == 0 {
                    assert(p != path);
                } else if p[0] == key@ {
                    self.lemma_child_at(i as int);
                    assert(self.lookup(p) == c1.lookup(p.drop_first()));
                    if p.drop_first() == rest_path {
                        assert forall|j: int| 0 <= j < p.len() implies p[j] == path[j] by {
                            if j > 0 {
                                assert(p[j] == p.drop_first()[j - 1]);
                                assert(path[j] == path.drop_first()[j - 1]);
                            }
                        }
                        assert(p =~= path);
                    } else {
                        assert(p != path);
                    }
                    if i < mid_nodes.len() {
                        assert(mid_nodes[i as int] == c0);
                        old(self).lemma_child_at(i as int);
                    } else {
                        c0.lemma_leaf_lookup(p.drop_first());
                    }
                } else {
                    assert(p != path);
                    if self.has_child(p[0]) {
                        let j = choose|j: int|
                            0 <= j < self.nodes@.len() && (#[trigger] self.nodes@[j]).key@ == p[0];
                        self.lemma_child_at(j);
                        assert(j != i);
                        assert(j < mid_nodes.len());
                        assert(mid_nodes[j] == self.nodes@[j]);
                        old(self).lemma_child_at(j);
                    } else if old(self).has_child(p[0]) {
                        let j = choose|j: int|
                            0 <= j < mid_nodes.len() && (#[trigger] mid_nodes[j]).key@ == p[0];
                        assert(j != i);
                        assert(self.nodes@[j] == mid_nodes[j]);
                    }
                }
            }
            let existed = i < mid_nodes.len();
            if existed {
                old(self).lemma_child_at(i as int);
            }
            assert(old(self).has_child(key@) == existed);
            assert(path.len() == index@.len() && path[0] == key@);
            assert(path_of(rest@) == path.drop_first());
            self.lemma_child_at(i as int);
            assert(old(self).has_path(path.subrange(0, 1)) == existed) by {
                let s1 = path.subrange(0, 1);
                assert(s1.len() == 1);
                assert(s1[0] == key@);
                if existed {
                    let c = old(self).child(key@);
                    assert(s1.drop_first().len() == 0);
                    assert(c.node_at(s1.drop_first()) == Some(c));
                    assert(old(self).node_at(s1) == c.node_at(s1.drop_first()));
                } else {
                    assert(old(self).node_at(s1) is None);
                }
            }
            assert(self.nodes@.map_values(|c: Self| c.key@) =~= if existed {
                old(self).nodes@.map_values(|c: Self| c.key@)
            } else {
                old(self).nodes@.map_values(|c: Self| c.key@).push(key@)
            }) by {
                assert forall|j: int| 0 <= j < self.nodes@.len() implies self.nodes@[j].key@ == before.nodes@[j].key@ by {
                }
                if !existed {
                    assert(before.nodes@ == mid_nodes.push(before.nodes@[i as int]));
                }
            }
            assert forall|p: Seq<Idx::V>| #![trigger self.has_path(p)] #![trigger self.keys_at(p)] self.has_path(p) == (old(self).has_path(p) || is_prefix(p, path))
                && (self.has_path(p) ==> self.weight_at(p) == (if old(self).has_path(p) {
                    old(self).weight_at(p)
                } else {
                    0
                }) + if is_strict_prefix(p, path) {
                    1int
                } else {
                    0int
                }) && (old(self).has_path(p) ==> self.keys_at(p) == if is_strict_prefix(p, path)
                    && !old(self).has_path(path.subrange(0, p.len() as int + 1)) {
                    old(self).keys_at(p).push(path[p.len() as int])
                } else {
                    old(self).keys_at(p)
                }) by {
                if p.len() == 0 {
                    assert(is_prefix(p, path)) by {
                        assert(p =~= path.subrange(0, 0));
                    }
                } else {
                    lemma_prefix_step(p, path);
                    let q = p.drop_first();
                    if p[0] == key@ {
                        let c0 = before.nodes@[i as int];
                        let c1 = self.nodes@[i as int];
                        assert(self.node_at(p) == c1.node_at(q));
                        let r = path.drop_first();
                        assert(c1.has_path(q) == (c0.has_path(q) || is_prefix(q, r)));
                        assert(is_strict_prefix(p, path) == is_strict_prefix(q, r));
                        assert(is_prefix(p, path) == is_prefix(q, r));
                        if existed {
                            assert(old(self).node_at(p) == c0.node_at(q));
                            if c1.has_path(q) {
                                assert(c1.weight_at(q) == (if c0.has_path(q) { c0.weight_at(q) } else { 0 }) + if is_strict_prefix(q, r) {
                                    1int
                                } else {
                                    0int
                                });
                            }
                            if p.len() < path.len() {
                                let s2 = path.subrange(0, p.len() as int + 1);
                                assert(old(self).node_at(s2) == c0.node_at(s2.drop_first()));
                                assert(s2.drop_first() == r.subrange(0, q.len() as int + 1));
                                assert(path[p.len() as int] == r[q.len() as int]);
                            }
                            if c0.has_path(q) {
                                assert(c1.keys_at(q) == if is_strict_prefix(q, r) && !c0.has_path(r.subrange(0, q.len() as int + 1)) {
                                    c0.keys_at(q).push(r[q.len() as int])
                                } else {
                                    c0.keys_at(q)
                                });
                            }
                        } else {
                            assert(!old(self).has_path(p));
                            assert(c0.has_path(q) == (q.len() == 0));
                            if q.len() == 0 {
                                assert(is_prefix(q, path.drop_first())) by {
                                    assert(q =~= path.drop_first().subrange(0, 0));
                                }
                            }
                        }
                    } else {
                        assert(!is_prefix(p, path));
                        if self.has_child(p[0]) {
                            let j = choose|j: int|
                                0 <= j < self.nodes@.len() && (#[trigger] self.nodes@[j]).key@ == p[0];
                            self.lemma_child_at(j);
                            assert(j != i);
                            assert(mid_nodes[j] == self.nodes@[j]);
                            old(self).lemma_child_at(j);
                        } else if old(self).has_child(p[0]) {
                            let j = choose|j: int|
                                0 <= j < mid_nodes.len() && (#[trigger] mid_nodes[j]).key@ == p[0];
                            assert(j != i);
                            assert(self.nodes@[j] == mid_nodes[j]);
                            assert(self.has_child(p[0]));
                        }
                    }
                }
            }
        }
    }

    /// Removes and returns the first remaining child, or nothing when none
    /// is left.
    pub fn consume_next_node(&mut self) -> (r: Option<CountedTreeNode<T, Idx>>)
        ensures
            final(self).key == old(self).key,
            final(self).value == old(self).value,
            final(self).idx_counts == old(self).idx_counts,
            final(self).built_sub_nodes == old(self).built_sub_nodes,
            final(self).visited == old(self).visited,
            final(self).list_offset == old(self).list_offset,
            old(self).nodes@.len() == 0 ==> r is None && final(self).nodes@ == old(self).nodes@,
            old(self).nodes@.len() > 0 ==> r == Some(old(self).nodes@[0]) && final(self).nodes@
                == old(self).nodes@.drop_first(),
    {
        if self.nodes.len() == 0 {
            None
        } else {
            Some(self.nodes.remove(0))
        }
    }

    /// The child reached over `key`, if there is one.
    pub fn find_node(&self, key: &Idx) -> (r: Option<&CountedTreeNode<T, Idx>>)
        requires
            self.distinct(),
        ensures
            match r {
                Some(n) => self.has_child(key@) && *n == self.child(key@),
                None => !self.has_child(key@),
            },
    {
        match self.child_index(key) {
            Some(i) => {
                proof {
                    self.lemma_child_at(i as int);
                }
                Some(&self.nodes[i])
            },
            None => None,
        }
    }

    /// The child reached over `key`, for changing in place.
    pub fn find_node_mut(&mut self, key: &Idx) -> (r: Option<&mut CountedTreeNode<T, Idx>>)
        requires
            old(self).distinct(),
        ensures
            match r {
                Some(n) => {
                    &&& final(self).key == old(self).key
                    &&& final(self).value == old(self).value
                    &&& final(self).idx_counts == old(self).idx_counts
                    &&& final(self).built_sub_nodes == old(self).built_sub_nodes
                    &&& final(self).visited == old(self).visited
                    &&& final(self).list_offset == old(self).list_offset
                    &&& old(self).has_child(key@)
                    &&& *n == old(self).child(key@)
                    &&& exists|i: int|
                        0 <= i < old(self).nodes@.len() && old(self).nodes@[i].key@ == key@
                            && final(self).nodes@ == old(self).nodes@.update(i, *final(n))
                },
                None => !old(self).has_child(key@) && *final(self) == *old(self),
            },
    {
        match self.child_index(key) {
            Some(i) => {
                proof {
                    self.lemma_child_at(i as int);
                }
                Some(&mut self.nodes[i])
            },
            None => None,
        }
    }

    /// `out` holds the elements of `orig` in the order that `idx` gives:
    /// each element once.
    pub open spec fn permutes(out: Seq<Self>, orig: Seq<Self>, idx: Seq<int>) -> bool {
        &&& out.len() == orig.len()
        &&& idx.len() == out.len()
        &&& forall|j: int| 0 <= j < out.len() ==> 0 <= #[trigger] idx[j] < orig.len()
        &&& forall|j: int| 0 <= j < out.len() ==> #[trigger] out[j] == orig[idx[j]]
        &&& forall|a: int, b: int| 0 <= a < b < out.len() ==> #[trigger] idx[a] != #[trigger] idx[b]
        &&& forall|t: int| 0 <= t < orig.len() ==> #[trigger] Self::covers(idx, t)
    }

    /// Some position of `idx` holds `t`.
    pub open spec fn covers(idx: Seq<int>, t: int) -> bool {
        exists|j: int| 0 <= j < idx.len() && idx[j] == t
    }

    /// `idx` lists each position of `orig` once, and siblings of equal weight
    /// in `out` keep the order they had in `orig`.
    pub open spec fn stable_order(out: Seq<Self>, orig: Seq<Self>, idx: Seq<int>) -> bool {
        &&& out.len() == orig.len()
        &&& idx.len() == out.len()
        &&& forall|j: int| 0 <= j < out.len() ==> 0 <= #[trigger] idx[j] < orig.len()
        &&& forall|a: int, b: int| 0 <= a < b < out.len() ==> #[trigger] idx[a] != #[trigger] idx[b]
        &&& forall|t: int| 0 <= t < orig.len() ==> #[trigger] Self::covers(idx, t)
        &&& forall|a: int, b: int|
            0 <= a < b < out.len() && (#[trigger] out[a]).idx_counts == (#[trigger] out[b]).idx_counts ==> idx[a]
                < idx[b]
    }

    /// `self` is `other` with the children of every node reordered: at each
    /// level the children are the old ones, each itself reordered, listed
    /// in a stable order.
    pub open spec fn sorted_from(self, other: Self) -> bool
        decreases self,
    {
        &&& self.key == other.key
        &&& self.value == other.value
        &&& self.idx_counts == other.idx_counts
        &&& self.built_sub_nodes == other.built_sub_nodes
        &&& self.visited == other.visited
        &&& self.list_offset == other.list_offset
        &&& exists|idx: Seq<int>|
            {
                &&& Self::stable_order(self.nodes@, other.nodes@, idx)
                &&& forall|j: int|
                    0 <= j < self.nodes@.len() ==> (#[trigger] self.nodes@[j]).sorted_from(other.nodes@[idx[j]])
            }
    }

    /// Orders a list of siblings by descending weight; siblings of equal
    /// weight keep their order.
    fn sort_by_weight(src: Vec<Self>) -> (r: (Vec<Self>, Ghost<Seq<int>>))
        ensures
            Self::permutes(r.0@, src@, r.1@),
            forall|a: int, b: int|
                0 <= a < b < r.0@.len() && (#[trigger] r.0@[a]).idx_counts == (#[trigger] r.0@[b]).idx_counts
                    ==> r.1@[a] < r.1@[b],
            Self::count_all(r.0@) == Self::count_all(src@),
            forall|a: int, b: int|
                0 <= a < b < r.0@.len() ==> (#[trigger] r.0@[a]).idx_counts >= (#[trigger] r.0@[b]).idx_counts,
    {
        let ghost orig = src@;
        let mut src = src;
        let mut out: Vec<Self> = Vec::new();
        let ghost mut idx: Seq<int> = Seq::empty();
        while src.len() > 0
            invariant
                src@ == orig.subrange(0, src@.len() as int),
                out@.len() + src@.len() == orig.len(),
                idx.len() == out@.len(),
                forall|j: int| 0 <= j < out@.len() ==> src@.len() <= #[trigger] idx[j] < orig.len(),
                forall|j: int| 0 <= j < out@.len() ==> #[trigger] out@[j] == orig[idx[j]],
                forall|a: int, b: int| 0 <= a < b < out@.len() ==> #[trigger] idx[a] != #[trigger] idx[b],
                forall|t: int| src@.len() <= t < orig.len() ==> #[trigger] Self::covers(idx, t),
                forall|a: int, b: int|
                    0 <= a < b < out@.len() ==> (#[trigger] out@[a]).idx_counts >= (#[trigger] out@[b]).idx_counts,
                forall|a: int, b: int|
                    0 <= a < b < out@.len() && (#[trigger] out@[a]).idx_counts == (#[trigger] out@[b]).idx_counts
                        ==> idx[a] < idx[b],
                Self::count_all(src@) + Self::count_all(out@) == Self::count_all(orig),
            decreases src@.len(),
        {
            let ghost src0 = src@;
            let ghost out0 = out@;
            let ghost idx0 = idx;
            let x = src.pop().unwrap();
            let w = x.idx_counts;
            let mut pos: usize = 0;
            while pos < out.len() && out[pos].idx_counts > w
                invariant
                    pos <= out@.len(),
                    forall|j: int| 0 <= j < pos ==> (#[trigger] out@[j]).idx_counts > w,
                decreases out@.len() - pos,
            {
                pos += 1;
            }
            out.insert(pos, x);
            proof {
                let m = src@.len() as int;
                idx = idx0.insert(pos as int, m);
                idx0.insert_ensures(pos as int, m);
                out0.insert_ensures(pos as int, x);
                assert(src0 =~= src@ + seq![x]);
                Self::lemma_count_all_concat(src@, seq![x]);
                Self::lemma_count_all_single(x);
                assert(out0 =~= out0.subrange(0, pos as int) + out0.subrange(pos as int, out0.len() as int));
                Self::lemma_count_all_concat(out0.subrange(0, pos as int), out0.subrange(pos as int, out0.len() as int));
                assert(out@ =~= (out0.subrange(0, pos as int) + seq![x]) + out0.subrange(pos as int, out0.len() as int));
                Self::lemma_count_all_concat(out0.subrange(0, pos as int) + seq![x], out0.subrange(pos as int, out0.len() as int));
                Self::lemma_count_all_concat(out0.subrange(0, pos as int), seq![x]);
                assert(src@ =~= orig.subrange(0, m));
                assert(x == orig[m]);
                assert forall|j: int| 0 <= j < out@.len() implies m <= #[trigger] idx[j] < orig.len()
                    && out@[j] == orig[idx[j]] by {
                    if j < pos {
                        assert(idx[j] == idx0[j]);
                    } else if j > pos {
                        assert(idx[j] == idx0[j - 1]);
                        assert(out@[j] == out0[j - 1]);
                    }
                }
                assert forall|a: int, b: int| 0 <= a < b < out@.len() implies #[trigger] idx[a] != #[trigger] idx[b] by {
                    if a < pos && b > pos {
                        assert(idx[b] == idx0[b - 1]);
                    } else if a > pos {
                        assert(idx[a] == idx0[a - 1]);
                        assert(idx[b] == idx0[b - 1]);
                    } else if b < pos {
                    } else if a == pos {
                        assert(idx[b] == idx0[b - 1]);
                    } else {
                        assert(idx[a] == idx0[a]);
                    }
                }
                assert forall|t: int| m <= t < orig.len() implies #[trigger] Self::covers(idx, t) by {
                    if t == m {
                        assert(idx[pos as int] == t);
                    } else {
                        assert(Self::covers(idx0, t));
                        let j0 = choose|j: int| 0 <= j < idx0.len() && #[trigger] idx0[j] == t;
                        if j0 < pos {
                            assert(idx[j0] == t);
                        } else {
                            assert(idx[j0 + 1] == idx0[j0]);
                        }
                    }
                }
                assert forall|a: int, b: int| 0 <= a < b < out@.len() implies (#[trigger] out@[a]).idx_counts
                    >= (#[trigger] out@[b]).idx_counts by {
                    if b == pos {
                        assert(out@[a] == out0[a]);
                    } else if a == pos {
                        assert(out@[b] == out0[b - 1]);
                        assert(out0[pos as int].idx_counts <= w);
                        if b - 1 > pos {
                            assert(out0[pos as int].idx_counts >= out0[b - 1].idx_counts);
                        }
                    } else if b < pos {
                    } else if a < pos {
                        assert(out@[b] == out0[b - 1]);
                        assert(out@[a] == out0[a]);
                        assert(out0[a].idx_counts > w);
                        if pos < out0.len() {
                            assert(out0[pos as int].idx_counts <= w);
                        }
                    } else {
                        assert(out@[b] == out0[b - 1]);
                        assert(out@[a] == out0[a - 1]);
                    }
                }
                assert forall|a: int, b: int|
                    0 <= a < b < out@.len() && (#[trigger] out@[a]).idx_counts == (#[trigger] out@[b]).idx_counts
                        implies idx[a] < idx[b] by {
                    if b == pos {
                        assert(out@[a] == out0[a]);
                        assert(out0[a].idx_counts > w);
                    } else if a == pos {
                        assert(out@[b] == out0[b - 1]);
                        assert(idx[b] == idx0[b - 1]);
                        assert(idx0[b - 1] >= m + 1);
                    } else if b < pos {
                        assert(idx[a] == idx0[a] && idx[b] == idx0[b]);
                    } else if a < pos {
                        assert(out@[b] == out0[b - 1]);
                        assert(out@[a] == out0[a]);
                        assert(out0[a].idx_counts > w);
                        if pos < out0.len() {
                            assert(out0[pos as int].idx_counts <= w);
                            if b - 1 > pos {
                                assert(out0[pos as int].idx_counts >= out0[b - 1].idx_counts);
                            }
                        }
                    } else {
                        assert(out@[b] == out0[b - 1]);
                        assert(out@[a] == out0[a - 1]);
                        assert(idx[a] == idx0[a - 1] && idx[b] == idx0[b - 1]);
                    }
                }
            }
        }
        proof {
            assert(src@.len() == 0);
            assert(Self::count_all(src@) == 0);
        }
        (out, Ghost(idx))
    }

    /// Reorders the children of every node by descending weight; children
    /// of equal weight keep their order. What the trie stores is unchanged.
    pub fn sort_nodes(&mut self)
        requires
            old(self).wf(),
        ensures
            final(self).wf(),
            final(self).sorted(),
            final(self).key == old(self).key,
            final(self).value == old(self).value,
            final(self).idx_counts == old(self).idx_counts,
            final(self).count() == old(self).count(),
            final(self).sorted_from(*old(self)),
            forall|p: Seq<Idx::V>| #[trigger] final(self).lookup(p) == old(self).lookup(p),
        decreases *old(self),
    {
        let mut src: Vec<Self> = Vec::new();
        std::mem::swap(&mut src, &mut self.nodes);
        let (sorted, Ghost(idx)) = Self::sort_by_weight(src);
        self.nodes = sorted;
        let ghost mid = *self;
        let ghost orig = old(self).nodes@;
        proof {
            assert forall|a: int, b: int| 0 <= a < b < mid.nodes@.len() implies (#[trigger] mid.nodes@[a]).key@
                != (#[trigger] mid.nodes@[b]).key@ by {
                let (ia, ib) = (idx[a], idx[b]);
                if ia < ib {
                    assert(orig[ia].key@ != orig[ib].key@);
                } else {
                    assert(orig[ib].key@ != orig[ia].key@);
                }
            }
            assert forall|a: int| 0 <= a < mid.nodes@.len() implies (#[trigger] mid.nodes@[a]).wf()
                && mid.nodes@[a].idx_counts <= mid.idx_counts by {
                assert(mid.nodes@[a] == orig[idx[a]]);
            }
            assert forall|p: Seq<Idx::V>| #[trigger] mid.lookup(p) == old(self).lookup(p) by {
                if p.len() > 0 {
                    let k = p[0];
                    if old(self).has_child(k) {
                        let t = choose|t: int| 0 <= t < orig.len() && (#[trigger] orig[t]).key@ == k;
                        assert(Self::covers(idx, t));
                        let j = choose|j: int| 0 <= j < idx.len() && #[trigger] idx[j] == t;
                        assert(mid.nodes@[j] == orig[t]);
                        mid.lemma_child_at(j);
                        old(self).lemma_child_at(t);
                    } else if mid.has_child(k) {
                        let j = choose|j: int| 0 <= j < mid.nodes@.len() && (#[trigger] mid.nodes@[j]).key@ == k;
                        assert(orig[idx[j]].key@ == k);
                    }
                }
            }
        }
        let mut i: usize = 0;
        while i < self.nodes.len()
            invariant
                self.nodes@.len() == mid.nodes@.len(),
                self.key == mid.key,
                self.value == mid.value,
                self.idx_counts == mid.idx_counts,
                self.built_sub_nodes == mid.built_sub_nodes,
                self.visited == mid.visited,
                self.list_offset == mid.list_offset,
                Self::permutes(mid.nodes@, orig, idx),
                orig == old(self).nodes@,
                forall|j: int| 0 <= j < mid.nodes@.len() ==> (#[trigger] mid.nodes@[j]).wf(),
                forall|j: int| i <= j < self.nodes@.len() ==> #[trigger] self.nodes@[j] == mid.nodes@[j],
                forall|j: int|
                    0 <= j < i ==> {
                        &&& (#[trigger] self.nodes@[j]).wf()
                        &&& self.nodes@[j].sorted()
                        &&& self.nodes@[j].key == mid.nodes@[j].key
                        &&& self.nodes@[j].idx_counts == mid.nodes@[j].idx_counts
                        &&& self.nodes@[j].count() == mid.nodes@[j].count()
                        &&& self.nodes@[j].sorted_from(mid.nodes@[j])
                        &&& forall|p: Seq<Idx::V>| #[trigger] self.nodes@[j].lookup(p) == mid.nodes@[j].lookup(p)
                    },
            decreases self.nodes@.len() - i,
        {
            proof {
                assert(self.nodes@[i as int] == old(self).nodes@[idx[i as int]]);
                assert(decreases_to!(*old(self) => old(self).nodes@[idx[i as int]]));
            }
            self.nodes[i].sort_nodes();
            i += 1;
        }
        proof {
            assert forall|a: int, b: int| 0 <= a < b < self.nodes@.len() implies (#[trigger] self.nodes@[a]).key@
                != (#[trigger] self.nodes@[b]).key@ by {
                assert(mid.nodes@[a].key@ != mid.nodes@[b].key@);
            }
            assert forall|a: int, b: int| 0 <= a < b < self.nodes@.len() implies (#[trigger] self.nodes@[a]).idx_counts
                >= (#[trigger] self.nodes@[b]).idx_counts by {
                assert(mid.nodes@[a].idx_counts >= mid.nodes@[b].idx_counts);
            }
            assert forall|a: int| 0 <= a < self.nodes@.len() implies (#[trigger] self.nodes@[a]).idx_counts
                <= self.idx_counts by {
                assert(mid.nodes@[a].idx_counts <= mid.idx_counts);
            }
            assert(self.wf());
            assert(self.sorted());
            Self::lemma_count_all_pointwise(self.nodes@, mid.nodes@);
            assert(Self::stable_order(self.nodes@, old(self).nodes@, idx)) by {
                assert forall|a: int, b: int|
                    0 <= a < b < self.nodes@.len() && (#[trigger] self.nodes@[a]).idx_counts
                        == (#[trigger] self.nodes@[b]).idx_counts implies idx[a] < idx[b] by {
                    assert(mid.nodes@[a].idx_counts == self.nodes@[a].idx_counts);
                    assert(mid.nodes@[b].idx_counts == self.nodes@[b].idx_counts);
                }
            }
            assert forall|j: int| 0 <= j < self.nodes@.len() implies (#[trigger] self.nodes@[j]).sorted_from(
                old(self).nodes@[idx[j]]) by {
                assert(mid.nodes@[j] == old(self).nodes@[idx[j]]);
            }
            assert(self.sorted_from(*old(self)));
            assert forall|p: Seq<Idx::V>| #[trigger] self.lookup(p) == mid.lookup(p) by {
                if p.len() > 0 {
                    let k = p[0];
                    if mid.has_child(k) {
                        let j = choose|j: int| 0 <= j < mid.nodes@.len() && (#[trigger] mid.nodes@[j]).key@ == k;
                        mid.lemma_child_at(j);
                        self.lemma_child_at(j);
                        assert(self.nodes@[j].lookup(p.drop_first()) == mid.nodes@[j].lookup(p.drop_first()));
                    } else if self.has_child(k) {
                        let j = choose|j: int| 0 <= j < self.nodes@.len() && (#[trigger] self.nodes@[j]).key@ == k;
                        assert(mid.nodes@[j].key@ == k);
                    }
                }
            }
        }
    }

    fn child_index(&self, key: &Idx) -> (r: Option<usize>)
        ensures
            match r {
                Some(i) => i < self.nodes@.len() && self.nodes@[i as int].key@ == key@,
                None => !self.has_child(key@),
            },
    {
        let mut i: usize = 0;
        while i < self.nodes.len()
            invariant
                i <= self.nodes@.len(),
                forall|j: int| 0 <= j < i ==> (#[trigger] self.nodes@[j]).key@ != key@,
            decreases self.nodes@.len() - i,
        {
            if self.nodes[i].key.key_eq(key) {
                return Some(i);
            }
            i += 1;
        }
        None
    }
}

impl<T, Idx: TrieKey> CountedTreeMap<T, Idx> {
    pub closed spec fn has_root(self) -> bool {
        self.head is Some
    }

    pub closed spec fn root_node(self) -> CountedTreeNode<T, Idx> {
        self.head->Some_0
    }

    pub open spec fn wf(self) -> bool {
        self.has_root() && self.root_node().wf()
    }

    /// The map from non-empty key sequences to the values stored there.
    pub open spec fn view(self) -> Map<Seq<Idx::V>, T> {
        Map::new(
            |p: Seq<Idx::V>| p.len() > 0 && self.root_node().lookup(p) is Some,
            |p: Seq<Idx::V>| self.root_node().lookup(p)->Some_0,
        )
    }

    /// A map with a fresh root and no entries.
    pub fn new() -> (r: Self)
        ensures
            r.wf(),
            r.root_node().idx_counts == 0,
            r.root_node().nodes@.len() == 0,
            r.root_node().value is None,
            r.view() == Map::<Seq<Idx::V>, T>::empty(),
    {
        let r = CountedTreeMap {
            head: Some(
                CountedTreeNode {
                    key: Idx::default(),
                    value: None,
                    built_sub_nodes: 0,
                    idx_counts: 0,
                    visited: false,
                    list_offset: -1,
                    nodes: Vec::new(),
                },
            ),
        };
        proof {
            assert forall|p: Seq<Idx::V>| !#[trigger] r.view().contains_key(p) by {
                r.root_node().lemma_leaf_lookup(p);
            }
            assert(r.view() =~= Map::<Seq<Idx::V>, T>::empty());
        }
        r
    }

    /// Stores `value` under `index`, overwriting an earlier value. An empty
    /// key sequence is ignored.
    pub fn insert(&mut self, index: &[Idx], value: T)
        requires
            old(self).wf(),
            index@.len() > 0 ==> old(self).root_node().idx_counts < i32::MAX,
        ensures
            final(self).wf(),
            index@.len() == 0 ==> *final(self) == *old(self),
            index@.len() > 0 ==> forall|p: Seq<Idx::V>|
                #[trigger] final(self).root_node().has_path(p) == (old(self).root_node().has_path(p) || is_prefix(
                    p,
                    path_of(index@),
                )),
            index@.len() > 0 ==> forall|p: Seq<Idx::V>|
                #[trigger] final(self).root_node().has_path(p) ==> final(self).root_node().weight_at(p) == (if old(
                    self,
                ).root_node().has_path(p) {
                    old(self).root_node().weight_at(p)
                } else {
                    0
                }) + if is_strict_prefix(p, path_of(index@)) {
                    1int
                } else {
                    0int
                },
            index@.len() > 0 ==> forall|p: Seq<Idx::V>|
                old(self).root_node().has_path(p) ==> #[trigger] final(self).root_node().keys_at(p) == if is_strict_prefix(
                    p,
                    path_of(index@),
                ) && !old(self).root_node().has_path(path_of(index@).subrange(0, p.len() as int + 1)) {
                    old(self).root_node().keys_at(p).push(path_of(index@)[p.len() as int])
                } else {
                    old(self).root_node().keys_at(p)
                },
            final(self).root_node().idx_counts == old(self).root_node().idx_counts + if index@.len()
                > 0 {
                1int
            } else {
                0int
            },
            final(self).view() == if index@.len() == 0 {
                old(self).view()
            } else {
                old(self).view().insert(path_of(index@), value)
            },
    {
        if index.len() == 0 {
            return ;
        }
        match &mut self.head {
            Some(h) => h.insert(index, value),
            None => {},
        }
        proof {
            let path = path_of(index@);
            assert(path.len() > 0);
            assert(self.view() =~= old(self).view().insert(path, value));
        }
    }

    /// Gives up the map for its root.
    pub fn root(self) -> (r: CountedTreeNode<T, Idx>)
        requires
            self.has_root(),
        ensures
            r == self.root_node(),
    {
        self.head.unwrap()
    }

    /// The root, for changing in place.
    pub fn root_ref_mut(&mut self) -> (r: &mut CountedTreeNode<T, Idx>)
        requires
            old(self).has_root(),
        ensures
            *r == old(self).root_node(),
            final(self).has_root(),
            final(self).root_node() == *final(r),
    {
        self.head.as_mut().unwrap()
    }

    /// The root.
    pub fn root_ref(&self) -> (r: &CountedTreeNode<T, Idx>)
        requires
            self.has_root(),
        ensures
            *r == self.root_node(),
    {
        self.head.as_ref().unwrap()
    }
}

impl<T, Idx: TrieKey> Default for CountedTreeMap<T, Idx> {
    /// A map without a root; it holds nothing until a root is given.
    fn default() -> (r: Self)
        ensures
            !r.has_root(),
    {
        CountedTreeMap { head: None }
    }
}

} // verus!

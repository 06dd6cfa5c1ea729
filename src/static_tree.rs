//! The compiled, read-only tree: fixed-size records in one arena, each
//! pointing at its block of children by byte offset.
use vstd::layout::size_of;
use vstd::prelude::*;

use crate::dynamic_array::{lemma_slot_offset, DynamicArray};
use crate::key::{found, lemma_path_of_drop_first, path_of, TrieKey};

verus! {

/// One compiled node. `list_head` is the byte offset of the first of its
/// `list_length` children, which stand side by side; it is -1 for a node
/// without children.
#[derive(Debug)]
pub struct TreeNode<T, Idx: TrieKey> {
    pub key: Idx,
    pub value: Option<T>,
    pub list_length: i32,
    pub list_head: i32,
}

/// A compiled tree: the synthetic root's record stands at offset 0.
pub struct StaticTree<T, Idx: TrieKey> {
    pool: DynamicArray<TreeNode<T, Idx>>,
}

/// The record written in slot `s`.
pub open spec fn rec_at<T, Idx: TrieKey>(slots: Seq<Option<TreeNode<T, Idx>>>, s: int) -> TreeNode<T, Idx> {
    slots[s]->Some_0
}

/// The slot where the children of `r` begin.
pub open spec fn block_start<T, Idx: TrieKey>(r: TreeNode<T, Idx>, unit: int) -> int {
    r.list_head as int / unit
}

/// The record in slot `s` is written, and its children block lies after it
/// and inside the arena.
pub open spec fn record_ok<T, Idx: TrieKey>(slots: Seq<Option<TreeNode<T, Idx>>>, unit: int, s: int) -> bool {
    let r = rec_at(slots, s);
    &&& slots[s] is Some
    &&& 0 <= r.list_length
    &&& r.list_length > 0 ==> {
        &&& r.list_head >= 0
        &&& r.list_head as int % unit == 0
        &&& s < block_start(r, unit)
        &&& block_start(r, unit) + r.list_length <= slots.len()
    }
    &&& s != 0 ==> (r.list_head == -1 <==> r.list_length == 0)
}

/// No two records share a child slot.
pub open spec fn blocks_disjoint<T, Idx: TrieKey>(slots: Seq<Option<TreeNode<T, Idx>>>, unit: int) -> bool {
    forall|s1: int, s2: int|
        0 <= s1 < slots.len() && 0 <= s2 < slots.len() && s1 != s2 && rec_at(slots, s1).list_length > 0
            && rec_at(slots, s2).list_length > 0 ==> {
            ||| block_start(#[trigger] rec_at(slots, s1), unit) + rec_at(slots, s1).list_length
                <= block_start(rec_at(slots, s2), unit)
            ||| block_start(#[trigger] rec_at(slots, s2), unit) + rec_at(slots, s2).list_length
                <= block_start(rec_at(slots, s1), unit)
        }
}

/// The layout that a compiled arena keeps: every slot written, the root's
/// children right after it, each block after its parent's record and inside
/// the arena, blocks pairwise disjoint, and every offset an `i32`.
pub open spec fn layout_ok<T, Idx: TrieKey>(slots: Seq<Option<TreeNode<T, Idx>>>, unit: int) -> bool {
    &&& unit > 0
    &&& slots.len() > 0
    &&& slots.len() * unit <= i32::MAX
    &&& rec_at(slots, 0).list_head == unit
    &&& forall|s: int| 0 <= s < slots.len() ==> #[trigger] record_ok(slots, unit, s)
    &&& blocks_disjoint(slots, unit)
}

/// The first slot, from the `j`-th child of the record in slot `s` on, whose
/// key is `k`.
pub open spec fn scan<T, Idx: TrieKey>(
    slots: Seq<Option<TreeNode<T, Idx>>>,
    unit: int,
    s: int,
    k: Idx::V,
    j: int,
) -> Option<int>
    decreases rec_at(slots, s).list_length - j,
{
    let r = rec_at(slots, s);
    if j < 0 || j >= r.list_length {
        None
    } else if rec_at(slots, block_start(r, unit) + j).key@ == k {
        Some(block_start(r, unit) + j)
    } else {
        scan(slots, unit, s, k, j + 1)
    }
}

/// The value reached from the record in slot `s` along `path`.
pub open spec fn arena_lookup<T, Idx: TrieKey>(
    slots: Seq<Option<TreeNode<T, Idx>>>,
    unit: int,
    s: int,
    path: Seq<Idx::V>,
) -> Option<T>
    decreases path.len(),
{
    if path.len() == 0 {
        rec_at(slots, s).value
    } else {
        match scan(slots, unit, s, path[0], 0) {
            Some(c) => arena_lookup(slots, unit, c, path.drop_first()),
            None => None,
        }
    }
}

impl<T, Idx: TrieKey> StaticTree<T, Idx> {
    pub closed spec fn arena(self) -> DynamicArray<TreeNode<T, Idx>> {
        self.pool
    }

    pub open spec fn wf(self) -> bool {
        &&& self.arena().wf()
        &&& layout_ok(self.arena()@, self.arena().unit() as int)
    }

    /// The value stored at `path`.
    pub open spec fn lookup(self, path: Seq<Idx::V>) -> Option<T> {
        arena_lookup(self.arena()@, self.arena().unit() as int, 0, path)
    }

    /// The map from non-empty key sequences to the values stored there.
    pub open spec fn view(self) -> Map<Seq<Idx::V>, T> {
        Map::new(
            |p: Seq<Idx::V>| p.len() > 0 && self.lookup(p) is Some,
            |p: Seq<Idx::V>| self.lookup(p)->Some_0,
        )
    }

    /// A tree over a fresh arena of `size` bytes, no record written yet.
    pub fn new(size: usize) -> (r: Self)
        requires
            size_of::<TreeNode<T, Idx>>() > 0,
            size as nat % size_of::<TreeNode<T, Idx>>() == 0,
        ensures
            r.arena().wf(),
            r.arena().byte_size() == size,
            r.arena()@.len() == size as nat / size_of::<TreeNode<T, Idx>>(),
            forall|i: int| 0 <= i < r.arena()@.len() ==> r.arena()@[i] is None,
    {
        StaticTree { pool: DynamicArray::new(size) }
    }

    /// The arena, for reading.
    pub fn raw(&self) -> (r: &DynamicArray<TreeNode<T, Idx>>)
        ensures
            *r == self.arena(),
    {
        &self.pool
    }

    /// The arena, for writing while the tree is being built.
    pub(crate) fn pool_mut(&mut self) -> (r: &mut DynamicArray<TreeNode<T, Idx>>)
        ensures
            *r == old(self).arena(),
            final(self).arena() == *final(r),
    {
        &mut self.pool
    }

    /// The value stored under `index`. The key sequence must not be empty.
    pub fn find(&self, index: &[Idx]) -> (r: Option<&T>)
        requires
            self.wf(),
            index@.len() > 0,
        ensures
            found(r, self.lookup(path_of(index@))),
    {
        let ghost slots = self.pool@;
        let ghost unit = self.pool.unit() as int;
        let ghost path = path_of(index@);
        let rs = self.pool.record_size();
        proof {
            assert(record_ok(slots, unit, 0));
            lemma_slot_offset(unit, 0);
            assert(path.subrange(0, path.len() as int) =~= path);
        }
        let mut current_node: &TreeNode<T, Idx> = self.pool.get(0);
        let ghost mut cur: int = 0;
        let mut current_offset: usize = 0;
        let mut branch_idx: i32 = 0;
        let mut keychain_idx: usize = 0;
        loop
            invariant
                slots == self.pool@,
                unit == self.pool.unit(),
                rs == unit,
                self.wf(),
                path == path_of(index@),
                path.len() == index@.len(),
                keychain_idx < index@.len(),
                0 <= cur < slots.len(),
                *current_node == rec_at(slots, cur),
                0 <= branch_idx <= current_node.list_length,
                current_offset == branch_idx * unit,
                arena_lookup(slots, unit, cur, path.subrange(keychain_idx as int, path.len() as int))
                    == arena_lookup(slots, unit, 0, path),
                scan(slots, unit, cur, path[keychain_idx as int], 0) == scan(
                    slots,
                    unit,
                    cur,
                    path[keychain_idx as int],
                    branch_idx as int,
                ),
            decreases index@.len() - keychain_idx, current_node.list_length - branch_idx,
        {
            let ghost q = path.subrange(keychain_idx as int, path.len() as int);
            proof {
                assert(record_ok(slots, unit, cur));
                assert(q[0] == path[keychain_idx as int]);
            }
            if branch_idx == current_node.list_length {
                return None;
            }
            let ghost h = block_start(*current_node, unit);
            let ghost c = h + branch_idx;
            proof {
                vstd::arithmetic::div_mod::lemma_fundamental_div_mod(current_node.list_head as int, unit);
                assert(current_node.list_head as int == unit * h);
                assert(c < slots.len());
                assert(c * unit == unit * h + branch_idx * unit) by (nonlinear_arith)
                    requires c == h + branch_idx;
                assert(c * unit < slots.len() * unit) by (nonlinear_arith)
                    requires c < slots.len(), unit > 0;
                lemma_slot_offset(unit, c);
                assert(record_ok(slots, unit, c));
            }
            let test_node: &TreeNode<T, Idx> = self.pool.get(current_node.list_head as usize + current_offset);
            if !test_node.key.key_eq(&index[keychain_idx]) {
                proof {
                    assert(index@[keychain_idx as int]@ == path[keychain_idx as int]);
                    assert((branch_idx + 1) * unit == branch_idx * unit + unit) by (nonlinear_arith);
                    assert((branch_idx + 1) * unit <= slots.len() * unit) by (nonlinear_arith)
                        requires branch_idx + 1 <= slots.len(), unit > 0;
                }
                current_offset += rs;
                branch_idx += 1;
                continue ;
            }
            proof {
                assert(index@[keychain_idx as int]@ == path[keychain_idx as int]);
                assert(scan(slots, unit, cur, q[0], branch_idx as int) == Some(c));
                assert(q.drop_first() =~= path.subrange(keychain_idx + 1, path.len() as int));
                assert(arena_lookup(slots, unit, cur, q) == arena_lookup(slots, unit, c, q.drop_first()));
            }
            keychain_idx += 1;
            if keychain_idx == index.len() {
                proof {
                    assert(path.subrange(keychain_idx as int, path.len() as int).len() == 0);
                }
                return test_node.value.as_ref();
            }
            if test_node.list_head == -1 {
                proof {
                    assert(c != 0);
                    assert(rec_at(slots, c).list_length == 0);
                    let q2 = path.subrange(keychain_idx as int, path.len() as int);
                    assert(q2.len() > 0);
                    assert(scan(slots, unit, c, q2[0], 0) is None);
                    assert(arena_lookup(slots, unit, c, q2) is None);
                }
                return None;
            }
            current_node = test_node;
            proof {
                cur = c;
            }
            branch_idx = 0;
            current_offset = 0;
        }
    }
}

} // verus!

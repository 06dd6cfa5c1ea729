//! Builds a weighted trie and compiles it into a [`StaticTree`].
use vstd::layout::size_of;
use std::collections::VecDeque;
use vstd::prelude::*;

use crate::counted_tree_map::{CountedTreeMap, CountedTreeNode};
use crate::dynamic_array::{lemma_slot_offset, DynamicArray};
use crate::key::{path_of, TrieKey};
use crate::static_tree::{arena_lookup, block_start, layout_ok, rec_at, record_ok, blocks_disjoint, scan, StaticTree, TreeNode};

verus! {

/// Collects entries, then compiles them into a [`StaticTree`].
pub struct StaticTreePlanner<T, Idx: TrieKey> {
    map: CountedTreeMap<T, Idx>,
}

/// The record in slot `s` and the records below it encode the subtree `g`:
/// same key, value and child count, and the children encoded side by side in
/// the block that the record points at.
pub open spec fn encodes<T, Idx: TrieKey>(
    slots: Seq<Option<TreeNode<T, Idx>>>,
    unit: int,
    s: int,
    g: CountedTreeNode<T, Idx>,
) -> bool
    decreases g,
{
    let r = rec_at(slots, s);
    &&& 0 <= s < slots.len()
    &&& slots[s] is Some
    &&& r.key == g.key
    &&& r.value == g.value
    &&& r.list_length == g.nodes@.len()
    &&& if g.nodes@.len() == 0 {
        r.list_head == -1
    } else {
        &&& r.list_head >= 0
        &&& r.list_head as int % unit == 0
        &&& forall|i: int|
            0 <= i < g.nodes@.len() ==> encodes(slots, unit, block_start(r, unit) + i, #[trigger] g.nodes@[i])
    }
}

/// The children of `g` stand encoded in the block of the record in slot `s`.
pub open spec fn block_encodes<T, Idx: TrieKey>(
    slots: Seq<Option<TreeNode<T, Idx>>>,
    unit: int,
    s: int,
    g: CountedTreeNode<T, Idx>,
) -> bool {
    let r = rec_at(slots, s);
    &&& r.list_length == g.nodes@.len()
    &&& forall|i: int|
        0 <= i < g.nodes@.len() ==> encodes(slots, unit, block_start(r, unit) + i, #[trigger] g.nodes@[i])
}

proof fn lemma_scan<T, Idx: TrieKey>(
    slots: Seq<Option<TreeNode<T, Idx>>>,
    unit: int,
    s: int,
    g: CountedTreeNode<T, Idx>,
    k: Idx::V,
    j: int,
)
    requires
        block_encodes(slots, unit, s, g),
        0 <= j <= g.nodes@.len(),
    ensures
        scan(slots, unit, s, k, j) is Some <==> exists|i: int|
            j <= i < g.nodes@.len() && (#[trigger] g.nodes@[i]).key@ == k,
        scan(slots, unit, s, k, j) is Some ==> {
            let i = scan(slots, unit, s, k, j)->Some_0 - block_start(rec_at(slots, s), unit);
            &&& j <= i < g.nodes@.len()
            &&& g.nodes@[i].key@ == k
        },
    decreases g.nodes@.len() - j,
{
    let r = rec_at(slots, s);
    if j < g.nodes@.len() {
        let c = block_start(r, unit) + j;
        assert(encodes(slots, unit, c, g.nodes@[j]));
        if rec_at(slots, c).key@ != k {
            lemma_scan(slots, unit, s, g, k, j + 1);
            if exists|i: int| j <= i < g.nodes@.len() && (#[trigger] g.nodes@[i]).key@ == k {
                let i = choose|i: int| j <= i < g.nodes@.len() && (#[trigger] g.nodes@[i]).key@ == k;
                assert(i != j);
                assert(j + 1 <= i);
            }
        }
    }
}

/// Below a record whose block encodes the children of `g`, the arena
/// answers every non-empty path as `g` does.
proof fn lemma_block_lookup<T, Idx: TrieKey>(
    slots: Seq<Option<TreeNode<T, Idx>>>,
    unit: int,
    s: int,
    g: CountedTreeNode<T, Idx>,
    p: Seq<Idx::V>,
)
    requires
        block_encodes(slots, unit, s, g),
        g.wf(),
        p.len() > 0,
    ensures
        arena_lookup(slots, unit, s, p) == g.lookup(p),
    decreases p.len(),
{
    let k = p[0];
    lemma_scan(slots, unit, s, g, k, 0);
    match scan(slots, unit, s, k, 0) {
        Some(c) => {
            let i = c - block_start(rec_at(slots, s), unit);
            g.lemma_child_at(i);
            let gi = g.nodes@[i];
            assert(encodes(slots, unit, c, gi));
            assert(gi.wf());
            assert(block_encodes(slots, unit, c, gi));
            assert(arena_lookup(slots, unit, s, p) == arena_lookup(slots, unit, c, p.drop_first()));
            assert(g.lookup(p) == gi.lookup(p.drop_first()));
            if p.len() > 1 {
                lemma_block_lookup(slots, unit, c, gi, p.drop_first());
            } else {
                assert(p.drop_first().len() == 0);
            }
        },
        None => {
            if g.has_child(k) {
                let i = choose|i: int| 0 <= i < g.nodes@.len() && (#[trigger] g.nodes@[i]).key@ == k;
                assert(false);
            }
        },
    }
}

/// `a` is `b` but for its value, which may have been moved out.
pub open spec fn same_shape<T, Idx: TrieKey>(a: CountedTreeNode<T, Idx>, b: CountedTreeNode<T, Idx>) -> bool {
    &&& a.key == b.key
    &&& a.idx_counts == b.idx_counts
    &&& a.built_sub_nodes == b.built_sub_nodes
    &&& a.visited == b.visited
    &&& a.list_offset == b.list_offset
    &&& a.nodes@ == b.nodes@
}

/// The record that a parent writes for its child `g`: key, value and child
/// count, its own children not placed yet.
pub open spec fn fresh_record<T, Idx: TrieKey>(g: CountedTreeNode<T, Idx>) -> TreeNode<T, Idx> {
    TreeNode { key: g.key, value: g.value, list_length: g.nodes@.len() as i32, list_head: -1i32 }
}

/// Slot `t` holds the key, value and child count of `g`.
pub open spec fn holds<T, Idx: TrieKey>(slots: Seq<Option<TreeNode<T, Idx>>>, t: int, g: CountedTreeNode<T, Idx>) -> bool {
    &&& 0 <= t < slots.len()
    &&& slots[t] is Some
    &&& rec_at(slots, t).key == g.key
    &&& rec_at(slots, t).value == g.value
    &&& rec_at(slots, t).list_length == g.nodes@.len()
}

/// The record in slot `s` has its children block placed.
pub open spec fn is_set<T, Idx: TrieKey>(slots: Seq<Option<TreeNode<T, Idx>>>, s: int) -> bool {
    s == 0 || rec_at(slots, s).list_head != -1
}

/// The record in slot `s`, written before the cursor, is placed as a
/// compiled record must be, its block (if placed) before the cursor too.
pub open spec fn placed<T, Idx: TrieKey>(slots: Seq<Option<TreeNode<T, Idx>>>, unit: int, s: int, cursor: int) -> bool {
    let r = rec_at(slots, s);
    &&& slots[s] is Some
    &&& 0 <= r.list_length
    &&& is_set(slots, s) ==> {
        &&& r.list_head >= 0
        &&& r.list_head as int % unit == 0
        &&& s < block_start(r, unit)
        &&& block_start(r, unit) + r.list_length <= cursor
    }
    &&& s != 0 && r.list_length == 0 ==> r.list_head == -1
}

/// What holds of the arena while the compiler fills it: slots before the
/// cursor are written and placed, the others empty; placed blocks are
/// disjoint; every slot after the root lies in the block of an earlier,
/// placed record (its owner).
#[verifier::opaque]
pub open spec fn arena_inv<T, Idx: TrieKey>(
    slots: Seq<Option<TreeNode<T, Idx>>>,
    unit: int,
    n: int,
    cursor: int,
    owner: Seq<int>,
) -> bool {
    &&& unit > 0
    &&& slots.len() == n
    &&& n * unit <= i32::MAX
    &&& 1 <= cursor <= n
    &&& forall|s: int| 0 <= s < n ==> (#[trigger] slots[s] is Some <==> s < cursor)
    &&& rec_at(slots, 0).list_head == unit
    &&& rec_at(slots, 0).value is None
    &&& forall|s: int| 0 <= s < cursor ==> #[trigger] placed(slots, unit, s, cursor)
    &&& forall|s1: int, s2: int|
        0 <= s1 < cursor && 0 <= s2 < cursor && s1 != s2 && is_set(slots, s1) && is_set(slots, s2)
            && rec_at(slots, s1).list_length > 0 && rec_at(slots, s2).list_length > 0 ==> {
            ||| block_start(#[trigger] rec_at(slots, s1), unit) + rec_at(slots, s1).list_length
                <= block_start(rec_at(slots, s2), unit)
            ||| block_start(#[trigger] rec_at(slots, s2), unit) + rec_at(slots, s2).list_length
                <= block_start(rec_at(slots, s1), unit)
        }
    &&& owner.len() == n
    &&& forall|s: int| 1 <= s < cursor ==> {
        let o = #[trigger] owner[s];
        &&& 0 <= o < s
        &&& is_set(slots, o)
        &&& block_start(rec_at(slots, o), unit) <= s < block_start(rec_at(slots, o), unit)
            + rec_at(slots, o).list_length
    }
}

/// How many children of a frame are fully laid out: all before the next
/// one to take, but for the one being laid out above it on the stack.
pub open spec fn done<T, Idx: TrieKey>(f: CountedTreeNode<T, Idx>, top: bool) -> int {
    if top {
        f.built_sub_nodes as int
    } else {
        f.built_sub_nodes - 1
    }
}

/// The stack node `f` stands for the subtree `g` whose record is in slot `s`.
#[verifier::opaque]
pub open spec fn frame_ok<T, Idx: TrieKey>(
    f: CountedTreeNode<T, Idx>,
    g: CountedTreeNode<T, Idx>,
    s: int,
    slots: Seq<Option<TreeNode<T, Idx>>>,
    unit: int,
    cursor: int,
    top: bool,
) -> bool {
    let k = g.nodes@.len() as int;
    let r = rec_at(slots, s);
    &&& 0 <= s < cursor
    &&& r.list_length == k
    &&& f.key == g.key
    &&& f.idx_counts == g.idx_counts
    &&& if f.visited {
        let b = f.built_sub_nodes as int;
        let h = f.list_offset as int / unit;
        &&& 0 <= done(f, top)
        &&& b <= k
        &&& f.list_offset >= 0
        &&& f.list_offset as int % unit == 0
        &&& s < h
        &&& h + k <= cursor
        &&& (k > 0 || s == 0) ==> r.list_head == f.list_offset
        &&& (k == 0 && s != 0) ==> r.list_head == -1
        &&& f.nodes@.len() == k - b
        &&& forall|j: int| 0 <= j < k - b ==> same_shape(#[trigger] f.nodes@[j], g.nodes@[b + j])
        &&& forall|i: int| 0 <= i < k ==> holds(slots, h + i, #[trigger] g.nodes@[i])
        &&& forall|i: int| b <= i < k ==> #[trigger] rec_at(slots, h + i).list_head == -1
        &&& forall|i: int| 0 <= i < done(f, top) ==> encodes(slots, unit, h + i, #[trigger] g.nodes@[i])
    } else {
        &&& top
        &&& f.nodes@ == g.nodes@
        &&& f.built_sub_nodes == 0
        &&& f.list_offset == -1
        &&& s > 0
        &&& r.list_head == -1
    }
}

/// What the stack holds: the path from the root to the node being laid
/// out, each frame with its subtree and record slot, each subtree the child
/// of the one below it that was taken last.
#[verifier::opaque]
pub open spec fn stack_inv<T, Idx: TrieKey>(
    stack: Seq<CountedTreeNode<T, Idx>>,
    frames: Seq<(CountedTreeNode<T, Idx>, int)>,
    slots: Seq<Option<TreeNode<T, Idx>>>,
    unit: int,
    cursor: int,
    root: CountedTreeNode<T, Idx>,
) -> bool {
    let m = stack.len() as int;
    &&& frames.len() == m
    &&& m > 0 ==> frames[0] == (root, 0int)
    &&& m == 0 ==> block_encodes(slots, unit, 0, root)
    &&& forall|d: int|
        0 <= d < m ==> (#[trigger] frames[d]).0.wf() && frame_ok(
            stack[d],
            frames[d].0,
            frames[d].1,
            slots,
            unit,
            cursor,
            d == m - 1,
        )
    &&& forall|d: int|
        0 <= d < m - 1 ==> {
            &&& (#[trigger] stack[d]).visited
            &&& frames[d + 1].0 == frames[d].0.nodes@[stack[d].built_sub_nodes - 1]
            &&& frames[d + 1].1 == stack[d].list_offset as int / unit + stack[d].built_sub_nodes - 1
        }
}

/// Slots that a frame's subtree still needs beyond those already written.
pub open spec fn frame_demand<T, Idx: TrieKey>(f: CountedTreeNode<T, Idx>, g: CountedTreeNode<T, Idx>) -> int {
    if f.visited {
        CountedTreeNode::<T, Idx>::count_all(g.nodes@.subrange(f.built_sub_nodes as int, g.nodes@.len() as int))
            - (g.nodes@.len() - f.built_sub_nodes)
    } else {
        g.count() - 1
    }
}

/// Slots that the first `m` frames still need.
pub open spec fn total_demand<T, Idx: TrieKey>(
    stack: Seq<CountedTreeNode<T, Idx>>,
    frames: Seq<(CountedTreeNode<T, Idx>, int)>,
    m: int,
) -> int
    decreases m,
{
    if m <= 0 {
        0
    } else {
        total_demand(stack, frames, m - 1) + frame_demand(stack[m - 1], frames[m - 1].0)
    }
}

/// Nodes not yet pushed on the stack: the remaining children of its first
/// `m` frames, with their subtrees.
pub open spec fn unpushed<T, Idx: TrieKey>(stack: Seq<CountedTreeNode<T, Idx>>, m: int) -> nat
    decreases m,
{
    if m <= 0 {
        0
    } else {
        unpushed(stack, m - 1) + CountedTreeNode::<T, Idx>::count_all(stack[m - 1].nodes@)
    }
}

/// Slot changes that keep what is encoded: a written slot stays written
/// with the same key, value and child count, and changes at all only where
/// its record had children but no block yet.
pub open spec fn grows<T, Idx: TrieKey>(sl1: Seq<Option<TreeNode<T, Idx>>>, sl2: Seq<Option<TreeNode<T, Idx>>>) -> bool {
    &&& sl1.len() == sl2.len()
    &&& forall|t: int|
        0 <= t < sl1.len() && sl1[t] is Some ==> {
            &&& (#[trigger] sl2[t]) is Some
            &&& rec_at(sl2, t).key == rec_at(sl1, t).key
            &&& rec_at(sl2, t).value == rec_at(sl1, t).value
            &&& rec_at(sl2, t).list_length == rec_at(sl1, t).list_length
            &&& (sl2[t] == sl1[t] || (t != 0 && rec_at(sl1, t).list_head == -1 && rec_at(sl1, t).list_length > 0))
        }
}

proof fn lemma_encodes_stable<T, Idx: TrieKey>(
    sl1: Seq<Option<TreeNode<T, Idx>>>,
    sl2: Seq<Option<TreeNode<T, Idx>>>,
    unit: int,
    s: int,
    g: CountedTreeNode<T, Idx>,
)
    requires
        encodes(sl1, unit, s, g),
        grows(sl1, sl2),
    ensures
        encodes(sl2, unit, s, g),
    decreases g,
{
    assert(sl2[s] == sl1[s]);
    if g.nodes@.len() > 0 {
        let r = rec_at(sl1, s);
        assert forall|i: int| 0 <= i < g.nodes@.len() implies encodes(sl2, unit, block_start(r, unit) + i, #[trigger] g.nodes@[i]) by {
            lemma_encodes_stable(sl1, sl2, unit, block_start(r, unit) + i, g.nodes@[i]);
        }
    }
}

/// A child of `g` has fewer children than `g` has nodes.
proof fn lemma_fanout<T, Idx: TrieKey>(g: CountedTreeNode<T, Idx>, i: int)
    requires
        0 <= i < g.nodes@.len(),
    ensures
        g.nodes@[i].nodes@.len() < g.count(),
        g.nodes@.len() < g.count(),
{
    lemma_count_all_ge_elem(g.nodes@, i);
    CountedTreeNode::<T, Idx>::lemma_count_all_at_least_len(g.nodes@[i].nodes@);
    CountedTreeNode::<T, Idx>::lemma_count_all_at_least_len(g.nodes@);
}

proof fn lemma_count_all_ge_elem<T, Idx: TrieKey>(s: Seq<CountedTreeNode<T, Idx>>, i: int)
    requires
        0 <= i < s.len(),
    ensures
        CountedTreeNode::<T, Idx>::count_all(s) >= s[i].count(),
    decreases i,
{
    if i > 0 {
        lemma_count_all_ge_elem(s.drop_first(), i - 1);
    }
}

/// Writes the records of the children of `node` side by side from byte `at`
/// on: each child's key, its value (moved out of the child) and its child
/// count, with no children offset yet.
fn write_children<T, Idx: TrieKey>(
    pool: &mut DynamicArray<TreeNode<T, Idx>>,
    node: &mut CountedTreeNode<T, Idx>,
    at: i32,
)
    requires
        old(pool).wf(),
        at >= 0,
        at as int % (old(pool).unit() as int) == 0,
        at as int / (old(pool).unit() as int) + old(node).nodes@.len() <= old(pool)@.len(),
        old(pool)@.len() * old(pool).unit() <= i32::MAX,
        forall|i: int|
            0 <= i < old(node).nodes@.len() ==> (#[trigger] old(node).nodes@[i]).nodes@.len() <= i32::MAX,
    ensures
        final(pool).wf(),
        final(pool).unit() == old(pool).unit(),
        final(pool)@.len() == old(pool)@.len(),
        forall|t: int|
            0 <= t < old(pool)@.len() && !(at as int / (old(pool).unit() as int) <= t < at as int / (
            old(pool).unit() as int) + old(node).nodes@.len()) ==> #[trigger] final(pool)@[t] == old(pool)@[t],
        forall|i: int|
            0 <= i < old(node).nodes@.len() ==> #[trigger] final(pool)@[at as int / (old(pool).unit() as int) + i]
                == Some(fresh_record(old(node).nodes@[i])),
        final(node).key == old(node).key,
        final(node).idx_counts == old(node).idx_counts,
        final(node).built_sub_nodes == old(node).built_sub_nodes,
        final(node).visited == old(node).visited,
        final(node).list_offset == old(node).list_offset,
        final(node).nodes@.len() == old(node).nodes@.len(),
        forall|i: int| 0 <= i < old(node).nodes@.len() ==> same_shape(#[trigger] final(node).nodes@[i], old(node).nodes@[i]),
{
    let ghost unit = pool.unit() as int;
    let ghost a = at as int / unit;
    let ghost pool0 = pool@;
    let ghost node0 = *node;
    let rs = pool.record_size();
    proof {
        vstd::arithmetic::div_mod::lemma_fundamental_div_mod(at as int, unit);
        assert(at as int == a * unit) by (nonlinear_arith)
            requires at as int == unit * a + 0;
        assert(a >= 0) by (nonlinear_arith)
            requires at as int == a * unit, at >= 0, unit > 0;
    }
    let mut offset: i32 = at;
    let mut i: usize = 0;
    while i < node.nodes.len()
        invariant
            pool.wf(),
            pool.unit() == unit,
            rs == unit,
            pool@.len() == pool0.len(),
            pool0.len() * unit <= i32::MAX,
            a + node0.nodes@.len() <= pool0.len(),
            a >= 0,
            i <= node.nodes@.len(),
            offset == (a + i) * unit,
            node.key == node0.key,
            node.idx_counts == node0.idx_counts,
            node.built_sub_nodes == node0.built_sub_nodes,
            node.visited == node0.visited,
            node.list_offset == node0.list_offset,
            node.nodes@.len() == node0.nodes@.len(),
            forall|j: int| 0 <= j < node0.nodes@.len() ==> same_shape(#[trigger] node.nodes@[j], node0.nodes@[j]),
            forall|j: int| i <= j < node0.nodes@.len() ==> #[trigger] node.nodes@[j] == node0.nodes@[j],
            forall|t: int| 0 <= t < pool0.len() && !(a <= t < a + i) ==> #[trigger] pool@[t] == pool0[t],
            forall|j: int| 0 <= j < i ==> #[trigger] pool@[a + j] == Some(fresh_record(node0.nodes@[j])),
            forall|j: int| 0 <= j < node0.nodes@.len() ==> (#[trigger] node0.nodes@[j]).nodes@.len() <= i32::MAX,
        decreases node.nodes@.len() - i,
    {
        let ghost c0 = node.nodes@[i as int];
        let len = node.nodes[i].nodes.len() as i32;
        let key = node.nodes[i].key.duplicate();
        let value = node.nodes[i].value.take();
        let record = TreeNode { key, value, list_length: len, list_head: -1 };
        proof {
            assert(record == fresh_record(node0.nodes@[i as int]));
            lemma_slot_offset(unit, a + i);
            assert((a + i) * unit < pool0.len() * unit) by (nonlinear_arith)
                requires a + i < pool0.len(), unit > 0;
            assert((a + i + 1) * unit <= pool0.len() * unit) by (nonlinear_arith)
                requires a + i + 1 <= pool0.len(), unit > 0;
            assert((a + i + 1) * unit == (a + i) * unit + unit) by (nonlinear_arith);
            assert(0 <= (a + i) * unit) by (nonlinear_arith)
                requires a + i >= 0, unit > 0;
            assert(unit <= pool0.len() * unit) by (nonlinear_arith)
                requires pool0.len() >= 1, unit > 0;
            assert(pool.reaches(offset as int));
            assert(pool.slot(offset as int) == a + i);
        }
        let ghost pre = pool@;
        pool.put(offset as usize, record);
        proof {
            assert forall|j: int| 0 <= j < i + 1 implies #[trigger] pool@[a + j] == Some(
                fresh_record(node0.nodes@[j])) by {
                if j < i {
                    assert(pool@[a + j] == pre[a + j]);
                }
            }
        }
        offset = offset + rs as i32;
        i += 1;
    }
}

/// A frame never needs fewer than no slots.
proof fn lemma_frame_demand_nonneg<T, Idx: TrieKey>(
    f: CountedTreeNode<T, Idx>,
    g: CountedTreeNode<T, Idx>,
    s: int,
    sl: Seq<Option<TreeNode<T, Idx>>>,
    unit: int,
    c: int,
    top: bool,
)
    requires
        frame_ok(f, g, s, sl, unit, c, top),
    ensures
        frame_demand(f, g) >= 0,
{
    reveal(frame_ok);
    if f.visited {
        let sub = g.nodes@.subrange(f.built_sub_nodes as int, g.nodes@.len() as int);
        CountedTreeNode::<T, Idx>::lemma_count_all_at_least_len(sub);
    } else {
        assert(g.count() >= 1);
    }
}

proof fn lemma_demand_nonneg<T, Idx: TrieKey>(
    st: Seq<CountedTreeNode<T, Idx>>,
    fr: Seq<(CountedTreeNode<T, Idx>, int)>,
    m: int,
)
    requires
        forall|d: int| 0 <= d < m ==> frame_demand(#[trigger] st[d], fr[d].0) >= 0,
    ensures
        total_demand(st, fr, m) >= 0,
    decreases m,
{
    if m > 0 {
        lemma_demand_nonneg(st, fr, m - 1);
    }
}

/// The total over the first `m` frames depends on those frames alone.
proof fn lemma_demand_prefix<T, Idx: TrieKey>(
    st1: Seq<CountedTreeNode<T, Idx>>,
    fr1: Seq<(CountedTreeNode<T, Idx>, int)>,
    st2: Seq<CountedTreeNode<T, Idx>>,
    fr2: Seq<(CountedTreeNode<T, Idx>, int)>,
    m: int,
)
    requires
        forall|d: int| 0 <= d < m ==> #[trigger] st1[d] == st2[d] && fr1[d].0 == fr2[d].0,
    ensures
        total_demand(st1, fr1, m) == total_demand(st2, fr2, m),
        unpushed(st1, m) == unpushed(st2, m),
    decreases m,
{
    if m > 0 {
        lemma_demand_prefix(st1, fr1, st2, fr2, m - 1);
        assert(st1[m - 1] == st2[m - 1]);
    }
}

/// Every frame of the stack needs no fewer than no slots.
proof fn lemma_frames_nonneg<T, Idx: TrieKey>(
    st: Seq<CountedTreeNode<T, Idx>>,
    fr: Seq<(CountedTreeNode<T, Idx>, int)>,
    sl: Seq<Option<TreeNode<T, Idx>>>,
    unit: int,
    c: int,
    root: CountedTreeNode<T, Idx>,
    m: int,
)
    requires
        stack_inv(st, fr, sl, unit, c, root),
        0 <= m <= st.len(),
    ensures
        total_demand(st, fr, m) >= 0,
{
    reveal(stack_inv);
    assert forall|d: int| 0 <= d < m implies frame_demand(#[trigger] st[d], fr[d].0) >= 0 by {
        assert(fr[d].0.wf() && frame_ok(st[d], fr[d].0, fr[d].1, sl, unit, c, d == st.len() - 1));
        lemma_frame_demand_nonneg(st[d], fr[d].0, fr[d].1, sl, unit, c, d == st.len() - 1);
    }
    lemma_demand_nonneg(st, fr, m);
}

/// The state right after the root's record and its children's records are
/// written.
proof fn lemma_start<T, Idx: TrieKey>(
    sl: Seq<Option<TreeNode<T, Idx>>>,
    unit: int,
    n: int,
    g: CountedTreeNode<T, Idx>,
    f: CountedTreeNode<T, Idx>,
)
    requires
        unit > 0,
        g.wf(),
        g.count() == n,
        sl.len() == n,
        n * unit <= i32::MAX,
        sl[0] is Some,
        rec_at(sl, 0).list_length == g.nodes@.len(),
        rec_at(sl, 0).list_head == unit,
        rec_at(sl, 0).value is None,
        forall|i: int| 0 <= i < g.nodes@.len() ==> #[trigger] sl[1 + i] == Some(fresh_record(g.nodes@[i])),
        forall|t: int| 1 + g.nodes@.len() <= t < n ==> #[trigger] sl[t] is None,
        f.visited,
        f.built_sub_nodes == 0,
        f.list_offset == unit,
        f.key == g.key,
        f.idx_counts == g.idx_counts,
        f.nodes@.len() == g.nodes@.len(),
        forall|j: int| 0 <= j < g.nodes@.len() ==> same_shape(#[trigger] f.nodes@[j], g.nodes@[j]),
    ensures
        1 + g.nodes@.len() <= n,
        arena_inv(sl, unit, n, 1 + g.nodes@.len() as int, Seq::new(n as nat, |s: int| 0int)),
        stack_inv(seq![f], seq![(g, 0int)], sl, unit, 1 + g.nodes@.len() as int, g),
        n - (1 + g.nodes@.len()) == total_demand(seq![f], seq![(g, 0int)], 1),
{
    reveal(arena_inv);
    reveal(stack_inv);
    let k = g.nodes@.len() as int;
    let c = 1 + k;
    let ow = Seq::new(n as nat, |s: int| 0int);
    CountedTreeNode::<T, Idx>::lemma_count_all_at_least_len(g.nodes@);
    lemma_slot_offset(unit, 1);
    assert(block_start(rec_at(sl, 0), unit) == 1);
    assert(n <= n * unit) by (nonlinear_arith)
        requires n >= 1, unit > 0;
    assert forall|i: int| 0 <= i < k implies (#[trigger] g.nodes@[i]).nodes@.len() < n by {
        lemma_fanout(g, i);
    }
    assert forall|s: int| 0 <= s < n implies (#[trigger] sl[s] is Some <==> s < c) by {
        if 1 <= s < c {
            assert(sl[1 + (s - 1)] == Some(fresh_record(g.nodes@[s - 1])));
        }
    }
    assert forall|s: int| 0 <= s < c implies #[trigger] placed(sl, unit, s, c) by {
        if s > 0 {
            assert(sl[1 + (s - 1)] == Some(fresh_record(g.nodes@[s - 1])));
        }
    }
    assert forall|s: int| 1 <= s < c implies {
        let o = #[trigger] ow[s];
        &&& 0 <= o < s
        &&& is_set(sl, o)
        &&& block_start(rec_at(sl, o), unit) <= s < block_start(rec_at(sl, o), unit) + rec_at(sl, o).list_length
    } by {
        assert(ow[s] == 0);
    }
    assert forall|s1: int, s2: int|
        0 <= s1 < c && 0 <= s2 < c && s1 != s2 && is_set(sl, s1) && is_set(sl, s2)
            && rec_at(sl, s1).list_length > 0 && rec_at(sl, s2).list_length > 0 implies {
            ||| block_start(#[trigger] rec_at(sl, s1), unit) + rec_at(sl, s1).list_length
                <= block_start(rec_at(sl, s2), unit)
            ||| block_start(#[trigger] rec_at(sl, s2), unit) + rec_at(sl, s2).list_length
                <= block_start(rec_at(sl, s1), unit)
        } by {
        if s1 > 0 {
            assert(sl[1 + (s1 - 1)] == Some(fresh_record(g.nodes@[s1 - 1])));
        }
        if s2 > 0 {
            assert(sl[1 + (s2 - 1)] == Some(fresh_record(g.nodes@[s2 - 1])));
        }
    }
    assert(arena_inv(sl, unit, n, c, ow));
    assert forall|i: int| 0 <= i < k implies holds(sl, 1 + i, #[trigger] g.nodes@[i]) by {
        assert(sl[1 + i] == Some(fresh_record(g.nodes@[i])));
    }
    assert forall|i: int| 0 <= i < k implies #[trigger] rec_at(sl, 1 + i).list_head == -1 by {
        assert(sl[1 + i] == Some(fresh_record(g.nodes@[i])));
    }
    assert forall|j: int| 0 <= j < k - 0 implies same_shape(#[trigger] f.nodes@[j], g.nodes@[0 + j]) by {
    }
    assert(frame_ok(f, g, 0, sl, unit, c, true)) by {
        reveal(frame_ok);
    }
    let st = seq![f];
    let fr = seq![(g, 0int)];
    assert(stack_inv(st, fr, sl, unit, c, g));
    assert(g.nodes@.subrange(0, k) =~= g.nodes@);
    assert(total_demand(st, fr, 0) == 0);
}

/// Before a node is expanded, its children fit before the arena's end and
/// each has fewer children than the arena has slots.
proof fn lemma_room<T, Idx: TrieKey>(
    st: Seq<CountedTreeNode<T, Idx>>,
    fr: Seq<(CountedTreeNode<T, Idx>, int)>,
    sl: Seq<Option<TreeNode<T, Idx>>>,
    unit: int,
    n: int,
    c: int,
    ow: Seq<int>,
    root: CountedTreeNode<T, Idx>,
)
    requires
        arena_inv(sl, unit, n, c, ow),
        stack_inv(st, fr, sl, unit, c, root),
        n - c == total_demand(st, fr, st.len() as int),
        st.len() > 0,
        !st[st.len() - 1].visited,
    ensures
        c + fr[st.len() - 1].0.nodes@.len() <= n,
        0 <= fr[st.len() - 1].1 < c,
        c <= n,
        st[st.len() - 1].nodes@ == fr[st.len() - 1].0.nodes@,
        st[st.len() - 1].built_sub_nodes == 0,
        sl[fr[st.len() - 1].1] is Some,
        forall|i: int|
            0 <= i < fr[st.len() - 1].0.nodes@.len() ==> (#[trigger] fr[st.len() - 1].0.nodes@[i]).nodes@.len() < n,
{
    reveal(arena_inv);
    reveal(stack_inv);
    let m = st.len() - 1;
    let g = fr[m].0;
    let sx = fr[m].1;
    assert(fr[m].0.wf() && frame_ok(st[m], g, sx, sl, unit, c, m == st.len() - 1));
    reveal(frame_ok);
    lemma_frames_nonneg(st, fr, sl, unit, c, root, m);
    CountedTreeNode::<T, Idx>::lemma_count_all_at_least_len(g.nodes@);
    assert(sl[sx] is Some);
    assert forall|i: int| 0 <= i < g.nodes@.len() implies (#[trigger] g.nodes@[i]).nodes@.len() < n by {
        lemma_fanout(g, i);
    }
}

/// Reserving the block at the cursor for the record in slot `sx` and
/// writing fresh child records there keeps the arena invariant.
proof fn lemma_expand_arena<T, Idx: TrieKey>(
    sl0: Seq<Option<TreeNode<T, Idx>>>,
    sl1: Seq<Option<TreeNode<T, Idx>>>,
    unit: int,
    n: int,
    c: int,
    k: int,
    sx: int,
    ow: Seq<int>,
) -> (ow1: Seq<int>)
    requires
        arena_inv(sl0, unit, n, c, ow),
        0 < sx < c,
        rec_at(sl0, sx).list_head == -1,
        rec_at(sl0, sx).list_length == k,
        0 <= k,
        c + k <= n,
        sl1.len() == sl0.len(),
        forall|t: int| 0 <= t < n && t != sx && !(c <= t < c + k) ==> #[trigger] sl1[t] == sl0[t],
        forall|i: int|
            0 <= i < k ==> {
                &&& (#[trigger] sl1[c + i]) is Some
                &&& rec_at(sl1, c + i).list_head == -1
                &&& rec_at(sl1, c + i).list_length >= 0
            },
        k == 0 ==> sl1[sx] == sl0[sx],
        k > 0 ==> {
            let r0 = rec_at(sl0, sx);
            let r1 = rec_at(sl1, sx);
            &&& sl1[sx] is Some
            &&& r1.key == r0.key
            &&& r1.value == r0.value
            &&& r1.list_length == r0.list_length
            &&& r1.list_head == c * unit
        },
    ensures
        arena_inv(sl1, unit, n, c + k, ow1),
        grows(sl0, sl1),
{
    reveal(arena_inv);
    let c1 = c + k;
    let ow1 = Seq::new(n as nat, |t: int| if c <= t < c1 { sx } else { ow[t] });
    lemma_slot_offset(unit, c);
    assert(0 <= c * unit) by (nonlinear_arith)
        requires c >= 0, unit > 0;
    assert(c * unit <= n * unit) by (nonlinear_arith)
        requires c <= n, unit > 0;
    assert forall|t: int| 0 <= t < n implies (#[trigger] sl1[t] is Some <==> t < c1) by {
        if c <= t < c1 {
            assert(sl1[c + (t - c)] is Some);
        } else if t != sx {
            assert(sl0[t] is Some <==> t < c);
        }
    }
    assert(sl1[0] == sl0[0]);
    assert forall|t: int| 0 <= t < c1 implies #[trigger] placed(sl1, unit, t, c1) by {
        if c <= t < c1 {
            assert(sl1[c + (t - c)] is Some);
        } else if t == sx {
            assert(placed(sl0, unit, sx, c));
        } else {
            assert(placed(sl0, unit, t, c));
        }
    }
    assert forall|s1: int, s2: int|
        0 <= s1 < c1 && 0 <= s2 < c1 && s1 != s2 && is_set(sl1, s1) && is_set(sl1, s2)
            && rec_at(sl1, s1).list_length > 0 && rec_at(sl1, s2).list_length > 0 implies {
            ||| block_start(#[trigger] rec_at(sl1, s1), unit) + rec_at(sl1, s1).list_length
                <= block_start(rec_at(sl1, s2), unit)
            ||| block_start(#[trigger] rec_at(sl1, s2), unit) + rec_at(sl1, s2).list_length
                <= block_start(rec_at(sl1, s1), unit)
        } by {
        if c <= s1 < c1 {
            assert(sl1[c + (s1 - c)] is Some);
        } else if c <= s2 < c1 {
            assert(sl1[c + (s2 - c)] is Some);
        } else if s1 == sx {
            assert(sl1[s2] == sl0[s2]);
            assert(placed(sl0, unit, s2, c));
            assert(block_start(rec_at(sl1, sx), unit) == c);
        } else if s2 == sx {
            assert(sl1[s1] == sl0[s1]);
            assert(placed(sl0, unit, s1, c));
            assert(block_start(rec_at(sl1, sx), unit) == c);
        } else {
            assert(sl1[s1] == sl0[s1]);
            assert(sl1[s2] == sl0[s2]);
            assert(rec_at(sl0, s1) == rec_at(sl1, s1));
            assert(rec_at(sl0, s2) == rec_at(sl1, s2));
        }
    }
    assert forall|t: int| 1 <= t < c1 implies {
        let o = #[trigger] ow1[t];
        &&& 0 <= o < t
        &&& is_set(sl1, o)
        &&& block_start(rec_at(sl1, o), unit) <= t < block_start(rec_at(sl1, o), unit) + rec_at(sl1, o).list_length
    } by {
        if c <= t < c1 {
            assert(ow1[t] == sx);
        } else {
            let o = ow[t];
            assert(ow1[t] == o);
            assert(is_set(sl0, o));
            assert(o != sx);
            if o != 0 {
                assert(sl1[o] == sl0[o]);
            }
        }
    }
    assert(arena_inv(sl1, unit, n, c1, ow1));
    assert forall|t: int| 0 <= t < sl0.len() && sl0[t] is Some implies {
        &&& (#[trigger] sl1[t]) is Some
        &&& rec_at(sl1, t).key == rec_at(sl0, t).key
        &&& rec_at(sl1, t).value == rec_at(sl0, t).value
        &&& rec_at(sl1, t).list_length == rec_at(sl0, t).list_length
        &&& (sl1[t] == sl0[t] || (t != 0 && rec_at(sl0, t).list_head == -1 && rec_at(sl0, t).list_length > 0))
    } by {
        assert(t < c);
    }
    ow1
}

/// The slots of the stack's frames increase from the bottom up.
proof fn lemma_stack_slots_increase<T, Idx: TrieKey>(
    st: Seq<CountedTreeNode<T, Idx>>,
    fr: Seq<(CountedTreeNode<T, Idx>, int)>,
    sl: Seq<Option<TreeNode<T, Idx>>>,
    unit: int,
    c: int,
    root: CountedTreeNode<T, Idx>,
    d1: int,
    d2: int,
)
    requires
        stack_inv(st, fr, sl, unit, c, root),
        0 <= d1 < d2 < st.len(),
    ensures
        fr[d1].1 < fr[d2].1,
    decreases d2 - d1,
{
    reveal(stack_inv);
    let e = d2 - 1;
    assert(fr[e].0.wf() && frame_ok(st[e], fr[e].0, fr[e].1, sl, unit, c, e == st.len() - 1));
    assert(st[e].visited);
    lemma_frame_child_slot(st[e], fr[e].0, fr[e].1, sl, unit, c);
    if d1 < e {
        lemma_stack_slots_increase(st, fr, sl, unit, c, root, d1, e);
    }
}

/// A lower frame stays valid when the arena grows past slots that it does
/// not leave pending.
proof fn lemma_frame_stable<T, Idx: TrieKey>(
    f: CountedTreeNode<T, Idx>,
    g: CountedTreeNode<T, Idx>,
    s: int,
    sl0: Seq<Option<TreeNode<T, Idx>>>,
    sl1: Seq<Option<TreeNode<T, Idx>>>,
    unit: int,
    c: int,
    c1: int,
    sx: int,
)
    requires
        frame_ok(f, g, s, sl0, unit, c, false),
        grows(sl0, sl1),
        c <= c1,
        s != sx,
        forall|t: int| 0 <= t < c && t != sx ==> #[trigger] sl1[t] == sl0[t],
        f.visited ==> !(f.list_offset as int / unit + f.built_sub_nodes <= sx < f.list_offset as int / unit
            + g.nodes@.len()),
    ensures
        frame_ok(f, g, s, sl1, unit, c1, false),
{
    reveal(frame_ok);
    assert(sl1[s] == sl0[s]);
    if f.visited {
        let h = f.list_offset as int / unit;
        let b = f.built_sub_nodes as int;
        let k = g.nodes@.len() as int;
        assert forall|i: int| 0 <= i < k implies holds(sl1, h + i, #[trigger] g.nodes@[i]) by {
            assert(holds(sl0, h + i, g.nodes@[i]));
        }
        assert forall|i: int| b <= i < k implies #[trigger] rec_at(sl1, h + i).list_head == -1 by {
            assert(rec_at(sl0, h + i).list_head == -1);
            assert(holds(sl0, h + i, g.nodes@[i]));
            assert(sl1[h + i] == sl0[h + i]);
        }
        assert forall|i: int| 0 <= i < done(f, false) implies encodes(sl1, unit, h + i, #[trigger] g.nodes@[i]) by {
            lemma_encodes_stable(sl0, sl1, unit, h + i, g.nodes@[i]);
        }
    }
}

/// A lower frame's record has its block placed, and the child it is laying
/// out lies in that block.
proof fn lemma_frame_block<T, Idx: TrieKey>(
    f: CountedTreeNode<T, Idx>,
    g: CountedTreeNode<T, Idx>,
    s: int,
    sl: Seq<Option<TreeNode<T, Idx>>>,
    unit: int,
    c: int,
)
    requires
        frame_ok(f, g, s, sl, unit, c, false),
        f.visited,
    ensures
        ({
            let h = f.list_offset as int / unit;
            let b = f.built_sub_nodes as int;
            &&& 0 <= s < c
            &&& is_set(sl, s)
            &&& rec_at(sl, s).list_length == g.nodes@.len()
            &&& g.nodes@.len() > 0
            &&& block_start(rec_at(sl, s), unit) == h
            &&& 1 <= b <= g.nodes@.len()
        }),
{
    reveal(frame_ok);
}

/// Expanding the top node: its record gets the block at the cursor, its
/// children's records are written there.
proof fn lemma_expand<T, Idx: TrieKey>(
    st: Seq<CountedTreeNode<T, Idx>>,
    fr: Seq<(CountedTreeNode<T, Idx>, int)>,
    sl0: Seq<Option<TreeNode<T, Idx>>>,
    sl1: Seq<Option<TreeNode<T, Idx>>>,
    unit: int,
    n: int,
    c: int,
    ow: Seq<int>,
    root: CountedTreeNode<T, Idx>,
    x1: CountedTreeNode<T, Idx>,
) -> (ow1: Seq<int>)
    requires
        arena_inv(sl0, unit, n, c, ow),
        stack_inv(st, fr, sl0, unit, c, root),
        n - c == total_demand(st, fr, st.len() as int),
        st.len() > 0,
        !st[st.len() - 1].visited,
        c + fr[st.len() - 1].0.nodes@.len() <= n,
        sl1.len() == sl0.len(),
        forall|t: int|
            0 <= t < n && t != fr[st.len() - 1].1 && !(c <= t < c + fr[st.len() - 1].0.nodes@.len())
                ==> #[trigger] sl1[t] == sl0[t],
        forall|i: int|
            0 <= i < fr[st.len() - 1].0.nodes@.len() ==> #[trigger] sl1[c + i] == Some(
                fresh_record(fr[st.len() - 1].0.nodes@[i]),
            ),
        fr[st.len() - 1].0.nodes@.len() == 0 ==> sl1[fr[st.len() - 1].1] == sl0[fr[st.len() - 1].1],
        fr[st.len() - 1].0.nodes@.len() > 0 ==> {
            let r0 = rec_at(sl0, fr[st.len() - 1].1);
            let r1 = rec_at(sl1, fr[st.len() - 1].1);
            &&& sl1[fr[st.len() - 1].1] is Some
            &&& r1.key == r0.key
            &&& r1.value == r0.value
            &&& r1.list_length == r0.list_length
            &&& r1.list_head == c * unit
        },
        x1.visited,
        x1.built_sub_nodes == 0,
        x1.list_offset == c * unit,
        x1.key == st[st.len() - 1].key,
        x1.idx_counts == st[st.len() - 1].idx_counts,
        x1.nodes@.len() == fr[st.len() - 1].0.nodes@.len(),
        forall|j: int|
            0 <= j < x1.nodes@.len() ==> same_shape(#[trigger] x1.nodes@[j], fr[st.len() - 1].0.nodes@[j]),
    ensures
        arena_inv(sl1, unit, n, c + fr[st.len() - 1].0.nodes@.len(), ow1),
        stack_inv(st.update(st.len() - 1, x1), fr, sl1, unit, c + fr[st.len() - 1].0.nodes@.len(), root),
        n - (c + fr[st.len() - 1].0.nodes@.len()) == total_demand(st.update(st.len() - 1, x1), fr, st.len() as int),
        unpushed(st.update(st.len() - 1, x1), st.len() as int) == unpushed(st, st.len() as int),
{
    let m = st.len() - 1;
    let x0 = st[m];
    let g = fr[m].0;
    let sx = fr[m].1;
    let k = g.nodes@.len() as int;
    lemma_room(st, fr, sl0, unit, n, c, ow, root);
    assert(fr[m].0.wf() && frame_ok(x0, g, sx, sl0, unit, c, true)) by {
        reveal(stack_inv);
    }
    assert(sx > 0 && rec_at(sl0, sx).list_head == -1 && rec_at(sl0, sx).list_length == k && x0.key == g.key
        && x0.idx_counts == g.idx_counts) by {
        reveal(frame_ok);
    }
    assert(n * unit <= i32::MAX && unit > 0 && sl0.len() == n) by {
        reveal(arena_inv);
    }
    assert(n <= i32::MAX) by (nonlinear_arith)
        requires n * unit <= i32::MAX, unit > 0, n >= 0;
    assert forall|i: int| 0 <= i < k implies {
        &&& (#[trigger] sl1[c + i]) is Some
        &&& rec_at(sl1, c + i).list_head == -1
        &&& rec_at(sl1, c + i).list_length >= 0
    } by {
        assert(sl1[c + i] == Some(fresh_record(g.nodes@[i])));
        assert(g.nodes@[i].nodes@.len() < n);
    }
    let ow1 = lemma_expand_arena(sl0, sl1, unit, n, c, k, sx, ow);
    let c1 = c + k;
    let st2 = st.update(m, x1);
    assert(frame_ok(x1, g, sx, sl1, unit, c1, true)) by {
        reveal(frame_ok);
        lemma_slot_offset(unit, c);
        assert(0 <= c * unit) by (nonlinear_arith)
            requires c >= 0, unit > 0;
        assert forall|i: int| 0 <= i < k implies holds(sl1, c + i, #[trigger] g.nodes@[i]) by {
            assert(sl1[c + i] == Some(fresh_record(g.nodes@[i])));
            assert(g.nodes@[i].nodes@.len() < n);
        }
        assert forall|i: int| 0 <= i < k implies #[trigger] rec_at(sl1, c + i).list_head == -1 by {
            assert(sl1[c + i] == Some(fresh_record(g.nodes@[i])));
        }
        assert forall|j: int| 0 <= j < k - 0 implies same_shape(#[trigger] x1.nodes@[j], g.nodes@[0 + j]) by {
        }
    }
    assert forall|d: int| 0 <= d < m implies (#[trigger] fr[d]).0.wf() && frame_ok(
        st2[d],
        fr[d].0,
        fr[d].1,
        sl1,
        unit,
        c1,
        false,
    ) by {
        reveal(stack_inv);
        assert(fr[d].0.wf() && frame_ok(st[d], fr[d].0, fr[d].1, sl0, unit, c, d == st.len() - 1));
        assert(st[d].visited);
        assert(st2[d] == st[d]);
        lemma_stack_slots_increase(st, fr, sl0, unit, c, root, d, m);
        let p = m - 1;
        assert(fr[p].0.wf() && frame_ok(st[p], fr[p].0, fr[p].1, sl0, unit, c, p == st.len() - 1));
        assert(st[p].visited);
        lemma_frame_block(st[p], fr[p].0, fr[p].1, sl0, unit, c);
        let hp = st[p].list_offset as int / unit;
        assert(sx == hp + st[p].built_sub_nodes - 1);
        if d < p {
            lemma_frame_block(st[d], fr[d].0, fr[d].1, sl0, unit, c);
            lemma_stack_slots_increase(st, fr, sl0, unit, c, root, d, p);
            assert(!(st[d].list_offset as int / unit <= sx < st[d].list_offset as int / unit + fr[d].0.nodes@.len())) by {
                reveal(arena_inv);
                assert(rec_at(sl0, fr[d].1).list_length > 0);
                assert(rec_at(sl0, fr[p].1).list_length > 0);
            }
        }
        assert forall|t: int| 0 <= t < c && t != sx implies #[trigger] sl1[t] == sl0[t] by {
        }
        lemma_frame_stable(st[d], fr[d].0, fr[d].1, sl0, sl1, unit, c, c1, sx);
    }
    assert(stack_inv(st2, fr, sl1, unit, c1, root)) by {
        reveal(stack_inv);
        assert forall|d: int| 0 <= d < st2.len() implies (#[trigger] fr[d]).0.wf() && frame_ok(
            st2[d],
            fr[d].0,
            fr[d].1,
            sl1,
            unit,
            c1,
            d == st2.len() - 1,
        ) by {
            if d == m {
                assert(st2[d] == x1);
            }
        }
        assert forall|d: int| 0 <= d < st2.len() - 1 implies {
            &&& (#[trigger] st2[d]).visited
            &&& fr[d + 1].0 == fr[d].0.nodes@[st2[d].built_sub_nodes - 1]
            &&& fr[d + 1].1 == st2[d].list_offset as int / unit + st2[d].built_sub_nodes - 1
        } by {
            assert(st2[d] == st[d]);
            assert(st[d].visited);
        }
    }
    lemma_demand_prefix(st, fr, st2, fr, m);
    assert(g.nodes@.subrange(0, k) =~= g.nodes@);
    assert(st2[m] == x1);
    CountedTreeNode::<T, Idx>::lemma_count_all_pointwise(x1.nodes@, g.nodes@);
    assert(x0.nodes@ == g.nodes@) by {
        reveal(frame_ok);
    }
    ow1
}

/// Where the top node's next child stands.
proof fn lemma_top_bounds<T, Idx: TrieKey>(
    st: Seq<CountedTreeNode<T, Idx>>,
    fr: Seq<(CountedTreeNode<T, Idx>, int)>,
    sl: Seq<Option<TreeNode<T, Idx>>>,
    unit: int,
    n: int,
    c: int,
    ow: Seq<int>,
    root: CountedTreeNode<T, Idx>,
)
    requires
        arena_inv(sl, unit, n, c, ow),
        stack_inv(st, fr, sl, unit, c, root),
        st.len() > 0,
        st[st.len() - 1].visited,
        st[st.len() - 1].nodes@.len() > 0,
    ensures
        ({
            let top = st[st.len() - 1];
            let h = top.list_offset as int / unit;
            let b = top.built_sub_nodes as int;
            &&& top.list_offset as int == h * unit
            &&& 0 <= h
            &&& 0 <= b
            &&& b < fr[st.len() - 1].0.nodes@.len()
            &&& h + b < n
        }),
{
    reveal(arena_inv);
    reveal(stack_inv);
    let m = st.len() - 1;
    let f = st[m];
    assert(fr[m].0.wf() && frame_ok(f, fr[m].0, fr[m].1, sl, unit, c, m == st.len() - 1));
    reveal(frame_ok);
    vstd::arithmetic::div_mod::lemma_fundamental_div_mod(f.list_offset as int, unit);
    let h = f.list_offset as int / unit;
    assert(f.list_offset as int == unit * h);
    assert(unit * h == h * unit) by (nonlinear_arith);
}

/// Taking the next child of a top frame: the frame keeps its shape one
/// child further on, and the child becomes a fresh top frame.
proof fn lemma_frame_step<T, Idx: TrieKey>(
    f: CountedTreeNode<T, Idx>,
    f1: CountedTreeNode<T, Idx>,
    g: CountedTreeNode<T, Idx>,
    s: int,
    sl: Seq<Option<TreeNode<T, Idx>>>,
    unit: int,
    c: int,
)
    requires
        frame_ok(f, g, s, sl, unit, c, true),
        g.wf(),
        f.visited,
        f.nodes@.len() > 0,
        f1.nodes@ == f.nodes@.drop_first(),
        f1.built_sub_nodes == f.built_sub_nodes + 1,
        f1.key == f.key,
        f1.idx_counts == f.idx_counts,
        f1.visited == f.visited,
        f1.list_offset == f.list_offset,
    ensures
        frame_ok(f1, g, s, sl, unit, c, false),
        ({
            let b = f.built_sub_nodes as int;
            let h = f.list_offset as int / unit;
            &&& 0 <= b < g.nodes@.len()
            &&& g.nodes@[b].wf()
            &&& !f.nodes@[0].visited
            &&& frame_ok(f.nodes@[0], g.nodes@[b], h + b, sl, unit, c, true)
        }),
{
    reveal(frame_ok);
    let b = f.built_sub_nodes as int;
    let h = f.list_offset as int / unit;
    let k = g.nodes@.len() as int;
    let child = f.nodes@[0];
    assert(same_shape(f.nodes@[0], g.nodes@[b + 0]));
    assert(g.nodes@[b].wf());
    assert(holds(sl, h + b, g.nodes@[b]));
    assert(rec_at(sl, h + b).list_head == -1);
    assert forall|j: int| 0 <= j < k - (b + 1) implies same_shape(#[trigger] f1.nodes@[j], g.nodes@[(b + 1) + j]) by {
        assert(f1.nodes@[j] == f.nodes@[j + 1]);
        assert(same_shape(f.nodes@[j + 1], g.nodes@[b + (j + 1)]));
    }
    assert forall|i: int| b + 1 <= i < k implies #[trigger] rec_at(sl, h + i).list_head == -1 by {
        assert(rec_at(sl, h + i).list_head == -1);
    }
    assert(frame_ok(f1, g, s, sl, unit, c, false));
    assert(frame_ok(child, g.nodes@[b], h + b, sl, unit, c, true));
}

/// Taking the next child of the top node and pushing it.
proof fn lemma_descend<T, Idx: TrieKey>(
    st: Seq<CountedTreeNode<T, Idx>>,
    fr: Seq<(CountedTreeNode<T, Idx>, int)>,
    sl: Seq<Option<TreeNode<T, Idx>>>,
    unit: int,
    n: int,
    c: int,
    ow: Seq<int>,
    root: CountedTreeNode<T, Idx>,
    f1: CountedTreeNode<T, Idx>,
    child: CountedTreeNode<T, Idx>,
)
    requires
        arena_inv(sl, unit, n, c, ow),
        stack_inv(st, fr, sl, unit, c, root),
        n - c == total_demand(st, fr, st.len() as int),
        st.len() > 0,
        st[st.len() - 1].visited,
        st[st.len() - 1].nodes@.len() > 0,
        child == st[st.len() - 1].nodes@[0],
        f1.nodes@ == st[st.len() - 1].nodes@.drop_first(),
        f1.built_sub_nodes == st[st.len() - 1].built_sub_nodes + 1,
        f1.key == st[st.len() - 1].key,
        f1.idx_counts == st[st.len() - 1].idx_counts,
        f1.visited == st[st.len() - 1].visited,
        f1.list_offset == st[st.len() - 1].list_offset,
    ensures
        ({
            let top = st[st.len() - 1];
            let g = fr[st.len() - 1].0;
            let h = top.list_offset as int / unit;
            let b = top.built_sub_nodes as int;
            &&& top.list_offset as int == h * unit
            &&& 0 <= h
            &&& 0 <= b
            &&& h + b < n
            &&& !child.visited
            &&& stack_inv(st.update(st.len() - 1, f1).push(child), fr.push((g.nodes@[b], h + b)), sl, unit, c, root)
            &&& n - c == total_demand(st.update(st.len() - 1, f1).push(child), fr.push((g.nodes@[b], h + b)), st.len() as int + 1)
            &&& unpushed(st.update(st.len() - 1, f1).push(child), st.len() as int + 1) + 1 == unpushed(st, st.len() as int)
        }),
{
    lemma_top_bounds(st, fr, sl, unit, n, c, ow, root);
    reveal(stack_inv);
    let m = st.len() - 1;
    let f = st[m];
    let g = fr[m].0;
    let s = fr[m].1;
    let b = f.built_sub_nodes as int;
    let h = f.list_offset as int / unit;
    let k = g.nodes@.len() as int;
    assert(fr[m].0.wf() && frame_ok(f, g, s, sl, unit, c, m == st.len() - 1));
    lemma_frame_step(f, f1, g, s, sl, unit, c);
    let st2 = st.update(m, f1).push(child);
    let fr2 = fr.push((g.nodes@[b], h + b));
    assert forall|d: int| 0 <= d < st2.len() implies (#[trigger] fr2[d]).0.wf() && frame_ok(
        st2[d],
        fr2[d].0,
        fr2[d].1,
        sl,
        unit,
        c,
        d == st2.len() - 1,
    ) by {
        if d < m {
            assert(fr2[d] == fr[d]);
            assert(st2[d] == st[d]);
            assert(fr[d].0.wf() && frame_ok(st[d], fr[d].0, fr[d].1, sl, unit, c, d == st.len() - 1));
        } else if d == m {
            assert(fr2[d] == fr[d]);
            assert(st2[d] == f1);
        } else {
            assert(st2[d] == child);
        }
    }
    assert forall|d: int| 0 <= d < st2.len() - 1 implies {
        &&& (#[trigger] st2[d]).visited
        &&& fr2[d + 1].0 == fr2[d].0.nodes@[st2[d].built_sub_nodes - 1]
        &&& fr2[d + 1].1 == st2[d].list_offset as int / unit + st2[d].built_sub_nodes - 1
    } by {
        if d < m {
            assert(st2[d] == st[d]);
            assert(st[d].visited);
            assert(fr2[d + 1] == fr[d + 1]);
        } else {
            assert(st2[d] == f1);
        }
    }
    assert(stack_inv(st2, fr2, sl, unit, c, root));
    lemma_demand_prefix(st, fr, st2, fr2, m);
    let sub = g.nodes@.subrange(b, k);
    assert(sub[0] == g.nodes@[b]);
    assert(sub.drop_first() =~= g.nodes@.subrange(b + 1, k));
    assert(CountedTreeNode::<T, Idx>::count_all(sub) == g.nodes@[b].count() + CountedTreeNode::<T, Idx>::count_all(sub.drop_first()));
    assert(st2[m] == f1);
    assert(st2[m + 1] == child);
    assert(fr2[m].0 == g);
    assert(fr2[m + 1].0 == g.nodes@[b]);
    assert(total_demand(st2, fr2, m + 1) == total_demand(st2, fr2, m) + frame_demand(st2[m], fr2[m].0));
    assert(total_demand(st2, fr2, m + 2) == total_demand(st2, fr2, m + 1) + frame_demand(st2[m + 1], fr2[m + 1].0));
    assert(total_demand(st2, fr2, m + 2) == total_demand(st2, fr2, m) + frame_demand(f1, g) + frame_demand(child, g.nodes@[b]));
    assert(CountedTreeNode::<T, Idx>::count_all(f.nodes@) == f.nodes@[0].count() + CountedTreeNode::<T, Idx>::count_all(f.nodes@.drop_first()));
    assert(unpushed(st2, m + 1) == unpushed(st2, m) + CountedTreeNode::<T, Idx>::count_all(st2[m].nodes@));
    assert(unpushed(st2, m + 2) == unpushed(st2, m + 1) + CountedTreeNode::<T, Idx>::count_all(st2[m + 1].nodes@));
    assert(child.count() == 1 + CountedTreeNode::<T, Idx>::count_all(child.nodes@));
}

/// A frame whose children are all laid out: its subtree is encoded from
/// its record on (for the root, from its block on); it needs no more slots.
proof fn lemma_frame_done<T, Idx: TrieKey>(
    f: CountedTreeNode<T, Idx>,
    g: CountedTreeNode<T, Idx>,
    s: int,
    sl: Seq<Option<TreeNode<T, Idx>>>,
    unit: int,
    c: int,
)
    requires
        frame_ok(f, g, s, sl, unit, c, true),
        f.visited,
        f.nodes@.len() == 0,
    ensures
        frame_demand(f, g) == 0,
        s == 0 ==> block_encodes(sl, unit, 0, g),
        s != 0 && holds(sl, s, g) ==> encodes(sl, unit, s, g),
{
    reveal(frame_ok);
    let k = g.nodes@.len() as int;
    let h = f.list_offset as int / unit;
    assert(f.built_sub_nodes == k);
    assert(g.nodes@.subrange(k, k).len() == 0);
    assert(CountedTreeNode::<T, Idx>::count_all(g.nodes@.subrange(k, k)) == 0);
    if k > 0 || s == 0 {
        assert(block_start(rec_at(sl, s), unit) == h);
    }
}

/// Where the child that a lower frame is laying out stands.
proof fn lemma_frame_child_slot<T, Idx: TrieKey>(
    f: CountedTreeNode<T, Idx>,
    g: CountedTreeNode<T, Idx>,
    s: int,
    sl: Seq<Option<TreeNode<T, Idx>>>,
    unit: int,
    c: int,
)
    requires
        frame_ok(f, g, s, sl, unit, c, false),
        f.visited,
    ensures
        1 <= f.built_sub_nodes <= g.nodes@.len(),
        0 <= s < f.list_offset as int / unit,
        holds(sl, f.list_offset as int / unit + f.built_sub_nodes - 1, g.nodes@[f.built_sub_nodes - 1]),
{
    reveal(frame_ok);
}

/// A lower frame becomes the top once the child it was laying out is
/// encoded.
proof fn lemma_frame_promote<T, Idx: TrieKey>(
    f: CountedTreeNode<T, Idx>,
    g: CountedTreeNode<T, Idx>,
    s: int,
    sl: Seq<Option<TreeNode<T, Idx>>>,
    unit: int,
    c: int,
)
    requires
        frame_ok(f, g, s, sl, unit, c, false),
        f.visited,
        encodes(sl, unit, f.list_offset as int / unit + f.built_sub_nodes - 1, g.nodes@[f.built_sub_nodes - 1]),
    ensures
        frame_ok(f, g, s, sl, unit, c, true),
{
    reveal(frame_ok);
    let h = f.list_offset as int / unit;
    let b = f.built_sub_nodes as int;
    assert forall|i: int| 0 <= i < done(f, true) implies encodes(sl, unit, h + i, #[trigger] g.nodes@[i]) by {
        if i == b - 1 {
        }
    }
}

/// Dropping the top node once all its children are laid out.
#[verifier::rlimit(100)]
proof fn lemma_finish<T, Idx: TrieKey>(
    st: Seq<CountedTreeNode<T, Idx>>,
    fr: Seq<(CountedTreeNode<T, Idx>, int)>,
    sl: Seq<Option<TreeNode<T, Idx>>>,
    unit: int,
    n: int,
    c: int,
    ow: Seq<int>,
    root: CountedTreeNode<T, Idx>,
)
    requires
        arena_inv(sl, unit, n, c, ow),
        stack_inv(st, fr, sl, unit, c, root),
        n - c == total_demand(st, fr, st.len() as int),
        st.len() > 0,
        st[st.len() - 1].visited,
        st[st.len() - 1].nodes@.len() == 0,
    ensures
        st.len() > 1 ==> st[st.len() - 2].visited,
        stack_inv(st.drop_last(), fr.drop_last(), sl, unit, c, root),
        n - c == total_demand(st.drop_last(), fr.drop_last(), st.len() - 1),
        unpushed(st.drop_last(), st.len() - 1) == unpushed(st, st.len() as int),
{
    reveal(stack_inv);
    let m = st.len() - 1;
    let f = st[m];
    let g = fr[m].0;
    let sm = fr[m].1;
    let k = g.nodes@.len() as int;
    let st2 = st.drop_last();
    let fr2 = fr.drop_last();
    assert(fr[m].0.wf() && frame_ok(f, g, sm, sl, unit, c, m == st.len() - 1));
    lemma_frame_done(f, g, sm, sl, unit, c);
    lemma_demand_prefix(st, fr, st2, fr2, m);
    assert(CountedTreeNode::<T, Idx>::count_all(f.nodes@) == 0);
    if m == 0 {
        assert(fr[0] == (root, 0int));
    } else {
        let p = m - 1;
        let fp = st[p];
        let gp = fr[p].0;
        assert(fr[p].0.wf() && frame_ok(fp, gp, fr[p].1, sl, unit, c, p == st.len() - 1));
        assert(st[p].visited);
        lemma_frame_child_slot(fp, gp, fr[p].1, sl, unit, c);
        assert(g == gp.nodes@[fp.built_sub_nodes - 1]);
        assert(sm == fp.list_offset as int / unit + fp.built_sub_nodes - 1);
        lemma_frame_promote(fp, gp, fr[p].1, sl, unit, c);
    }
    assert forall|d: int| 0 <= d < st2.len() implies (#[trigger] fr2[d]).0.wf() && frame_ok(
        st2[d],
        fr2[d].0,
        fr2[d].1,
        sl,
        unit,
        c,
        d == st2.len() - 1,
    ) by {
        assert(fr2[d] == fr[d]);
        assert(st2[d] == st[d]);
        assert(fr[d].0.wf() && frame_ok(st[d], fr[d].0, fr[d].1, sl, unit, c, d == st.len() - 1));
    }
    assert forall|d: int| 0 <= d < st2.len() - 1 implies {
        &&& (#[trigger] st2[d]).visited
        &&& fr2[d + 1].0 == fr2[d].0.nodes@[st2[d].built_sub_nodes - 1]
        &&& fr2[d + 1].1 == st2[d].list_offset as int / unit + st2[d].built_sub_nodes - 1
    } by {
        assert(st2[d] == st[d]);
        assert(st[d].visited);
    }
    assert(stack_inv(st2, fr2, sl, unit, c, root));
}

/// Once the cursor reaches the end, every slot after the root encodes some
/// subtree: its owner does, and it lies in its owner's block.
proof fn lemma_all_encoded<T, Idx: TrieKey>(
    sl: Seq<Option<TreeNode<T, Idx>>>,
    unit: int,
    n: int,
    ow: Seq<int>,
    root: CountedTreeNode<T, Idx>,
    s: int,
)
    requires
        arena_inv(sl, unit, n, n, ow),
        block_encodes(sl, unit, 0, root),
        1 <= s < n,
    ensures
        exists|g: CountedTreeNode<T, Idx>| encodes(sl, unit, s, g),
    decreases s,
{
    reveal(arena_inv);
    let o = ow[s];
    lemma_slot_offset(unit, 1);
    if o == 0 {
        assert(block_start(rec_at(sl, 0), unit) == 1);
        assert(encodes(sl, unit, 1 + (s - 1), root.nodes@[s - 1]));
    } else {
        lemma_all_encoded(sl, unit, n, ow, root, o);
        let go = choose|g: CountedTreeNode<T, Idx>| encodes(sl, unit, o, g);
        let bs = block_start(rec_at(sl, o), unit);
        assert(go.nodes@.len() > 0);
        assert(encodes(sl, unit, bs + (s - bs), go.nodes@[s - bs]));
    }
}

/// Once the stack is empty the arena is a finished compiled tree that
/// answers every non-empty path as the trie does.
proof fn lemma_finished<T, Idx: TrieKey>(
    st: Seq<CountedTreeNode<T, Idx>>,
    fr: Seq<(CountedTreeNode<T, Idx>, int)>,
    sl: Seq<Option<TreeNode<T, Idx>>>,
    unit: int,
    n: int,
    c: int,
    ow: Seq<int>,
    root: CountedTreeNode<T, Idx>,
)
    requires
        arena_inv(sl, unit, n, c, ow),
        stack_inv(st, fr, sl, unit, c, root),
        st.len() == 0,
        n - c == 0,
        root.wf(),
    ensures
        layout_ok(sl, unit),
        block_encodes(sl, unit, 0, root),
        rec_at(sl, 0).value is None,
        forall|p: Seq<Idx::V>| p.len() > 0 ==> #[trigger] arena_lookup(sl, unit, 0, p) == root.lookup(p),
{
    reveal(stack_inv);
    assert(block_encodes(sl, unit, 0, root));
    assert(c == n);
    reveal(arena_inv);
    assert forall|s: int| 0 <= s < n && #[trigger] rec_at(sl, s).list_length > 0 implies is_set(sl, s) by {
        if s > 0 {
            lemma_all_encoded(sl, unit, n, ow, root, s);
            let gs = choose|g: CountedTreeNode<T, Idx>| encodes(sl, unit, s, g);
            assert(encodes(sl, unit, s, gs));
        }
    }
    assert forall|s: int| 0 <= s < sl.len() implies #[trigger] record_ok(sl, unit, s) by {
        assert(placed(sl, unit, s, c));
        assert(rec_at(sl, s).list_length > 0 ==> is_set(sl, s));
    }
    assert(blocks_disjoint(sl, unit)) by {
        assert forall|s1: int, s2: int|
            0 <= s1 < sl.len() && 0 <= s2 < sl.len() && s1 != s2 && rec_at(sl, s1).list_length > 0
                && rec_at(sl, s2).list_length > 0 implies {
                ||| block_start(#[trigger] rec_at(sl, s1), unit) + rec_at(sl, s1).list_length
                    <= block_start(rec_at(sl, s2), unit)
                ||| block_start(#[trigger] rec_at(sl, s2), unit) + rec_at(sl, s2).list_length
                    <= block_start(rec_at(sl, s1), unit)
            } by {
            assert(rec_at(sl, s1).list_length > 0 ==> is_set(sl, s1));
            assert(rec_at(sl, s2).list_length > 0 ==> is_set(sl, s2));
        }
    }
    assert(layout_ok(sl, unit));
    assert forall|p: Seq<Idx::V>| p.len() > 0 implies #[trigger] arena_lookup(sl, unit, 0, p) == root.lookup(p) by {
        lemma_block_lookup(sl, unit, 0, root, p);
    }
}

impl<T, Idx: TrieKey> StaticTreePlanner<T, Idx> {
    pub closed spec fn plan(self) -> CountedTreeMap<T, Idx> {
        self.map
    }

    pub open spec fn wf(self) -> bool {
        self.plan().wf()
    }

    /// The map from non-empty key sequences to the values added so far.
    pub open spec fn view(self) -> Map<Seq<Idx::V>, T> {
        self.plan().view()
    }

    /// The number of entries added so far with a non-empty key sequence,
    /// repeated key sequences counted each time.
    pub open spec fn weight(self) -> int {
        self.plan().root_node().idx_counts as int
    }

    /// The number of nodes of the planned trie, the synthetic root included.
    pub open spec fn node_count(self) -> nat {
        self.plan().root_node().count()
    }

    /// The compiled arena would have room for its records, and every byte
    /// offset in it fits in an `i32`.
    pub open spec fn fits(self) -> bool {
        &&& size_of::<TreeNode<T, Idx>>() > 0
        &&& self.node_count() * size_of::<TreeNode<T, Idx>>() <= i32::MAX
    }

    /// A planner without entries.
    pub fn new() -> (r: Self)
        ensures
            r.wf(),
            r.weight() == 0,
            r.node_count() == 1,
            r.view() == Map::<Seq<Idx::V>, T>::empty(),
    {
        let r = StaticTreePlanner { map: CountedTreeMap::new() };
        proof {
            assert(r.plan().root_node().nodes@.len() == 0);
            assert(CountedTreeNode::<T, Idx>::count_all(r.plan().root_node().nodes@) == 0);
        }
        r
    }

    /// Adds `value` under `key`, overwriting an earlier value; an empty key
    /// sequence is ignored. Gives the planner back.
    pub fn add(self, key: &[Idx], value: T) -> (r: Self)
        requires
            self.wf(),
            key@.len() > 0 ==> self.weight() < i32::MAX,
        ensures
            r.wf(),
            r.weight() == self.weight() + if key@.len() > 0 {
                1int
            } else {
                0int
            },
            r.view() == if key@.len() == 0 {
                self.view()
            } else {
                self.view().insert(path_of(key@), value)
            },
    {
        let mut planner = self;
        planner.map.insert(key, value);
        planner
    }

    /// The number of nodes of the planned trie, counted breadth first, or
    /// nothing once the count goes past `limit`.
    fn count_nodes(&self, limit: usize) -> (r: Option<usize>)
        requires
            self.wf(),
            limit < usize::MAX,
        ensures
            r == if self.node_count() <= limit {
                Some(self.node_count() as usize)
            } else {
                None::<usize>
            },
    {
        let ghost total = self.node_count();
        let mut node_count: usize = 0;
        let mut open_nodes: VecDeque<&CountedTreeNode<T, Idx>> = VecDeque::new();
        open_nodes.push_back(self.map.root_ref());
        let ghost mut q: Seq<CountedTreeNode<T, Idx>> = seq![self.plan().root_node()];
        proof {
            CountedTreeNode::<T, Idx>::lemma_count_all_single(self.plan().root_node());
        }
        while open_nodes.len() > 0
            invariant
                total == self.node_count(),
                node_count <= limit < usize::MAX,
                q.len() == open_nodes@.len(),
                forall|i: int| 0 <= i < q.len() ==> *open_nodes@[i] == #[trigger] q[i],
                node_count + CountedTreeNode::<T, Idx>::count_all(q) == total,
            decreases total - node_count,
        {
            let node = open_nodes.pop_front().unwrap();
            proof {
                assert(*node == q[0]);
                assert(node.count() >= 1);
                q = q.drop_first();
            }
            node_count += 1;
            if node_count > limit {
                return None;
            }
            let ghost q0 = q;
            let mut i: usize = 0;
            while i < node.nodes.len()
                invariant
                    i <= node.nodes@.len(),
                    q.len() == open_nodes@.len(),
                    forall|j: int| 0 <= j < q.len() ==> *open_nodes@[j] == #[trigger] q[j],
                    CountedTreeNode::<T, Idx>::count_all(q) == CountedTreeNode::<T, Idx>::count_all(q0)
                        + CountedTreeNode::<T, Idx>::count_all(node.nodes@.subrange(0, i as int)),
                decreases node.nodes@.len() - i,
            {
                open_nodes.push_back(&node.nodes[i]);
                proof {
                    let c = node.nodes@[i as int];
                    CountedTreeNode::<T, Idx>::lemma_count_all_concat(q, seq![c]);
                    CountedTreeNode::<T, Idx>::lemma_count_all_single(c);
                    assert(node.nodes@.subrange(0, i + 1) =~= node.nodes@.subrange(0, i as int) + seq![c]);
                    CountedTreeNode::<T, Idx>::lemma_count_all_concat(node.nodes@.subrange(0, i as int), seq![c]);
                    let oldq = q;
                    q = oldq.push(c);
                    assert(q =~= oldq + seq![c]);
                }
                i += 1;
            }
            proof {
                assert(node.nodes@.subrange(0, node.nodes@.len() as int) =~= node.nodes@);
            }
        }
        proof {
            assert(q.len() == 0);
            assert(CountedTreeNode::<T, Idx>::count_all(q) == 0);
        }
        Some(node_count)
    }

    /// The size in bytes of an arena with one record for every node.
    fn calculate_pool_size(&self) -> (r: usize)
        requires
            self.wf(),
            self.fits(),
        ensures
            r == self.node_count() * size_of::<TreeNode<T, Idx>>(),
    {
        proof {
            assert(self.node_count() <= self.node_count() * size_of::<TreeNode<T, Idx>>()) by (nonlinear_arith)
                requires size_of::<TreeNode<T, Idx>>() > 0;
        }
        let node_count = self.count_nodes(i32::MAX as usize).unwrap();
        node_count * core::mem::size_of::<TreeNode<T, Idx>>()
    }

    /// Whether the planner can be compiled: an arena with one record for
    /// every node keeps all its byte offsets within `i32`.
    pub fn can_compile(&self) -> (r: bool)
        requires
            self.wf(),
        ensures
            r == self.fits(),
    {
        let rs = core::mem::size_of::<TreeNode<T, Idx>>();
        if rs == 0 {
            return false;
        }
        let limit = (i32::MAX as usize) / rs;
        let ghost n = self.node_count() as int;
        proof {
            vstd::arithmetic::div_mod::lemma_fundamental_div_mod(i32::MAX as int, rs as int);
            let q = limit as int;
            let m = (i32::MAX as int) % (rs as int);
            if n <= q {
                assert(n * rs <= q * rs) by (nonlinear_arith)
                    requires n <= q, rs > 0;
                assert(q * rs <= i32::MAX) by (nonlinear_arith)
                    requires i32::MAX == rs * q + m, 0 <= m;
            } else {
                assert(n * rs >= (q + 1) * rs) by (nonlinear_arith)
                    requires n >= q + 1, rs > 0;
                assert((q + 1) * rs > i32::MAX) by (nonlinear_arith)
                    requires i32::MAX == rs * q + m, m < rs;
            }
        }
        match self.count_nodes(limit) {
            Some(_) => true,
            None => false,
        }
    }

    /// Compiles the entries into a [`StaticTree`]: sizes the arena, sorts the
    /// trie's children by descending weight, and lays the nodes out in one
    /// depth-first pass, each block of children written when its parent is
    /// expanded and the parent's record patched to point at it.
    pub fn compile(self) -> (r: StaticTree<T, Idx>)
        requires
            self.wf(),
            self.fits(),
        ensures
            r.wf(),
            blocks_disjoint(r.arena()@, r.arena().unit() as int),
            r.arena().byte_size() == self.node_count() * size_of::<TreeNode<T, Idx>>(),
            r.view() == self.view(),
            rec_at(r.arena()@, 0).value is None,
            exists|g: CountedTreeNode<T, Idx>|
                {
                    &&& g.sorted()
                    &&& g.sorted_from(self.plan().root_node())
                    &&& block_encodes(r.arena()@, r.arena().unit() as int, 0, g)
                },
    {
        let ghost unit = size_of::<TreeNode<T, Idx>>() as int;
        let ghost n = self.node_count() as int;
        let ghost orig = self.plan().root_node();
        let pool_size: usize = self.calculate_pool_size();
        proof {
            lemma_slot_offset(unit, n);
        }
        let mut tree: StaticTree<T, Idx> = StaticTree::new(pool_size);
        let mut planner = self;
        planner.map.root_ref_mut().sort_nodes();
        let mut root = planner.map.root();
        let ghost g = root;
        proof {
            CountedTreeNode::<T, Idx>::lemma_count_all_at_least_len(g.nodes@);
            assert(unit <= n * unit) by (nonlinear_arith)
                requires n >= 1, unit > 0;
            assert(n <= n * unit) by (nonlinear_arith)
                requires n >= 1, unit > 0;
        }
        let node_size: i32 = core::mem::size_of::<TreeNode<T, Idx>>() as i32;
        let mut pool_offset: i32 = node_size;
        let mut last_branch_offset: i32 = 0;
        root.visited = true;
        root.list_offset = node_size;
        let root_len = root.nodes.len() as i32;
        proof {
            lemma_slot_offset(unit, 0);
            lemma_slot_offset(unit, 1);
            assert forall|i: int| 0 <= i < g.nodes@.len() implies (#[trigger] g.nodes@[i]).nodes@.len() <= i32::MAX by {
                lemma_count_all_ge_elem(g.nodes@, i);
                CountedTreeNode::<T, Idx>::lemma_count_all_at_least_len(g.nodes@[i].nodes@);
            }
        }
        tree.pool_mut().put(
            0,
            TreeNode { key: Idx::default(), value: None, list_length: root_len, list_head: node_size },
        );
        write_children(tree.pool_mut(), &mut root, pool_offset);
        proof {
            assert((1 + root_len) * unit <= n * unit) by (nonlinear_arith)
                requires 1 + root_len <= n, unit > 0;
            assert((1 + root_len) * unit == unit + unit * root_len) by (nonlinear_arith);
        }
        pool_offset = pool_offset + node_size * root_len;
        let ghost mut cursor: int = 1 + g.nodes@.len() as int;
        let ghost mut owner: Seq<int> = Seq::new(n as nat, |s: int| 0int);
        let ghost mut frames: Seq<(CountedTreeNode<T, Idx>, int)> = seq![(g, 0int)];
        let mut stack: Vec<CountedTreeNode<T, Idx>> = Vec::new();
        stack.push(root);
        proof {
            lemma_start(tree.arena()@, unit, n, g, root);
            assert(stack@ == seq![root]);
        }
        loop
            invariant
                unit == size_of::<TreeNode<T, Idx>>(),
                node_size == unit,
                tree.arena().wf(),
                tree.arena().unit() == unit,
                tree.arena()@.len() == n,
                g.wf(),
                g.count() == n,
                n * unit <= i32::MAX,
                n <= i32::MAX,
                unit > 0,
                pool_offset == cursor * unit,
                arena_inv(tree.arena()@, unit, n, cursor, owner),
                stack_inv(stack@, frames, tree.arena()@, unit, cursor, g),
                frames.len() == stack@.len(),
                n - cursor == total_demand(stack@, frames, stack@.len() as int),
                stack@.len() > 0 && !stack@[stack@.len() - 1].visited ==> last_branch_offset == frames[stack@.len()
                    - 1].1 * unit,
            ensures
                stack@.len() == 0,
                arena_inv(tree.arena()@, unit, n, cursor, owner),
                stack_inv(stack@, frames, tree.arena()@, unit, cursor, g),
                n - cursor == total_demand(stack@, frames, stack@.len() as int),
            decreases 2 * unpushed(stack@, stack@.len() as int) + stack@.len(),
        {
            let ghost st0 = stack@;
            let ghost m = st0.len() as int;
            let popped = stack.pop();
            let mut node = match popped {
                Some(n) => n,
                None => {
                    break ;
                },
            };
            let ghost gt = frames[m - 1].0;
            let ghost st_now = st0;
            if !node.visited {
                let ghost sl0 = tree.arena()@;
                proof {
                    lemma_room(st0, frames, sl0, unit, n, cursor, owner, g);
                    lemma_slot_offset(unit, frames[m - 1].1);
                    lemma_slot_offset(unit, cursor);
                    assert((cursor + gt.nodes@.len()) * unit <= n * unit) by (nonlinear_arith)
                        requires cursor + gt.nodes@.len() <= n, unit > 0;
                    assert((cursor + gt.nodes@.len()) * unit == cursor * unit + unit * gt.nodes@.len()) by (nonlinear_arith);
                    assert(frames[m - 1].1 * unit < n * unit) by (nonlinear_arith)
                        requires frames[m - 1].1 < n, unit > 0;
                    assert(0 <= frames[m - 1].1 * unit) by (nonlinear_arith)
                        requires frames[m - 1].1 >= 0, unit > 0;
                }
                node.list_offset = pool_offset;
                if node.nodes.len() > 0 {
                    let pool = tree.pool_mut();
                    let record = pool.get_mut(last_branch_offset as usize);
                    record.list_head = pool_offset;
                }
                write_children(tree.pool_mut(), &mut node, pool_offset);
                let k = node.nodes.len() as i32;
                pool_offset = pool_offset + node_size * k;
                node.visited = true;
                proof {
                    let ow1 = lemma_expand(st0, frames, sl0, tree.arena()@, unit, n, cursor, owner, g, node);
                    owner = ow1;
                    cursor = cursor + gt.nodes@.len();
                    st_now = st0.update(m - 1, node);
                }
            }
            proof {
                assert(st_now == stack@.push(node));
            }
            let ghost before_take = node;
            let next_node = match node.consume_next_node() {
                Some(n) => n,
                None => {
                    proof {
                        lemma_finish(st_now, frames, tree.arena()@, unit, n, cursor, owner, g);
                        assert(st_now.drop_last() == stack@);
                        frames = frames.drop_last();
                    }
                    continue ;
                },
            };
            let ghost b = node.built_sub_nodes as int;
            let ghost h = node.list_offset as int / unit;
            proof {
                lemma_top_bounds(st_now, frames, tree.arena()@, unit, n, cursor, owner, g);
                assert(st_now[m - 1] == before_take);
                assert(node.built_sub_nodes == before_take.built_sub_nodes);
                assert((h + b) * unit < n * unit) by (nonlinear_arith)
                    requires h + b < n, unit > 0;
                assert((h + b) * unit == h * unit + unit * b) by (nonlinear_arith);
                assert(0 <= (h + b) * unit) by (nonlinear_arith)
                    requires h + b >= 0, unit > 0;
            }
            last_branch_offset = node.list_offset + node_size * node.built_sub_nodes;
            node.built_sub_nodes += 1;
            let ghost gb = frames[m - 1].0.nodes@[b];
            stack.push(node);
            stack.push(next_node);
            proof {
                lemma_descend(st_now, frames, tree.arena()@, unit, n, cursor, owner, g, node, next_node);
                assert(stack@ =~= st_now.update(m - 1, node).push(next_node));
                frames = frames.push((gb, h + b));
            }
        }
        proof {
            lemma_finished(stack@, frames, tree.arena()@, unit, n, cursor, owner, g);
            assert forall|p: Seq<Idx::V>| #[trigger] tree.view().contains_key(p) == self.view().contains_key(p)
                && (tree.view().contains_key(p) ==> tree.view()[p] == self.view()[p]) by {
                if p.len() > 0 {
                    assert(tree.lookup(p) == g.lookup(p));
                    assert(g.lookup(p) == orig.lookup(p));
                }
            }
            assert(tree.view() =~= self.view());
            assert(g.sorted() && g.sorted_from(orig) && block_encodes(tree.arena()@, unit, 0, g));
        }
        tree
    }
}

} // verus!

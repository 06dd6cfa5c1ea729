//! What a sequence of insertions stores, and what every structure of this
//! crate built from it answers.
use vstd::prelude::*;

use crate::key::TrieKey;
use crate::static_tree::StaticTree;
use crate::static_tree_planner::StaticTreePlanner;
use crate::tree_map::TreeMap;

verus! {

/// The map that inserting `entries` in order into an empty map gives: a
/// later entry overwrites an earlier one with the same key sequence, and an
/// entry with an empty key sequence is ignored.
pub open spec fn built_from<K, T>(entries: Seq<(Seq<K>, T)>) -> Map<Seq<K>, T>
    decreases entries.len(),
{
    if entries.len() == 0 {
        Map::empty()
    } else {
        let prev = built_from(entries.drop_last());
        let e = entries.last();
        if e.0.len() == 0 {
            prev
        } else {
            prev.insert(e.0, e.1)
        }
    }
}

/// The key sequences of `entries` are non-empty and pairwise distinct.
pub open spec fn distinct_keys<K, T>(entries: Seq<(Seq<K>, T)>) -> bool {
    &&& forall|i: int| 0 <= i < entries.len() ==> (#[trigger] entries[i]).0.len() > 0
    &&& forall|i: int, j: int| 0 <= i < j < entries.len() ==> (#[trigger] entries[i]).0 != (#[trigger] entries[j]).0
}

/// One more insertion: what `insert` and `add` do to the map.
pub proof fn lemma_built_from_push<K, T>(entries: Seq<(Seq<K>, T)>, e: (Seq<K>, T))
    ensures
        built_from(entries.push(e)) == if e.0.len() == 0 {
            built_from(entries)
        } else {
            built_from(entries).insert(e.0, e.1)
        },
{
    assert(entries.push(e).drop_last() =~= entries);
}

/// Exactly the non-empty key sequences of `entries` are stored.
pub proof fn lemma_built_from_domain<K, T>(entries: Seq<(Seq<K>, T)>, p: Seq<K>)
    ensures
        built_from(entries).contains_key(p) <==> p.len() > 0 && exists|i: int|
            0 <= i < entries.len() && (#[trigger] entries[i]).0 == p,
    decreases entries.len(),
{
    if entries.len() > 0 {
        let prev = entries.drop_last();
        lemma_built_from_domain(prev, p);
        if built_from(entries).contains_key(p) {
            if built_from(prev).contains_key(p) {
                let i = choose|i: int| 0 <= i < prev.len() && (#[trigger] prev[i]).0 == p;
                assert(entries[i] == prev[i]);
            } else {
                assert(entries[entries.len() - 1].0 == p);
            }
        }
        if p.len() > 0 && exists|i: int| 0 <= i < entries.len() && (#[trigger] entries[i]).0 == p {
            let i = choose|i: int| 0 <= i < entries.len() && (#[trigger] entries[i]).0 == p;
            if i < entries.len() - 1 {
                assert(prev[i] == entries[i]);
            }
        }
    }
}

/// With distinct non-empty key sequences, every entry's key sequence maps
/// to that entry's value.
pub proof fn lemma_built_from_value<K, T>(entries: Seq<(Seq<K>, T)>, i: int)
    requires
        distinct_keys(entries),
        0 <= i < entries.len(),
    ensures
        built_from(entries).contains_key(entries[i].0),
        built_from(entries)[entries[i].0] == entries[i].1,
    decreases entries.len(),
{
    let prev = entries.drop_last();
    if i < entries.len() - 1 {
        assert(prev[i] == entries[i]);
        assert(distinct_keys(prev)) by {
            assert forall|a: int, b: int| 0 <= a < b < prev.len() implies (#[trigger] prev[a]).0 != (#[trigger] prev[b]).0 by {
                assert(prev[a] == entries[a] && prev[b] == entries[b]);
            }
        }
        lemma_built_from_value(prev, i);
        assert(entries[i].0 != entries[entries.len() - 1].0);
    }
}

/// Round trip through the mutable trie: once the entries, with distinct
/// non-empty key sequences, are inserted in order into a new map, looking up
/// any of their key sequences gives that entry's value.
pub proof fn lemma_tree_map_round_trip<T, Idx: TrieKey>(map: TreeMap<T, Idx>, entries: Seq<(Seq<Idx::V>, T)>)
    requires
        map@ == built_from(entries),
        distinct_keys(entries),
    ensures
        forall|i: int|
            0 <= i < entries.len() ==> map@.contains_key(#[trigger] entries[i].0) && map@[entries[i].0]
                == entries[i].1,
{
    assert forall|i: int| 0 <= i < entries.len() implies map@.contains_key(#[trigger] entries[i].0)
        && map@[entries[i].0] == entries[i].1 by {
        lemma_built_from_value(entries, i);
    }
}

/// Round trip through compilation: when a planner was given the entries, with
/// distinct non-empty key sequences, in order, the tree it compiles to finds
/// each entry's value under its key sequence.
pub proof fn lemma_compiled_round_trip<T, Idx: TrieKey>(
    planner: StaticTreePlanner<T, Idx>,
    tree: StaticTree<T, Idx>,
    entries: Seq<(Seq<Idx::V>, T)>,
)
    requires
        planner.view() == built_from(entries),
        tree.view() == planner.view(),
        distinct_keys(entries),
    ensures
        forall|i: int| 0 <= i < entries.len() ==> tree.lookup(#[trigger] entries[i].0) == Some(entries[i].1),
{
    assert forall|i: int| 0 <= i < entries.len() implies tree.lookup(#[trigger] entries[i].0) == Some(entries[i].1) by {
        lemma_built_from_value(entries, i);
        assert(tree.view().contains_key(entries[i].0));
    }
}

/// Negative lookups: a key sequence that is no entry's key sequence (one that
/// differs in a token, a prefix, a strict extension) is found neither in the
/// planner's map nor in the tree compiled from it.
pub proof fn lemma_negative_lookups<T, Idx: TrieKey>(
    planner: StaticTreePlanner<T, Idx>,
    tree: StaticTree<T, Idx>,
    entries: Seq<(Seq<Idx::V>, T)>,
    p: Seq<Idx::V>,
)
    requires
        planner.view() == built_from(entries),
        tree.view() == planner.view(),
        p.len() > 0,
        forall|i: int| 0 <= i < entries.len() ==> (#[trigger] entries[i]).0 != p,
    ensures
        !planner.view().contains_key(p),
        tree.lookup(p) is None,
{
    lemma_built_from_domain(entries, p);
    assert(!tree.view().contains_key(p));
}

/// Negative lookups in the mutable trie: a key sequence that is no entry's
/// key sequence is not in the map.
pub proof fn lemma_tree_map_negative_lookups<T, Idx: TrieKey>(
    map: TreeMap<T, Idx>,
    entries: Seq<(Seq<Idx::V>, T)>,
    p: Seq<Idx::V>,
)
    requires
        map@ == built_from(entries),
        forall|i: int| 0 <= i < entries.len() ==> (#[trigger] entries[i]).0 != p,
    ensures
        !map@.contains_key(p),
{
    lemma_built_from_domain(entries, p);
}

/// Two planners given the same entries in the same order compile to trees
/// that answer every non-empty key sequence alike, whatever their bytes.
pub proof fn lemma_compile_agrees<T, Idx: TrieKey>(
    planner1: StaticTreePlanner<T, Idx>,
    planner2: StaticTreePlanner<T, Idx>,
    tree1: StaticTree<T, Idx>,
    tree2: StaticTree<T, Idx>,
    entries: Seq<(Seq<Idx::V>, T)>,
)
    requires
        planner1.view() == built_from(entries),
        planner2.view() == built_from(entries),
        tree1.view() == planner1.view(),
        tree2.view() == planner2.view(),
    ensures
        forall|p: Seq<Idx::V>| p.len() > 0 ==> #[trigger] tree1.lookup(p) == tree2.lookup(p),
{
    assert forall|p: Seq<Idx::V>| p.len() > 0 implies #[trigger] tree1.lookup(p) == tree2.lookup(p) by {
        assert(tree1.view().contains_key(p) == tree2.view().contains_key(p));
        if tree1.lookup(p) is Some {
            assert(tree1.view()[p] == tree2.view()[p]);
        }
    }
}

} // verus!

use static_tree::counted_tree_map::CountedTreeMap;

#[test]
fn counted_tree_map_insert() {
    let mut map: CountedTreeMap<i32, &str> = CountedTreeMap::new();

    // Insert a path
    map.insert(vec!["a", "b", "c"].as_slice(), 1);

    // Insert along a path that already exists
    map.insert(vec!["a", "b", "d"].as_slice(), 1);

    // Insert along a new path
    map.insert(vec!["e", "f"].as_slice(), 1);

    // A long path
    map.insert(vec!["e", "f", "g", "h", "i", "j", "k", "l", "m", "n", "o", "p"].as_slice(), 1);
}

#[test]
fn sort() {
    let mut map: CountedTreeMap<i32, &str> = CountedTreeMap::new();
    map.insert(vec!["a", "b", "c"].as_slice(), 1);
    map.insert(vec!["a", "b", "d"].as_slice(), 2);
    map.insert(vec!["e", "f"].as_slice(), 3);

    map.root_ref_mut().sort_nodes();

    let root = map.root_ref();
    assert_eq!(root.idx_counts, 3);

    // Step down into "a"
    let node = root.find_node(&"a").unwrap();
    assert_eq!(node.idx_counts, 2);

    // Step down into "e"
    let node = root.find_node(&"e").unwrap();
    assert_eq!(node.idx_counts, 1);
}

#[test]
fn sort_orders_children_by_descending_weight() {
    let mut map: CountedTreeMap<i32, &str> = CountedTreeMap::new();
    map.insert(vec!["x", "1"].as_slice(), 1);
    map.insert(vec!["y", "1"].as_slice(), 2);
    map.insert(vec!["y", "2"].as_slice(), 3);
    map.insert(vec!["z", "1"].as_slice(), 4);
    map.insert(vec!["z", "2"].as_slice(), 5);
    map.insert(vec!["z", "3"].as_slice(), 6);
    map.root_ref_mut().sort_nodes();
    let root = map.root_ref();
    let keys: Vec<&str> = root.nodes.iter().map(|n| n.key).collect();
    assert_eq!(keys, vec!["z", "y", "x"]);
    let weights: Vec<i32> = root.nodes.iter().map(|n| n.idx_counts).collect();
    assert_eq!(weights, vec![3, 2, 1]);
}

#[test]
fn sort_keeps_order_of_equal_weights() {
    let mut map: CountedTreeMap<i32, &str> = CountedTreeMap::new();
    map.insert(vec!["p"].as_slice(), 1);
    map.insert(vec!["q"].as_slice(), 2);
    map.insert(vec!["r"].as_slice(), 3);
    map.root_ref_mut().sort_nodes();
    let keys: Vec<&str> = map.root_ref().nodes.iter().map(|n| n.key).collect();
    assert_eq!(keys, vec!["p", "q", "r"]);
}

#[test]
fn weight_counts_passing_insertions() {
    let mut map: CountedTreeMap<i32, &str> = CountedTreeMap::new();
    map.insert(vec!["a", "b"].as_slice(), 1);
    map.insert(vec!["a", "b"].as_slice(), 2);
    map.insert(vec!["a"].as_slice(), 3);
    let root = map.root_ref();
    assert_eq!(root.idx_counts, 3);
    let a = root.find_node(&"a").unwrap();
    assert_eq!(a.idx_counts, 2);
    assert_eq!(a.value, Some(3));
    let b = a.find_node(&"b").unwrap();
    assert_eq!(b.idx_counts, 0);
    assert_eq!(b.value, Some(2));
    assert_eq!(a.nodes.len(), 1);
}

#[test]
fn consume_next_node_takes_children_in_order() {
    let mut map: CountedTreeMap<i32, &str> = CountedTreeMap::new();
    map.insert(vec!["a"].as_slice(), 1);
    map.insert(vec!["b"].as_slice(), 2);
    let mut root = map.root();
    assert_eq!(root.consume_next_node().map(|n| n.key), Some("a"));
    assert_eq!(root.consume_next_node().map(|n| n.key), Some("b"));
    assert!(root.consume_next_node().is_none());
    assert_eq!(root.nodes.len(), 0);
}

#[test]
fn find_node_mut_changes_the_child_in_place() {
    let mut map: CountedTreeMap<i32, &str> = CountedTreeMap::new();
    map.insert(vec!["a"].as_slice(), 1);
    {
        let root = map.root_ref_mut();
        let child = root.find_node_mut(&"a").unwrap();
        child.value = Some(5);
        assert!(root.find_node_mut(&"zz").is_none());
    }
    assert_eq!(map.root_ref().find_node(&"a").unwrap().value, Some(5));
}

#[test]
fn insert_adds_weight_along_the_path_only() {
    let mut map: CountedTreeMap<i32, &str> = CountedTreeMap::new();
    map.insert(vec!["a", "b", "c"].as_slice(), 1);
    map.insert(vec!["a", "x"].as_slice(), 2);
    let root = map.root_ref();
    assert_eq!(root.idx_counts, 2);
    let a = root.find_node(&"a").unwrap();
    assert_eq!(a.idx_counts, 2);
    let b = a.find_node(&"b").unwrap();
    assert_eq!(b.idx_counts, 1);
    assert_eq!(b.find_node(&"c").unwrap().idx_counts, 0);
    assert_eq!(a.find_node(&"x").unwrap().idx_counts, 0);
    assert_eq!(b.value, None);
}

#[test]
fn insert_appends_new_children_after_existing_ones() {
    let mut map: CountedTreeMap<i32, &str> = CountedTreeMap::new();
    map.insert(vec!["q"].as_slice(), 1);
    map.insert(vec!["p"].as_slice(), 2);
    map.insert(vec!["q", "z"].as_slice(), 3);
    map.insert(vec!["a"].as_slice(), 4);
    let keys: Vec<&str> = map.root_ref().nodes.iter().map(|n| n.key).collect();
    assert_eq!(keys, vec!["q", "p", "a"]);
    let fresh = map.root_ref().find_node(&"a").unwrap();
    assert!(!fresh.visited);
    assert_eq!(fresh.list_offset, -1);
    assert_eq!(fresh.built_sub_nodes, 0);
}

#[test]
fn empty_key_sequence_leaves_the_map_alone() {
    let mut map: CountedTreeMap<i32, &str> = CountedTreeMap::new();
    map.insert(vec!["a"].as_slice(), 1);
    map.insert(Vec::<&str>::new().as_slice(), 9);
    let root = map.root_ref();
    assert_eq!(root.value, None);
    assert_eq!(root.idx_counts, 1);
    assert_eq!(root.nodes.len(), 1);
}

#[test]
fn sorting_twice_changes_nothing() {
    let mut map: CountedTreeMap<i32, &str> = CountedTreeMap::new();
    map.insert(vec!["x", "1"].as_slice(), 1);
    map.insert(vec!["y", "1"].as_slice(), 2);
    map.insert(vec!["y", "2"].as_slice(), 3);
    map.insert(vec!["w"].as_slice(), 4);
    map.root_ref_mut().sort_nodes();
    let once: Vec<&str> = map.root_ref().nodes.iter().map(|n| n.key).collect();
    map.root_ref_mut().sort_nodes();
    let twice: Vec<&str> = map.root_ref().nodes.iter().map(|n| n.key).collect();
    assert_eq!(once, vec!["y", "x", "w"]);
    assert_eq!(once, twice);
}

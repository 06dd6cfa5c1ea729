use static_tree::dynamic_array::DynamicArray;
use static_tree::static_tree::TreeNode;
use static_tree::static_tree_planner::StaticTreePlanner;
use static_tree::tree_map::TreeMap;

// Checks that a compiled record holds the given fields
fn check_node(node: &TreeNode<i32, &str>, key: &str, value: Option<i32>, list_length: i32, list_head: i32) -> bool {
    return node.key == key && node.value == value && node.list_length == list_length && node.list_head == list_head;
}

#[test]
fn compile() {
    let mut plan: StaticTreePlanner<i32, &str> = StaticTreePlanner::new();

    plan = plan.add(vec!["a", "b", "c"].as_slice(), 1);
    plan = plan.add(vec!["a", "b", "d"].as_slice(), 2);
    plan = plan.add(vec!["e"].as_slice(), 3);

    let tree = plan.compile();

    // Root
    assert!(check_node(tree.raw().get(0), "", None, 2, 32));

    // "a"
    assert!(check_node(tree.raw().get(32), "a", None, 1, 96));

    // "e"
    assert!(check_node(tree.raw().get(64), "e", Some(3), 0, -1));

    // "b"
    assert!(check_node(tree.raw().get(96), "b", None, 2, 128));

    // "c"
    assert!(check_node(tree.raw().get(128), "c", Some(1), 0, -1));

    // "d"
    assert!(check_node(tree.raw().get(160), "d", Some(2), 0, -1));
}

#[test]
fn allocate() {
    let arr: DynamicArray<u64> = DynamicArray::new(64);
    assert_eq!(arr.size(), 64);
    drop(arr);
}

fn scenario() -> StaticTreePlanner<i32, &'static str> {
    StaticTreePlanner::new()
        .add(vec!["a", "b", "c"].as_slice(), 1)
        .add(vec!["a", "b", "d"].as_slice(), 2)
        .add(vec!["e", "f"].as_slice(), 3)
}

#[test]
fn compiled_scenario_lookups() {
    let tree = scenario().compile();
    assert_eq!(tree.find(vec!["a", "b", "c"].as_slice()), Some(&1));
    assert_eq!(tree.find(vec!["a", "b", "d"].as_slice()), Some(&2));
    assert_eq!(tree.find(vec!["e", "f"].as_slice()), Some(&3));
    assert_eq!(tree.find(vec!["a", "b"].as_slice()), None);
    assert_eq!(tree.find(vec!["a"].as_slice()), None);
    assert_eq!(tree.find(vec!["x"].as_slice()), None);
}

#[test]
fn compiled_negative_lookups() {
    let tree = scenario().compile();
    assert_eq!(tree.find(vec!["a", "b", "c", "d"].as_slice()), None);
    assert_eq!(tree.find(vec!["a", "x", "c"].as_slice()), None);
    assert_eq!(tree.find(vec!["e", "f", "g"].as_slice()), None);
    assert_eq!(tree.find(vec!["e"].as_slice()), None);
    assert_eq!(tree.find(vec!["f"].as_slice()), None);
}

#[test]
fn compiled_arena_has_one_record_per_node() {
    let tree = scenario().compile();
    let record = std::mem::size_of::<TreeNode<i32, &str>>();
    // root, a, b, c, d, e, f
    assert_eq!(tree.raw().size(), 7 * record);
    assert_eq!(tree.raw().record_size(), record);
}

#[test]
fn empty_planner_compiles_to_the_root_alone() {
    let plan: StaticTreePlanner<i32, &str> = StaticTreePlanner::new();
    let tree = plan.compile();
    let record = std::mem::size_of::<TreeNode<i32, &str>>();
    assert_eq!(tree.raw().size(), record);
    assert_eq!(tree.raw().get(0).list_length, 0);
    assert_eq!(tree.find(vec!["a"].as_slice()), None);
}

#[test]
fn repeated_insert_keeps_latest_value_and_layout() {
    let once = scenario().compile();
    let twice = StaticTreePlanner::new()
        .add(vec!["a", "b", "c"].as_slice(), 9)
        .add(vec!["a", "b", "c"].as_slice(), 1)
        .add(vec!["a", "b", "d"].as_slice(), 2)
        .add(vec!["e", "f"].as_slice(), 3)
        .compile();
    assert_eq!(twice.find(vec!["a", "b", "c"].as_slice()), Some(&1));
    assert_eq!(once.raw().size(), twice.raw().size());
    let record = std::mem::size_of::<TreeNode<i32, &str>>();
    let mut offset = 0;
    while offset < once.raw().size() {
        let x = once.raw().get(offset);
        let y = twice.raw().get(offset);
        assert_eq!(x.key, y.key);
        assert_eq!(x.list_length, y.list_length);
        assert_eq!(x.list_head, y.list_head);
        offset += record;
    }
}

#[test]
fn heavier_subtrees_come_first() {
    let tree = StaticTreePlanner::new()
        .add(vec!["light", "x"].as_slice(), 1)
        .add(vec!["heavy", "x"].as_slice(), 2)
        .add(vec!["heavy", "y"].as_slice(), 3)
        .compile();
    let record = std::mem::size_of::<TreeNode<i32, &str>>();
    assert_eq!(tree.raw().get(record).key, "heavy");
    assert_eq!(tree.raw().get(2 * record).key, "light");
    assert_eq!(tree.find(vec!["light", "x"].as_slice()), Some(&1));
    assert_eq!(tree.find(vec!["heavy", "y"].as_slice()), Some(&3));
}

#[test]
fn compiled_blocks_do_not_overlap() {
    let tree = StaticTreePlanner::new()
        .add(vec!["a", "b", "c"].as_slice(), 1)
        .add(vec!["a", "d"].as_slice(), 2)
        .add(vec!["e", "f", "g"].as_slice(), 3)
        .add(vec!["e", "h"].as_slice(), 4)
        .compile();
    let record = std::mem::size_of::<TreeNode<i32, &str>>() as i32;
    let n = (tree.raw().size() / record as usize) as i32;
    let mut owners = vec![0; n as usize];
    let mut slot = 0;
    while slot < n {
        let r = tree.raw().get((slot * record) as usize);
        if r.list_length > 0 {
            let start = r.list_head / record;
            assert!(start > slot);
            assert!(start + r.list_length <= n);
            let mut i = 0;
            while i < r.list_length {
                owners[(start + i) as usize] += 1;
                i += 1;
            }
        }
        slot += 1;
    }
    assert_eq!(owners[0], 0);
    assert!(owners[1..].iter().all(|c| *c == 1));
}

#[test]
fn compiled_tree_answers_like_the_mutable_trie() {
    let keys: Vec<Vec<u32>> = vec![vec![1, 2, 3], vec![1, 2], vec![4], vec![4, 5, 6, 7], vec![8, 1]];
    let mut map: TreeMap<usize, u32> = TreeMap::new();
    let mut plan: StaticTreePlanner<usize, u32> = StaticTreePlanner::new();
    let mut i = 0;
    while i < keys.len() {
        map.insert(keys[i].as_slice(), i);
        plan = plan.add(keys[i].as_slice(), i);
        i += 1;
    }
    let tree = plan.compile();
    let queries: Vec<Vec<u32>> = vec![
        vec![1], vec![1, 2], vec![1, 2, 3], vec![1, 2, 3, 4], vec![4], vec![4, 5], vec![4, 5, 6, 7],
        vec![8], vec![8, 1], vec![9], vec![2, 1],
    ];
    for q in queries.iter() {
        assert_eq!(tree.find(q.as_slice()), map.find(q.as_slice()));
    }
}

#[test]
fn two_compiles_of_the_same_entries_answer_alike() {
    let t1 = scenario().compile();
    let t2 = scenario().compile();
    let queries: Vec<Vec<&str>> = vec![vec!["a"], vec!["a", "b"], vec!["a", "b", "c"], vec!["a", "b", "d"], vec!["e", "f"], vec!["z"]];
    for q in queries.iter() {
        assert_eq!(t1.find(q.as_slice()), t2.find(q.as_slice()));
    }
}

#[test]
fn small_plans_can_be_compiled() {
    assert!(scenario().can_compile());
    let plan: StaticTreePlanner<i32, &str> = StaticTreePlanner::new();
    assert!(plan.can_compile());
}

#[test]
fn string_keys_compile_and_look_up() {
    let tree = StaticTreePlanner::new()
        .add(vec![String::from("a"), String::from("b")].as_slice(), 1)
        .add(vec![String::from("c")].as_slice(), 2)
        .compile();
    assert_eq!(tree.find(vec![String::from("a"), String::from("b")].as_slice()), Some(&1));
    assert_eq!(tree.find(vec![String::from("c")].as_slice()), Some(&2));
    assert_eq!(tree.find(vec![String::from("a")].as_slice()), None);
}

#[test]
fn each_insert_call_counts_towards_sibling_order() {
    let record = std::mem::size_of::<TreeNode<i32, &str>>();
    let once = StaticTreePlanner::new()
        .add(vec!["x", "1"].as_slice(), 1)
        .add(vec!["y", "1"].as_slice(), 2)
        .compile();
    assert_eq!(once.raw().get(record).key, "x");
    assert_eq!(once.raw().get(2 * record).key, "y");
    let twice = StaticTreePlanner::new()
        .add(vec!["x", "1"].as_slice(), 1)
        .add(vec!["y", "1"].as_slice(), 2)
        .add(vec!["y", "1"].as_slice(), 2)
        .compile();
    assert_eq!(twice.raw().get(record).key, "y");
    assert_eq!(twice.raw().get(2 * record).key, "x");
    assert_eq!(twice.find(vec!["y", "1"].as_slice()), Some(&2));
    assert_eq!(twice.find(vec!["x", "1"].as_slice()), Some(&1));
}

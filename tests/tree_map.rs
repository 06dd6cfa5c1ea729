use static_tree::tree_map::TreeMap;

#[test]
fn tree_map_insert() {
    let mut map: TreeMap<i32, &str> = TreeMap::new();

    // Insert a path
    map.insert(vec!["a", "b", "c"].as_slice(), 1);

    // Insert along a path that already exists
    map.insert(vec!["a", "b", "d"].as_slice(), 1);

    // Insert along a new path
    map.insert(vec!["e", "f"].as_slice(), 1);

    // A long path
    map.insert(vec!["e", "f", "g", "h", "i", "j", "k", "l", "m", "n", "o", "p"].as_slice(), 1);
}

#[test]
fn find() {
    let mut map: TreeMap<i32, &str> = TreeMap::new();

    map.insert(vec!["a", "b", "c"].as_slice(), 1);
    map.insert(vec!["a", "b", "d"].as_slice(), 2);
    map.insert(vec!["e", "f"].as_slice(), 3);

    assert_eq!(*map.find(vec!["a", "b", "c"].as_slice()).unwrap(), 1);
    assert_eq!(*map.find(vec!["a", "b", "d"].as_slice()).unwrap(), 2);
    assert_eq!(*map.find(vec!["e", "f"].as_slice()).unwrap(), 3);
}

#[test]
fn find_invalid() {
    let mut map: TreeMap<i32, &str> = TreeMap::new();
    map.insert(vec!["a", "b", "c"].as_slice(), 1);

    // Wrong from the root
    assert_eq!(map.find(vec!["e", "f"].as_slice()).is_none(), true);

    // Wrong along the path
    assert_eq!(map.find(vec!["a", "b", "z"].as_slice()).is_none(), true);
}

#[test]
fn tree_map_intermediate_and_extension_paths_hold_nothing() {
    let mut map: TreeMap<i32, &str> = TreeMap::new();
    map.insert(vec!["a", "b", "c"].as_slice(), 1);
    assert!(map.find(vec!["a", "b"].as_slice()).is_none());
    assert!(map.find(vec!["a"].as_slice()).is_none());
    assert!(map.find(vec!["a", "b", "c", "d"].as_slice()).is_none());
    assert!(map.find(Vec::<&str>::new().as_slice()).is_none());
}

#[test]
fn tree_map_empty_key_sequence_is_ignored() {
    let mut map: TreeMap<i32, &str> = TreeMap::new();
    map.insert(Vec::<&str>::new().as_slice(), 9);
    assert!(map.find(Vec::<&str>::new().as_slice()).is_none());
    assert!(map.find(vec![""].as_slice()).is_none());
}

#[test]
fn tree_map_overwrites_value() {
    let mut map: TreeMap<i32, &str> = TreeMap::new();
    map.insert(vec!["a", "b"].as_slice(), 1);
    map.insert(vec!["a", "b"].as_slice(), 7);
    assert_eq!(map.find(vec!["a", "b"].as_slice()), Some(&7));
}

#[test]
fn tree_map_integer_keys() {
    let mut map: TreeMap<&str, u64> = TreeMap::new();
    map.insert(vec![1u64, 2, 3].as_slice(), "x");
    map.insert(vec![1u64, 2].as_slice(), "y");
    assert_eq!(map.find(vec![1u64, 2, 3].as_slice()), Some(&"x"));
    assert_eq!(map.find(vec![1u64, 2].as_slice()), Some(&"y"));
    assert_eq!(map.find(vec![1u64].as_slice()), None);
    assert_eq!(map.find(vec![2u64].as_slice()), None);
}

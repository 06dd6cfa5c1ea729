//! Path-keyed tries compiled into one flat arena of fixed-size records.
pub mod counted_tree_map;
pub mod dynamic_array;
pub mod entries;
pub mod key;
pub mod static_tree;
pub mod static_tree_planner;
pub mod tree_map;

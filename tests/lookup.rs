use std::collections::{BTreeMap, HashMap};

use prefix_tree_map::{Captures, KeyPart, PrefixTreeMap, PrefixTreeMapBuilder};

const X: u64 = 7;

fn example_tree() -> PrefixTreeMap<u64, u64, &'static str> {
    let mut builder = PrefixTreeMapBuilder::new();
    builder.insert_exact(&[1, 2, 3], "A");
    builder.insert(
        &[KeyPart::Exact(1), KeyPart::Wildcard(X), KeyPart::Exact(3), KeyPart::Exact(4)],
        "B",
    );
    builder.build()
}

#[test]
fn exact_example() {
    let tree = example_tree();
    assert_eq!(tree.find_exact(&[1, 2, 3]), Some(&"A"));
    assert_eq!(tree.find(&[1, 2, 3, 4]), Some(&"B"));

    let mut captures = BTreeMap::new();
    assert_eq!(tree.find_and_capture(&[1, 2, 3, 4], &mut captures), Some(&"B"));
    assert_eq!(captures.len(), 1);
    assert_eq!(captures.get(&X), Some(&2));
}

#[test]
fn exact_example_with_hash_map_sink() {
    let tree = example_tree();
    let mut captures = HashMap::new();
    assert_eq!(tree.find_and_capture(&[1, 2, 3, 4], &mut captures), Some(&"B"));
    assert_eq!(captures.len(), 1);
    assert_eq!(captures.get(&X), Some(&2));
}

#[test]
fn miss_example() {
    let mut builder = PrefixTreeMapBuilder::new();
    builder.insert_exact(&[1, 2, 3], "A");
    let tree = builder.build();
    assert_eq!(tree.find_exact(&[1, 2]), None);
    assert_eq!(tree.find(&[9]), None);
    assert_eq!(tree.find(&[1, 2]), None);
    assert_eq!(tree.find_exact(&[1, 2, 3, 4]), None);
}

#[test]
fn overwrite_replaces_only_that_path() {
    let mut builder = PrefixTreeMapBuilder::new();
    builder.insert_exact(&[1, 2], "one");
    builder.insert_exact(&[1, 3], "other");
    builder.insert_exact(&[1], "short");
    builder.insert_exact(&[1, 2], "two");
    let tree = builder.build();
    assert_eq!(tree.find_exact(&[1, 2]), Some(&"two"));
    assert_eq!(tree.find(&[1, 2]), Some(&"two"));
    assert_eq!(tree.find_exact(&[1, 3]), Some(&"other"));
    assert_eq!(tree.find_exact(&[1]), Some(&"short"));
}

#[test]
fn exact_round_trip() {
    let paths: [&[u64]; 5] = [&[7, 5, 2, 3], &[2, 5], &[4, 2, 3, 1, 9], &[1, 2, 3], &[2]];
    let mut builder = PrefixTreeMapBuilder::new();
    for (i, path) in paths.iter().enumerate() {
        builder.insert_exact(path, i);
    }
    let tree = builder.build();
    for (i, path) in paths.iter().enumerate() {
        assert_eq!(tree.find_exact(path), Some(&i));
        assert_eq!(tree.find(path), Some(&i));
    }
    assert_eq!(tree.find_exact(&[7, 5, 2]), None);
    assert_eq!(tree.find_exact(&[5]), None);
    assert_eq!(tree.find_exact(&[4, 2, 3, 1, 9, 0]), None);
}

#[test]
fn empty_key_finds_root_value() {
    let mut builder = PrefixTreeMapBuilder::new();
    builder.insert_exact(&[], "root");
    let tree = builder.build();
    assert_eq!(tree.find_exact(&[]), Some(&"root"));
    assert_eq!(tree.find(&[]), Some(&"root"));
    let mut captures = BTreeMap::new();
    assert_eq!(tree.find_and_capture(&[], &mut captures), Some(&"root"));
    assert!(captures.is_empty());
}

#[test]
fn empty_tree_finds_nothing() {
    let builder: PrefixTreeMapBuilder<u64, u64, &str> = PrefixTreeMapBuilder::new();
    let tree = builder.build();
    assert_eq!(tree.find_exact(&[]), None);
    assert_eq!(tree.find(&[]), None);
    assert_eq!(tree.find(&[1, 2]), None);
    let mut captures = BTreeMap::new();
    captures.insert(3, 4);
    assert_eq!(tree.find_and_capture(&[1], &mut captures), None);
    assert_eq!(captures.len(), 1);
    assert_eq!(captures.get(&3), Some(&4));
}

#[test]
fn greater_wildcard_is_tried_first() {
    let mut builder = PrefixTreeMapBuilder::new();
    builder.insert(&[KeyPart::Wildcard(1), KeyPart::Exact(5)], "lo");
    builder.insert(&[KeyPart::Wildcard(9), KeyPart::Exact(5)], "hi");
    let tree = builder.build();
    assert_eq!(tree.find(&[3, 5]), Some(&"hi"));
    let mut captures = BTreeMap::new();
    assert_eq!(tree.find_and_capture(&[3, 5], &mut captures), Some(&"hi"));
    assert_eq!(captures.len(), 1);
    assert_eq!(captures.get(&9), Some(&3));
}

#[test]
fn smaller_wildcard_is_reached_after_greater_one_fails() {
    let mut builder = PrefixTreeMapBuilder::new();
    builder.insert(&[KeyPart::Wildcard(1), KeyPart::Exact(5)], "lo");
    builder.insert(&[KeyPart::Wildcard(9), KeyPart::Exact(6)], "hi");
    let tree = builder.build();
    assert_eq!(tree.find(&[3, 5]), Some(&"lo"));
    assert_eq!(tree.find(&[3, 6]), Some(&"hi"));
    let mut captures = BTreeMap::new();
    assert_eq!(tree.find_and_capture(&[3, 5], &mut captures), Some(&"lo"));
    assert_eq!(captures.len(), 1);
    assert_eq!(captures.get(&1), Some(&3));
}

#[test]
fn exact_child_wins_over_wildcard() {
    let mut builder = PrefixTreeMapBuilder::new();
    builder.insert(&[KeyPart::Wildcard(1), KeyPart::Exact(2)], "wild");
    builder.insert_exact(&[4, 2], "exact");
    let tree = builder.build();
    assert_eq!(tree.find(&[4, 2]), Some(&"exact"));
    assert_eq!(tree.find(&[5, 2]), Some(&"wild"));
    assert_eq!(tree.find_exact(&[5, 2]), None);
}

#[test]
fn valueless_node_at_end_falls_back_to_wildcard() {
    let mut builder = PrefixTreeMapBuilder::new();
    builder.insert_exact(&[1, 2, 3], "deep");
    builder.insert(&[KeyPart::Exact(1), KeyPart::Wildcard(4)], "wild");
    let tree = builder.build();
    assert_eq!(tree.find(&[1, 2]), Some(&"wild"));
    let mut captures = HashMap::new();
    assert_eq!(tree.find_and_capture(&[1, 2], &mut captures), Some(&"wild"));
    assert_eq!(captures.get(&4), Some(&2));
}

#[test]
fn valueless_wildcard_at_end_falls_back_to_smaller_wildcard() {
    let mut builder = PrefixTreeMapBuilder::new();
    builder.insert(&[KeyPart::Wildcard(1)], "a");
    builder.insert(&[KeyPart::Wildcard(2), KeyPart::Exact(7)], "b");
    let tree = builder.build();
    assert_eq!(tree.find(&[3]), Some(&"a"));
    assert_eq!(tree.find(&[3, 7]), Some(&"b"));
}

#[test]
fn captures_hold_only_the_winning_path() {
    let mut builder = PrefixTreeMapBuilder::new();
    builder.insert(
        &[KeyPart::Wildcard(10), KeyPart::Wildcard(20), KeyPart::Exact(9)],
        "first",
    );
    builder.insert(
        &[KeyPart::Wildcard(5), KeyPart::Exact(2), KeyPart::Wildcard(30)],
        "second",
    );
    let tree = builder.build();
    let mut captures = BTreeMap::new();
    assert_eq!(tree.find_and_capture(&[1, 2, 3], &mut captures), Some(&"second"));
    assert_eq!(captures.len(), 2);
    assert_eq!(captures.get(&5), Some(&1));
    assert_eq!(captures.get(&30), Some(&3));

    let mut captures = BTreeMap::new();
    assert_eq!(tree.find_and_capture(&[1, 2, 9], &mut captures), Some(&"first"));
    assert_eq!(captures.len(), 2);
    assert_eq!(captures.get(&10), Some(&1));
    assert_eq!(captures.get(&20), Some(&2));
}

#[test]
fn failed_capture_leaves_sink_untouched() {
    let tree = example_tree();
    let mut captures = BTreeMap::new();
    captures.insert(100, 200);
    assert_eq!(tree.find_and_capture(&[1, 8, 3, 5], &mut captures), None);
    assert_eq!(captures.len(), 1);
    assert_eq!(captures.get(&100), Some(&200));
}

#[test]
fn capture_sink_is_not_cleared() {
    let tree = example_tree();
    let mut captures = BTreeMap::new();
    captures.insert(100, 200);
    captures.insert(X, 1);
    assert_eq!(tree.find_and_capture(&[1, 6, 3, 4], &mut captures), Some(&"B"));
    assert_eq!(captures.len(), 2);
    assert_eq!(captures.get(&100), Some(&200));
    assert_eq!(captures.get(&X), Some(&6));
}

#[test]
fn insertion_order_does_not_matter() {
    let mut a = PrefixTreeMapBuilder::new();
    let mut b = PrefixTreeMapBuilder::new();
    let paths: [[KeyPart<u64, u64>; 2]; 4] = [
        [KeyPart::Exact(9), KeyPart::Exact(1)],
        [KeyPart::Wildcard(3), KeyPart::Exact(1)],
        [KeyPart::Exact(2), KeyPart::Exact(1)],
        [KeyPart::Wildcard(8), KeyPart::Exact(2)],
    ];
    for (i, path) in paths.iter().enumerate() {
        a.insert(path, i);
    }
    for (i, path) in paths.iter().enumerate().rev() {
        b.insert(path, i);
    }
    let a = a.build();
    let b = b.build();
    for key in [[9u64, 1], [2, 1], [5, 1], [5, 2], [9, 2], [2, 3]] {
        assert_eq!(a.find(&key), b.find(&key));
        assert_eq!(a.find_exact(&key), b.find_exact(&key));
    }
    assert_eq!(a.find(&[9, 1]), Some(&0));
    assert_eq!(a.find(&[5, 1]), Some(&1));
    assert_eq!(a.find(&[9, 2]), Some(&3));
    assert_eq!(a.find(&[2, 3]), None);
}

#[test]
fn captures_bind_each_wildcard() {
    let mut builder = PrefixTreeMapBuilder::new();
    builder.insert(
        &[KeyPart::Wildcard(3), KeyPart::Exact(0), KeyPart::Wildcard(1)],
        "v",
    );
    let tree = builder.build();
    let mut captures = BTreeMap::new();
    assert_eq!(tree.find_and_capture(&[11, 0, 12], &mut captures), Some(&"v"));
    let bound: Vec<(u64, u64)> = captures.into_iter().collect();
    assert_eq!(bound, vec![(1, 12), (3, 11)]);
}

#[test]
fn later_capture_of_a_binder_wins() {
    let mut builder = PrefixTreeMapBuilder::new();
    builder.insert(&[KeyPart::Wildcard(1), KeyPart::Wildcard(1)], "twice");
    let tree = builder.build();
    let mut captures = BTreeMap::new();
    assert_eq!(tree.find_and_capture(&[5, 6], &mut captures), Some(&"twice"));
    assert_eq!(captures.len(), 1);
    assert_eq!(captures.get(&1), Some(&6));
}

#[test]
fn sink_trait_binds_through_btree_and_hash_maps() {
    let mut ordered: BTreeMap<u64, u64> = BTreeMap::new();
    Captures::insert(&mut ordered, 1, 2);
    Captures::insert(&mut ordered, 1, 3);
    assert_eq!(ordered.get(&1), Some(&3));
    let mut hashed: HashMap<u64, u64> = HashMap::new();
    Captures::insert(&mut hashed, 4, 5);
    assert_eq!(hashed.get(&4), Some(&5));
}

#[test]
fn default_builder_is_empty() {
    let mut builder: PrefixTreeMapBuilder<u64, u64, u32> = PrefixTreeMapBuilder::default();
    let empty = builder.clone().build();
    assert_eq!(empty.find(&[1]), None);
    builder.insert_exact(&[1], 5);
    let tree = builder.build();
    assert_eq!(tree.find(&[1]), Some(&5));
    assert_eq!(tree.clone().find_exact(&[1]), Some(&5));
}

use sleep_parser::tree::{full_roots, root_for_leaf_count};
use sleep_parser::{Entry, SleepError, Tree};

fn leaf_hash(tag: u8) -> [u8; 32] {
    let mut hash = [0u8; 32];
    hash[0] = tag;
    hash[31] = tag.wrapping_mul(3);
    hash
}

fn tree_with_leaves(count: u8) -> Tree {
    let mut tree = Tree::new();
    for tag in 0..count {
        tree.append_leaf(leaf_hash(tag), 100 + tag as u64);
    }
    tree
}

#[test]
fn append_grows_entry_count_by_leaves_plus_parents() {
    // entry count after k appends: k leaves plus the internal nodes
    // completed so far, and never decreasing
    let expected = [0usize, 1, 3, 4, 7, 8, 10, 11, 15];
    let mut tree = Tree::new();
    let mut previous = 0;
    for k in 0..=8u8 {
        assert_eq!(tree.entry_count(), expected[k as usize]);
        assert!(tree.entry_count() >= previous);
        previous = tree.entry_count();
        tree.append_leaf(leaf_hash(k), 100);
    }
}

#[test]
fn append_stores_the_leaf_entries() {
    let tree = tree_with_leaves(3);
    assert_eq!(tree.len(), 5);
    assert_eq!(tree.leaves(), 3);
    assert_eq!(tree.get(0), Some(Entry::new(leaf_hash(0), 100)));
    assert_eq!(tree.get(2), Some(Entry::new(leaf_hash(1), 101)));
    assert_eq!(tree.get(4), Some(Entry::new(leaf_hash(2), 102)));
    assert_eq!(tree.get(3), None);
    assert_eq!(tree.get(7), None);
}

#[test]
fn two_blocks_produce_one_parent_with_summed_length() {
    let mut tree = Tree::new();
    tree.append_leaf(leaf_hash(1), 4096);
    tree.append_leaf(leaf_hash(2), 4096);
    assert_eq!(tree.entry_count(), 3);
    let parent = tree.get(1).unwrap();
    assert_eq!(parent.byte_length, 8192);
}

#[test]
fn parent_hash_is_blake2b_of_child_hashes() {
    let mut tree = Tree::new();
    tree.append_leaf(leaf_hash(1), 10);
    tree.append_leaf(leaf_hash(2), 20);
    let parent = tree.get(1).unwrap();
    let mut joined = Vec::new();
    joined.extend_from_slice(&leaf_hash(1));
    joined.extend_from_slice(&leaf_hash(2));
    let expected = blake2b_simd::Params::new().hash_length(32).hash(&joined);
    assert_eq!(&parent.hash[..], expected.as_bytes());
    assert_eq!(parent.byte_length, 30);
}

#[test]
fn valid_trees_validate() {
    for count in 1..=8u8 {
        let tree = tree_with_leaves(count);
        for index in 0..tree.len() as u64 {
            if tree.get(index).is_some() {
                assert_eq!(tree.validate_subtree(index), Ok(()));
            }
        }
    }
}

#[test]
fn missing_nodes_are_incomplete() {
    let tree = tree_with_leaves(3);
    assert_eq!(tree.validate_subtree(3), Err(SleepError::IncompleteTree));
    assert_eq!(tree.validate_subtree(7), Err(SleepError::IncompleteTree));
    let empty = Tree::new();
    assert_eq!(empty.validate_subtree(0), Err(SleepError::IncompleteTree));
}

#[test]
fn every_single_bit_flip_in_parent_hash_is_caught() {
    let tree = tree_with_leaves(3);
    assert_eq!(tree.validate_subtree(1), Ok(()));
    for bit in 0..256 {
        let mut slots: Vec<Option<Entry>> = Vec::new();
        for index in 0..tree.len() as u64 {
            slots.push(tree.get(index));
        }
        let mut corrupted = slots[1].unwrap();
        corrupted.hash[bit / 8] ^= 1u8 << (bit % 8);
        slots[1] = Some(corrupted);
        let reloaded = Tree::from_entries(slots);
        assert_eq!(
            reloaded.validate_subtree(1),
            Err(SleepError::HashMismatch(1))
        );
    }
}

#[test]
fn corrupted_leaf_is_reported_at_its_parent() {
    let tree = tree_with_leaves(2);
    let mut slots: Vec<Option<Entry>> = Vec::new();
    for index in 0..tree.len() as u64 {
        slots.push(tree.get(index));
    }
    let mut corrupted = slots[0].unwrap();
    corrupted.hash[5] ^= 0x10;
    slots[0] = Some(corrupted);
    let reloaded = Tree::from_entries(slots);
    assert_eq!(
        reloaded.validate_subtree(1),
        Err(SleepError::HashMismatch(1))
    );
}

#[test]
fn validation_is_repeatable() {
    let tree = tree_with_leaves(4);
    let first = tree.validate_subtree(3);
    let second = tree.validate_subtree(3);
    assert_eq!(first, second);
    assert_eq!(first, Ok(()));

    let mut slots: Vec<Option<Entry>> = Vec::new();
    for index in 0..tree.len() as u64 {
        slots.push(tree.get(index));
    }
    let mut corrupted = slots[3].unwrap();
    corrupted.hash[0] ^= 1;
    slots[3] = Some(corrupted);
    let reloaded = Tree::from_entries(slots);
    let first = reloaded.validate_subtree(3);
    let second = reloaded.validate_subtree(3);
    assert_eq!(first, second);
    assert_eq!(first, Err(SleepError::HashMismatch(3)));
}

#[test]
fn single_roots_exist_only_for_power_of_two_leaf_counts() {
    assert_eq!(root_for_leaf_count(0), Err(SleepError::NoSingleRoot));
    assert_eq!(root_for_leaf_count(1), Ok(0));
    assert_eq!(root_for_leaf_count(2), Ok(1));
    assert_eq!(root_for_leaf_count(3), Err(SleepError::NoSingleRoot));
    assert_eq!(root_for_leaf_count(4), Ok(3));
    assert_eq!(root_for_leaf_count(5), Err(SleepError::NoSingleRoot));
    assert_eq!(root_for_leaf_count(6), Err(SleepError::NoSingleRoot));
    assert_eq!(root_for_leaf_count(8), Ok(7));
    assert_eq!(root_for_leaf_count(1 << 20), Ok((1 << 20) - 1));
}

#[test]
fn full_roots_enumerates_left_to_right() {
    assert_eq!(full_roots(0), Vec::<u64>::new());
    assert_eq!(full_roots(1), vec![0]);
    assert_eq!(full_roots(2), vec![1]);
    assert_eq!(full_roots(3), vec![1, 4]);
    assert_eq!(full_roots(4), vec![3]);
    assert_eq!(full_roots(5), vec![3, 8]);
    assert_eq!(full_roots(6), vec![3, 9]);
    assert_eq!(full_roots(7), vec![3, 9, 12]);
    assert_eq!(full_roots(8), vec![7]);
}

#[test]
fn reloaded_tree_matches_built_tree() {
    let tree = tree_with_leaves(5);
    let mut slots: Vec<Option<Entry>> = Vec::new();
    for index in 0..tree.len() as u64 {
        slots.push(tree.get(index));
    }
    let reloaded = Tree::from_entries(slots);
    assert_eq!(reloaded.len(), tree.len());
    assert_eq!(reloaded.entry_count(), tree.entry_count());
    for index in 0..tree.len() as u64 {
        assert_eq!(reloaded.get(index), tree.get(index));
    }
}

use sleep_parser::flat_tree::{children, depth, offset, parent, sibling, spanning_leaf_range};
use sleep_parser::SleepError;

#[test]
fn depth_of_small_indices() {
    assert_eq!(depth(0), 0);
    assert_eq!(depth(1), 1);
    assert_eq!(depth(2), 0);
    assert_eq!(depth(3), 2);
    assert_eq!(depth(4), 0);
    assert_eq!(depth(5), 1);
    assert_eq!(depth(6), 0);
    assert_eq!(depth(7), 3);
    assert_eq!(depth(u64::MAX), 64);
}

#[test]
fn leaves_have_depth_zero() {
    for leaf in 0..500u64 {
        assert_eq!(depth(2 * leaf), 0);
    }
}

#[test]
fn offset_of_small_indices() {
    assert_eq!(offset(0), 0);
    assert_eq!(offset(1), 0);
    assert_eq!(offset(2), 1);
    assert_eq!(offset(3), 0);
    assert_eq!(offset(4), 2);
    assert_eq!(offset(5), 1);
    assert_eq!(offset(7), 0);
    assert_eq!(offset(9), 2);
}

#[test]
fn parent_of_small_indices() {
    assert_eq!(parent(0), Ok(1));
    assert_eq!(parent(2), Ok(1));
    assert_eq!(parent(1), Ok(3));
    assert_eq!(parent(4), Ok(5));
    assert_eq!(parent(6), Ok(5));
    assert_eq!(parent(5), Ok(3));
    assert_eq!(parent(3), Ok(7));
    assert_eq!(parent(u64::MAX), Err(SleepError::InvalidIndex));
}

#[test]
fn sibling_of_small_indices() {
    assert_eq!(sibling(0), Ok(2));
    assert_eq!(sibling(2), Ok(0));
    assert_eq!(sibling(1), Ok(5));
    assert_eq!(sibling(5), Ok(1));
    assert_eq!(sibling(3), Ok(11));
    assert_eq!(sibling(u64::MAX), Err(SleepError::InvalidIndex));
}

#[test]
fn sibling_twice_leads_back() {
    for index in 0..2000u64 {
        let s = sibling(index).unwrap();
        assert_eq!(sibling(s), Ok(index));
    }
}

#[test]
fn sibling_shares_the_parent() {
    for index in 0..2000u64 {
        let s = sibling(index).unwrap();
        assert_eq!(parent(s), parent(index));
    }
}

#[test]
fn parent_contains_the_child() {
    for index in 0..2000u64 {
        let p = parent(index).unwrap();
        let (left, right) = children(p).unwrap();
        assert!(left == index || right == index);
        assert_eq!(depth(p), depth(index) + 1);
    }
}

#[test]
fn children_of_small_indices() {
    assert_eq!(children(1), Ok((0, 2)));
    assert_eq!(children(3), Ok((1, 5)));
    assert_eq!(children(5), Ok((4, 6)));
    assert_eq!(children(7), Ok((3, 11)));
    assert_eq!(children(0), Err(SleepError::LeafHasNoChildren));
    assert_eq!(children(8), Err(SleepError::LeafHasNoChildren));
    assert_eq!(children(u64::MAX), Err(SleepError::InvalidIndex));
}

#[test]
fn spanning_ranges_of_small_indices() {
    assert_eq!(spanning_leaf_range(0), Ok((0, 0)));
    assert_eq!(spanning_leaf_range(1), Ok((0, 2)));
    assert_eq!(spanning_leaf_range(2), Ok((2, 2)));
    assert_eq!(spanning_leaf_range(3), Ok((0, 6)));
    assert_eq!(spanning_leaf_range(5), Ok((4, 6)));
    assert_eq!(spanning_leaf_range(7), Ok((0, 14)));
}

#[test]
fn span_covers_the_node_itself() {
    for index in 0..2000u64 {
        let (first, last) = spanning_leaf_range(index).unwrap();
        assert!(first <= index && index <= last);
        assert_eq!(first % 2, 0);
        assert_eq!(last % 2, 0);
    }
}

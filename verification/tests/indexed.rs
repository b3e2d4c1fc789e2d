use btt::indexed::{node_at, path_sum_within};
use btt::{traverse_chase_loop_vec, traverse_chase_option, traverse_heapless};
use btt::{IndexedNode, TraverseError};

fn put(store: &mut Vec<IndexedNode>, node: IndexedNode) -> u32 {
    store.push(node);
    (store.len() - 1) as u32
}

fn leaf(store: &mut Vec<IndexedNode>, value: u32) -> u32 {
    put(store, IndexedNode::Leaf(value))
}

fn branch(store: &mut Vec<IndexedNode>, left: u32, right: u32) -> u32 {
    put(store, IndexedNode::Branch(left, right))
}

fn left_spine(store: &mut Vec<IndexedNode>, depth: u32) -> u32 {
    let one = leaf(store, 1);
    let mut top = one;
    for _ in 0..depth {
        top = branch(store, top, one);
    }
    top
}

fn all_three(store: &[IndexedNode], root: u32) -> [Result<u32, TraverseError>; 3] {
    [
        traverse_heapless::traverse_stack(store, root),
        traverse_chase_option::traverse_stack(store, root),
        traverse_chase_loop_vec::traverse_stack(store, root),
    ]
}

#[test]
fn indexed_sample_tree_sums_to_21() {
    let mut store = vec![];
    let one = leaf(&mut store, 1);
    let two = leaf(&mut store, 2);
    let branch_2 = branch(&mut store, one, two);
    let branch_4 = branch(&mut store, branch_2, branch_2);
    let branch_8 = branch(&mut store, branch_4, branch_4);
    let inner = branch(&mut store, branch_4, branch_2);
    let root = branch(&mut store, branch_8, inner);
    assert_eq!(all_three(&store, branch_2), [Ok(3); 3]);
    assert_eq!(all_three(&store, branch_4), [Ok(6); 3]);
    assert_eq!(all_three(&store, branch_8), [Ok(12); 3]);
    assert_eq!(all_three(&store, root), [Ok(21); 3]);
}

#[test]
fn indexed_leaf_root_returns_its_value() {
    let store = vec![IndexedNode::Leaf(7)];
    assert_eq!(all_three(&store, 0), [Ok(7); 3]);
}

#[test]
fn indexed_position_past_the_end_is_missing() {
    let store = vec![IndexedNode::Leaf(7), IndexedNode::Branch(0, 5)];
    assert_eq!(all_three(&store, 2), [Err(TraverseError::MissingNode); 3]);
    assert_eq!(all_three(&store, 1), [Err(TraverseError::MissingNode); 3]);
    assert_eq!(all_three(&[], 0), [Err(TraverseError::MissingNode); 3]);
}

#[test]
fn indexed_capacity_boundaries() {
    let mut store = vec![];
    let d31 = left_spine(&mut store, 31);
    assert_eq!(all_three(&store, d31), [Ok(32); 3]);

    let mut store = vec![];
    let d32 = left_spine(&mut store, 32);
    assert_eq!(
        traverse_heapless::traverse_stack(&store, d32),
        Err(TraverseError::CapacityExceeded)
    );
    assert_eq!(traverse_chase_option::traverse_stack(&store, d32), Ok(33));
    assert_eq!(traverse_chase_loop_vec::traverse_stack(&store, d32), Ok(33));

    let mut store = vec![];
    let d33 = left_spine(&mut store, 33);
    assert_eq!(
        traverse_chase_option::traverse_stack(&store, d33),
        Err(TraverseError::CapacityExceeded)
    );
    assert_eq!(traverse_chase_loop_vec::traverse_stack(&store, d33), Ok(34));
}

#[test]
fn node_at_reads_within_the_slice_only() {
    let store = vec![IndexedNode::Leaf(7), IndexedNode::Branch(0, 0)];
    assert_eq!(node_at(&store, 0), Some(&IndexedNode::Leaf(7)));
    assert_eq!(node_at(&store, 1), Some(&IndexedNode::Branch(0, 0)));
    assert_eq!(node_at(&store, 2), None);
    assert_eq!(node_at(&store, u32::MAX), None);
}

#[test]
fn indexed_path_sum_within_checks_depth_and_size() {
    let mut store = vec![];
    let root = left_spine(&mut store, 5);
    assert_eq!(path_sum_within(&store, root, 5), Some(6));
    assert_eq!(path_sum_within(&store, root, 64), Some(6));
    assert_eq!(path_sum_within(&store, root, 4), None);

    // A branch that names itself never ends.
    let cyclic = vec![IndexedNode::Branch(0, 0)];
    assert_eq!(path_sum_within(&cyclic, 0, 10), None);

    // Two leaves that together exceed 32 bits.
    let big = vec![IndexedNode::Leaf(u32::MAX), IndexedNode::Leaf(1), IndexedNode::Branch(0, 1)];
    assert_eq!(path_sum_within(&big, 2, 8), None);
    assert_eq!(path_sum_within(&big, 0, 8), Some(u32::MAX));

    // A position past the end counts as nothing.
    assert_eq!(path_sum_within(&big, 9, 0), Some(0));
}

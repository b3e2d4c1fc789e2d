//! Trees kept in a slice, each node named by its position.

use vstd::prelude::*;
use crate::model::{acyclic_from, bounded, height, leaves, path_sum, Shape, StackPolicy};
use crate::unfold::{lemma_bound_irrelevant, lemma_leaves_nonnegative};

verus! {

/// A node of a tree kept in a slice: a branch names its two children by
/// their positions, a leaf carries a value.
#[derive(Clone, Copy, Debug, PartialEq, Eq)]
pub enum IndexedNode {
    Branch(u32, u32),
    Leaf(u32),
}

impl View for IndexedNode {
    type V = Shape<u32>;

    open spec fn view(&self) -> Shape<u32> {
        match *self {
            IndexedNode::Branch(l, r) => Shape::Branch(l, r),
            IndexedNode::Leaf(v) => Shape::Leaf(v),
        }
    }
}

/// The mapping that a slice of nodes stands for: each position within the
/// slice is a key, and no other.
pub open spec fn graph(nodes: Seq<IndexedNode>) -> Map<u32, Shape<u32>> {
    Map::new(|at: u32| (at as int) < nodes.len(), |at: u32| nodes[at as int]@)
}

/// The node at position `at`, or `None` where the slice ends before it.
pub fn node_at(store: &[IndexedNode], at: u32) -> (found: Option<&IndexedNode>)
    ensures
        match found {
            Some(node) => graph(store@).contains_key(at) && graph(store@)[at] == node@,
            None => !graph(store@).contains_key(at),
        },
{
    if (at as usize) < store.len() {
        Some(&store[at as usize])
    } else {
        None
    }
}

/// The sum of the leaf values over every path from `root`, where every such
/// path ends after at most `levels` branches and the sum fits in 32 bits;
/// `None` elsewhere. A traversal may start at a root for which this returns
/// a sum.
pub fn path_sum_within(store: &[IndexedNode], root: u32, levels: u32) -> (total: Option<u32>)
    ensures
        total is Some <==> bounded(graph(store@), root, levels as nat) && leaves(
            graph(store@),
            root,
            levels as nat,
        ) <= u32::MAX,
        total matches Some(sum) ==> sum == leaves(graph(store@), root, levels as nat)
            && acyclic_from(graph(store@), root) && sum == path_sum(graph(store@), root),
    decreases levels,
{
    let total = match node_at(store, root) {
        None => Some(0),
        Some(IndexedNode::Leaf(value)) => Some(*value),
        Some(IndexedNode::Branch(l, r)) => {
            if levels == 0 {
                return None;
            }
            proof {
                lemma_leaves_nonnegative(graph(store@), *l, (levels - 1) as nat);
                lemma_leaves_nonnegative(graph(store@), *r, (levels - 1) as nat);
            }
            let left = match path_sum_within(store, *l, levels - 1) {
                Some(left) => left,
                None => {
                    return None;
                },
            };
            let right = match path_sum_within(store, *r, levels - 1) {
                Some(right) => right,
                None => {
                    return None;
                },
            };
            left.checked_add(right)
        },
    };
    proof {
        if total is Some {
            lemma_bound_irrelevant(
                graph(store@),
                root,
                levels as nat,
                height(graph(store@), root),
                0,
                StackPolicy { slots: 1, capacity: None },
            );
        }
    }
    total
}

} // verus!

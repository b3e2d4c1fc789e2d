//! Cursor-driven traversal of a tree kept in a slice, on a stack of fixed
//! capacity.

use vstd::prelude::*;
use crate::indexed::{graph, node_at, IndexedNode};
use crate::model::{
    acyclic_from, as_outcome, drain_visits, outcome, path_sum, StackPolicy, TraverseError,
};
use crate::steps::{
    ahead, lemma_finished, lemma_start, lemma_visit_branch, lemma_visit_leaf, lemma_visit_missing,
    on_course,
};
use crate::bounded_stack::{
    index_stack_items, index_stack_new, index_stack_pop, index_stack_push, STACK_CAPACITY,
};

verus! {

/// How [`traverse_stack`] uses its stack: one entry for a branch, 32 in all.
pub open spec fn policy() -> StackPolicy {
    StackPolicy { slots: 1, capacity: Some(STACK_CAPACITY as nat) }
}

/// The sum of the leaf values over every path from `root`, or the first error
/// that the traversal meets. The position to visit next is kept in a cursor;
/// the right child of a branch is deferred on a stack of fixed capacity, and
/// the stack is popped only after a leaf.
pub fn traverse_stack(store: &[IndexedNode], root: u32) -> (result: Result<u32, TraverseError>)
    requires
        acyclic_from(graph(store@), root),
        path_sum(graph(store@), root) <= u32::MAX,
    ensures
        as_outcome(result) == outcome(graph(store@), root, policy()),
        result matches Ok(sum) ==> sum == path_sum(graph(store@), root),
{
    let ghost g = graph(store@);
    let mut stack = index_stack_new();
    let mut cursor = Some(root);
    let mut sum: u32 = 0;
    proof {
        lemma_start(g, root, policy());
    }
    loop
        invariant
            g == graph(store@),
            on_course(g, root, policy(), sum as int, ahead(index_stack_items(stack), cursor)),
            cursor is None ==> index_stack_items(stack).len() == 0,
            path_sum(g, root) <= u32::MAX,
        decreases drain_visits(g, ahead(index_stack_items(stack), cursor)),
    {
        let current = match cursor {
            Some(current) => current,
            None => {
                proof {
                    assert(index_stack_items(stack) =~= Seq::<u32>::empty());
                    lemma_finished(g, root, policy(), sum as int);
                }
                return Ok(sum);
            },
        };
        let ghost rest = index_stack_items(stack);
        match node_at(store, current) {
            None => {
                proof {
                    lemma_visit_missing(g, root, policy(), sum as int, rest, current);
                }
                return Err(TraverseError::MissingNode);
            },
            Some(IndexedNode::Leaf(n)) => {
                proof {
                    lemma_visit_leaf(g, root, policy(), sum as int, rest, current, *n);
                }
                sum += *n;
                cursor = index_stack_pop(&mut stack);
                assert(ahead(index_stack_items(stack), cursor) =~= rest);
            },
            Some(IndexedNode::Branch(l, r)) => {
                proof {
                    lemma_visit_branch(g, root, policy(), sum as int, rest, current, *l, *r);
                }
                if index_stack_push(&mut stack, *r).is_err() {
                    return Err(TraverseError::CapacityExceeded);
                }
                cursor = Some(*l);
            },
        }
    }
}

} // verus!

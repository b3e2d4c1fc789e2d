//! Push-both traversal of a tree kept in a slice, on a stack of fixed
//! capacity.

use vstd::prelude::*;
use crate::indexed::{graph, node_at, IndexedNode};
use crate::model::{
    acyclic_from, as_outcome, drain_visits, outcome, path_sum, StackPolicy, TraverseError,
};
use crate::steps::{
    lemma_finished, lemma_start, lemma_visit_branch, lemma_visit_leaf, lemma_visit_missing,
    on_course,
};
use crate::bounded_stack::{
    index_stack_items, index_stack_new, index_stack_pop, index_stack_push, STACK_CAPACITY,
};

verus! {

/// How [`traverse_stack`] uses its stack: two entries for a branch, 32 in
/// all.
pub open spec fn policy() -> StackPolicy {
    StackPolicy { slots: 2, capacity: Some(STACK_CAPACITY as nat) }
}

/// The sum of the leaf values over every path from `root`, or the first error
/// that the traversal meets. Both children of a branch are pushed on a stack
/// of fixed capacity.
pub fn traverse_stack(store: &[IndexedNode], root: u32) -> (result: Result<u32, TraverseError>)
    requires
        acyclic_from(graph(store@), root),
        path_sum(graph(store@), root) <= u32::MAX,
    ensures
        as_outcome(result) == outcome(graph(store@), root, policy()),
        result matches Ok(sum) ==> sum == path_sum(graph(store@), root),
{
    let ghost g = graph(store@);
    let mut stack = index_stack_new();
    let _ = index_stack_push(&mut stack, root);
    let mut sum: u32 = 0;
    proof {
        lemma_start(g, root, policy());
    }
    loop
        invariant
            g == graph(store@),
            on_course(g, root, policy(), sum as int, index_stack_items(stack)),
            path_sum(g, root) <= u32::MAX,
        decreases drain_visits(g, index_stack_items(stack)),
    {
        let ghost before = index_stack_items(stack);
        let node = match index_stack_pop(&mut stack) {
            Some(node) => node,
            None => {
                proof {
                    assert(index_stack_items(stack) =~= Seq::<u32>::empty());
                    lemma_finished(g, root, policy(), sum as int);
                }
                return Ok(sum);
            },
        };
        let ghost rest = index_stack_items(stack);
        assert(before =~= rest.push(node));
        match node_at(store, node) {
            None => {
                proof {
                    lemma_visit_missing(g, root, policy(), sum as int, rest, node);
                }
                return Err(TraverseError::MissingNode);
            },
            Some(IndexedNode::Leaf(n)) => {
                proof {
                    lemma_visit_leaf(g, root, policy(), sum as int, rest, node, *n);
                }
                sum += *n;
            },
            Some(IndexedNode::Branch(l, r)) => {
                proof {
                    lemma_visit_branch(g, root, policy(), sum as int, rest, node, *l, *r);
                }
                if index_stack_push(&mut stack, *r).is_err() {
                    return Err(TraverseError::CapacityExceeded);
                }
                if index_stack_push(&mut stack, *l).is_err() {
                    return Err(TraverseError::CapacityExceeded);
                }
            },
        }
    }
}

} // verus!

//! Chase-left traversal of a tree kept in a slice, on a stack that grows.

use vstd::prelude::*;
use crate::indexed::{graph, node_at, IndexedNode};
use crate::model::{
    acyclic_from, as_outcome, drain_visits, outcome, path_sum, StackPolicy, TraverseError,
};
use crate::steps::{
    lemma_finished, lemma_start, lemma_visit_branch, lemma_visit_leaf, lemma_visit_missing,
    on_course,
};

verus! {

/// How [`traverse_stack`] uses its stack: one entry for a branch, and no
/// limit.
pub open spec fn policy() -> StackPolicy {
    StackPolicy { slots: 1, capacity: None }
}

/// The sum of the leaf values over every path from `root`, or
/// `MissingNode` where the traversal visits a position past the end of the
/// slice. The right child of a branch is deferred on a stack that grows, and
/// an inner loop goes on with the left child.
pub fn traverse_stack(store: &[IndexedNode], root: u32) -> (result: Result<u32, TraverseError>)
    requires
        acyclic_from(graph(store@), root),
        path_sum(graph(store@), root) <= u32::MAX,
    ensures
        as_outcome(result) == outcome(graph(store@), root, policy()),
        result matches Ok(sum) ==> sum == path_sum(graph(store@), root),
{
    let ghost g = graph(store@);
    let mut stack: Vec<u32> = Vec::with_capacity(32);
    stack.push(root);
    let mut sum: u32 = 0;
    proof {
        lemma_start(g, root, policy());
    }
    loop
        invariant
            g == graph(store@),
            on_course(g, root, policy(), sum as int, stack@),
            path_sum(g, root) <= u32::MAX,
        decreases drain_visits(g, stack@),
    {
        let ghost before = stack@;
        let mut node = match stack.pop() {
            Some(node) => node,
            None => {
                proof {
                    assert(stack@ =~= Seq::<u32>::empty());
                    lemma_finished(g, root, policy(), sum as int);
                }
                return Ok(sum);
            },
        };
        assert(before =~= stack@.push(node));
        loop
            invariant_except_break
                on_course(g, root, policy(), sum as int, stack@.push(node)),
                drain_visits(g, stack@.push(node)) <= drain_visits(g, before),
            invariant
                g == graph(store@),
                path_sum(g, root) <= u32::MAX,
            ensures
                on_course(g, root, policy(), sum as int, stack@),
                drain_visits(g, stack@) < drain_visits(g, before),
            decreases drain_visits(g, stack@.push(node)),
        {
            let ghost rest = stack@;
            match node_at(store, node) {
                None => {
                    proof {
                        lemma_visit_missing(g, root, policy(), sum as int, rest, node);
                    }
                    return Err(TraverseError::MissingNode);
                },
                Some(IndexedNode::Leaf(n)) => {
                    proof {
                        lemma_visit_leaf(g, root, policy(), sum as int, rest, node, *n);
                    }
                    sum += *n;
                    break;
                },
                Some(IndexedNode::Branch(l, r)) => {
                    proof {
                        lemma_visit_branch(g, root, policy(), sum as int, rest, node, *l, *r);
                    }
                    stack.push(*r);
                    node = *l;
                },
            }
        }
    }
}

} // verus!

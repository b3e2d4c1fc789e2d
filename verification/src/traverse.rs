//! The six traversals.

use vstd::prelude::*;
use crate::model::{
    acyclic_from, as_outcome, bounded, drain_visits, height, leaves, outcome, path_sum,
    StackPolicy, TraverseError,
};
use crate::steps::{
    ahead, lemma_finished, lemma_start, lemma_visit_branch, lemma_visit_leaf, lemma_visit_missing,
    on_course,
};
use crate::bounded_stack::{stack_items, stack_new, stack_pop, stack_push, STACK_CAPACITY};
use crate::store::{Digest, Node, Store};
use crate::unfold::{lemma_bound_irrelevant, lemma_leaves_nonnegative};

verus! {

/// A way of summing the leaf values that are reachable from a root.
///
/// The caller sees to it that no path from `root` runs forever and that the
/// leaf values, each counted once for every path that reaches it, add up to
/// no more than `u32::MAX`. The traversal then returns what the model assigns
/// to its stack policy: the sum, or the first error that a depth-first,
/// left-to-right visit meets.
pub trait Traverse {
    /// How this traversal uses its stack.
    spec fn policy(&self) -> StackPolicy;

    fn traverse_sum(&self, store: &Store, root: Digest) -> (result: Result<u32, TraverseError>)
        requires
            acyclic_from(store@, root),
            path_sum(store@, root) <= u32::MAX,
        ensures
            as_outcome(result) == outcome(store@, root, self.policy()),
            result matches Ok(sum) ==> sum == path_sum(store@, root),
    ;
}

/// Pushes both children of a branch on a stack that grows.
pub struct Simple;

impl Traverse for Simple {
    open spec fn policy(&self) -> StackPolicy {
        StackPolicy { slots: 2, capacity: None }
    }

    fn traverse_sum(&self, store: &Store, root: Digest) -> (result: Result<u32, TraverseError>) {
        let mut stack: Vec<Digest> = Vec::with_capacity(32);
        stack.push(root);
        let mut sum: u32 = 0;
        proof {
            lemma_start(store@, root, self.policy());
            assert(stack@ =~= Seq::<Digest>::empty().push(root));
        }
        loop
            invariant
                on_course(store@, root, self.policy(), sum as int, stack@),
                path_sum(store@, root) <= u32::MAX,
            decreases drain_visits(store@, stack@),
        {
            let ghost before = stack@;
            let node = match stack.pop() {
                Some(node) => node,
                None => {
                    proof {
                        assert(stack@ =~= Seq::<Digest>::empty());
                        lemma_finished(store@, root, self.policy(), sum as int);
                    }
                    return Ok(sum);
                },
            };
            assert(before =~= stack@.push(node));
            match store.get(&node) {
                None => {
                    proof {
                        lemma_visit_missing(store@, root, self.policy(), sum as int, stack@, node);
                    }
                    return Err(TraverseError::MissingNode);
                },
                Some(Node::Leaf(n)) => {
                    proof {
                        lemma_visit_leaf(store@, root, self.policy(), sum as int, stack@, node, *n);
                    }
                    sum += *n;
                },
                Some(Node::Branch(l, r)) => {
                    proof {
                        lemma_visit_branch(
                            store@,
                            root,
                            self.policy(),
                            sum as int,
                            stack@,
                            node,
                            *l,
                            *r,
                        );
                    }
                    stack.push(*r);
                    stack.push(*l);
                },
            }
        }
    }
}

/// Pushes both children of a branch on a stack of fixed capacity.
pub struct Heapless;

impl Traverse for Heapless {
    open spec fn policy(&self) -> StackPolicy {
        StackPolicy { slots: 2, capacity: Some(STACK_CAPACITY as nat) }
    }

    fn traverse_sum(&self, store: &Store, root: Digest) -> (result: Result<u32, TraverseError>) {
        let mut stack = stack_new();
        let _ = stack_push(&mut stack, root);
        let mut sum: u32 = 0;
        proof {
            lemma_start(store@, root, self.policy());
        }
        loop
            invariant
                on_course(store@, root, self.policy(), sum as int, stack_items(stack)),
                path_sum(store@, root) <= u32::MAX,
            decreases drain_visits(store@, stack_items(stack)),
        {
            let ghost before = stack_items(stack);
            let node = match stack_pop(&mut stack) {
                Some(node) => node,
                None => {
                    proof {
                        assert(stack_items(stack) =~= Seq::<Digest>::empty());
                        lemma_finished(store@, root, self.policy(), sum as int);
                    }
                    return Ok(sum);
                },
            };
            let ghost rest = stack_items(stack);
            assert(before =~= rest.push(node));
            match store.get(&node) {
                None => {
                    proof {
                        lemma_visit_missing(store@, root, self.policy(), sum as int, rest, node);
                    }
                    return Err(TraverseError::MissingNode);
                },
                Some(Node::Leaf(n)) => {
                    proof {
                        lemma_visit_leaf(store@, root, self.policy(), sum as int, rest, node, *n);
                    }
                    sum += *n;
                },
                Some(Node::Branch(l, r)) => {
                    proof {
                        lemma_visit_branch(
                            store@,
                            root,
                            self.policy(),
                            sum as int,
                            rest,
                            node,
                            *l,
                            *r,
                        );
                    }
                    if stack_push(&mut stack, *r).is_err() {
                        return Err(TraverseError::CapacityExceeded);
                    }
                    if stack_push(&mut stack, *l).is_err() {
                        return Err(TraverseError::CapacityExceeded);
                    }
                },
            }
        }
    }
}

/// Defers the right child of a branch on a stack of fixed capacity and goes
/// on with the left child in an inner loop.
pub struct HeaplessLoop;

impl Traverse for HeaplessLoop {
    open spec fn policy(&self) -> StackPolicy {
        StackPolicy { slots: 1, capacity: Some(STACK_CAPACITY as nat) }
    }

    fn traverse_sum(&self, store: &Store, root: Digest) -> (result: Result<u32, TraverseError>) {
        let mut stack = stack_new();
        let _ = stack_push(&mut stack, root);
        let mut sum: u32 = 0;
        proof {
            lemma_start(store@, root, self.policy());
        }
        loop
            invariant
                on_course(store@, root, self.policy(), sum as int, stack_items(stack)),
                path_sum(store@, root) <= u32::MAX,
            decreases drain_visits(store@, stack_items(stack)),
        {
            let ghost before = stack_items(stack);
            let mut node = match stack_pop(&mut stack) {
                Some(node) => node,
                None => {
                    proof {
                        assert(stack_items(stack) =~= Seq::<Digest>::empty());
                        lemma_finished(store@, root, self.policy(), sum as int);
                    }
                    return Ok(sum);
                },
            };
            assert(before =~= stack_items(stack).push(node));
            loop
                invariant_except_break
                    on_course(
                        store@,
                        root,
                        self.policy(),
                        sum as int,
                        stack_items(stack).push(node),
                    ),
                    drain_visits(store@, stack_items(stack).push(node))
                        <= drain_visits(store@, before),
                invariant
                    path_sum(store@, root) <= u32::MAX,
                ensures
                    on_course(store@, root, self.policy(), sum as int, stack_items(stack)),
                    drain_visits(store@, stack_items(stack)) < drain_visits(store@, before),
                decreases drain_visits(store@, stack_items(stack).push(node)),
            {
                let ghost rest = stack_items(stack);
                match store.get(&node) {
                    None => {
                        proof {
                            lemma_visit_missing(
                                store@,
                                root,
                                self.policy(),
                                sum as int,
                                rest,
                                node,
                            );
                        }
                        return Err(TraverseError::MissingNode);
                    },
                    Some(Node::Leaf(n)) => {
                        proof {
                            lemma_visit_leaf(
                                store@,
                                root,
                                self.policy(),
                                sum as int,
                                rest,
                                node,
                                *n,
                            );
                        }
                        sum += *n;
                        break;
                    },
                    Some(Node::Branch(l, r)) => {
                        proof {
                            lemma_visit_branch(
                                store@,
                                root,
                                self.policy(),
                                sum as int,
                                rest,
                                node,
                                *l,
                                *r,
                            );
                        }
                        if stack_push(&mut stack, *r).is_err() {
                            return Err(TraverseError::CapacityExceeded);
                        }
                        node = *l;
                    },
                }
            }
        }
    }
}

/// Keeps the key to visit next in a cursor, defers the right child of a
/// branch on a stack of fixed capacity, and pops only after a leaf.
pub struct HeaplessOption;

impl Traverse for HeaplessOption {
    open spec fn policy(&self) -> StackPolicy {
        StackPolicy { slots: 1, capacity: Some(STACK_CAPACITY as nat) }
    }

    fn traverse_sum(&self, store: &Store, root: Digest) -> (result: Result<u32, TraverseError>) {
        let mut stack = stack_new();
        let mut cursor = Some(root);
        let mut sum: u32 = 0;
        proof {
            lemma_start(store@, root, self.policy());
        }
        loop
            invariant
                on_course(
                    store@,
                    root,
                    self.policy(),
                    sum as int,
                    ahead(stack_items(stack), cursor),
                ),
                cursor is None ==> stack_items(stack).len() == 0,
                path_sum(store@, root) <= u32::MAX,
            decreases drain_visits(store@, ahead(stack_items(stack), cursor)),
        {
            let current = match cursor {
                Some(current) => current,
                None => {
                    proof {
                        assert(stack_items(stack) =~= Seq::<Digest>::empty());
                        lemma_finished(store@, root, self.policy(), sum as int);
                    }
                    return Ok(sum);
                },
            };
            let ghost rest = stack_items(stack);
            match store.get(&current) {
                None => {
                    proof {
                        lemma_visit_missing(store@, root, self.policy(), sum as int, rest, current);
                    }
                    return Err(TraverseError::MissingNode);
                },
                Some(Node::Leaf(n)) => {
                    proof {
                        lemma_visit_leaf(
                            store@,
                            root,
                            self.policy(),
                            sum as int,
                            rest,
                            current,
                            *n,
                        );
                    }
                    sum += *n;
                    cursor = stack_pop(&mut stack);
                    assert(ahead(stack_items(stack), cursor) =~= rest);
                },
                Some(Node::Branch(l, r)) => {
                    proof {
                        lemma_visit_branch(
                            store@,
                            root,
                            self.policy(),
                            sum as int,
                            rest,
                            current,
                            *l,
                            *r,
                        );
                    }
                    if stack_push(&mut stack, *r).is_err() {
                        return Err(TraverseError::CapacityExceeded);
                    }
                    cursor = Some(*l);
                },
            }
        }
    }
}

/// Defers the right child of a branch on a stack that grows and goes on with
/// the left child in an inner loop.
pub struct VecLoop;

impl Traverse for VecLoop {
    open spec fn policy(&self) -> StackPolicy {
        StackPolicy { slots: 1, capacity: None }
    }

    fn traverse_sum(&self, store: &Store, root: Digest) -> (result: Result<u32, TraverseError>) {
        let mut stack: Vec<Digest> = Vec::with_capacity(32);
        stack.push(root);
        let mut sum: u32 = 0;
        proof {
            lemma_start(store@, root, self.policy());
        }
        loop
            invariant
                on_course(store@, root, self.policy(), sum as int, stack@),
                path_sum(store@, root) <= u32::MAX,
            decreases drain_visits(store@, stack@),
        {
            let ghost before = stack@;
            let mut node = match stack.pop() {
                Some(node) => node,
                None => {
                    proof {
                        assert(stack@ =~= Seq::<Digest>::empty());
                        lemma_finished(store@, root, self.policy(), sum as int);
                    }
                    return Ok(sum);
                },
            };
            assert(before =~= stack@.push(node));
            loop
                invariant_except_break
                    on_course(store@, root, self.policy(), sum as int, stack@.push(node)),
                    drain_visits(store@, stack@.push(node)) <= drain_visits(store@, before),
                invariant
                    path_sum(store@, root) <= u32::MAX,
                ensures
                    on_course(store@, root, self.policy(), sum as int, stack@),
                    drain_visits(store@, stack@) < drain_visits(store@, before),
                decreases drain_visits(store@, stack@.push(node)),
            {
                let ghost rest = stack@;
                match store.get(&node) {
                    None => {
                        proof {
                            lemma_visit_missing(
                                store@,
                                root,
                                self.policy(),
                                sum as int,
                                rest,
                                node,
                            );
                        }
                        return Err(TraverseError::MissingNode);
                    },
                    Some(Node::Leaf(n)) => {
                        proof {
                            lemma_visit_leaf(
                                store@,
                                root,
                                self.policy(),
                                sum as int,
                                rest,
                                node,
                                *n,
                            );
                        }
                        sum += *n;
                        break;
                    },
                    Some(Node::Branch(l, r)) => {
                        proof {
                            lemma_visit_branch(
                                store@,
                                root,
                                self.policy(),
                                sum as int,
                                rest,
                                node,
                                *l,
                                *r,
                            );
                        }
                        stack.push(*r);
                        node = *l;
                    },
                }
            }
        }
    }
}

/// Keeps the key to visit next in a cursor, defers the right child of a
/// branch on a stack that grows, and pops only after a leaf.
pub struct VecOption;

impl Traverse for VecOption {
    open spec fn policy(&self) -> StackPolicy {
        StackPolicy { slots: 1, capacity: None }
    }

    fn traverse_sum(&self, store: &Store, root: Digest) -> (result: Result<u32, TraverseError>) {
        let mut stack: Vec<Digest> = Vec::with_capacity(32);
        let mut cursor = Some(root);
        let mut sum: u32 = 0;
        proof {
            lemma_start(store@, root, self.policy());
        }
        loop
            invariant
                on_course(store@, root, self.policy(), sum as int, ahead(stack@, cursor)),
                cursor is None ==> stack@.len() == 0,
                path_sum(store@, root) <= u32::MAX,
            decreases drain_visits(store@, ahead(stack@, cursor)),
        {
            let current = match cursor {
                Some(current) => current,
                None => {
                    proof {
                        assert(stack@ =~= Seq::<Digest>::empty());
                        lemma_finished(store@, root, self.policy(), sum as int);
                    }
                    return Ok(sum);
                },
            };
            let ghost rest = stack@;
            match store.get(&current) {
                None => {
                    proof {
                        lemma_visit_missing(store@, root, self.policy(), sum as int, rest, current);
                    }
                    return Err(TraverseError::MissingNode);
                },
                Some(Node::Leaf(n)) => {
                    proof {
                        lemma_visit_leaf(
                            store@,
                            root,
                            self.policy(),
                            sum as int,
                            rest,
                            current,
                            *n,
                        );
                    }
                    sum += *n;
                    cursor = stack.pop();
                    assert(ahead(stack@, cursor) =~= rest);
                },
                Some(Node::Branch(l, r)) => {
                    proof {
                        lemma_visit_branch(
                            store@,
                            root,
                            self.policy(),
                            sum as int,
                            rest,
                            current,
                            *l,
                            *r,
                        );
                    }
                    stack.push(*r);
                    cursor = Some(*l);
                },
            }
        }
    }
}

/// The sum of the leaf values over every path from `root`, where every such
/// path ends after at most `levels` branches and the sum fits in 32 bits;
/// `None` elsewhere. A traversal may start at a root for which this returns
/// a sum.
pub fn path_sum_within(store: &Store, root: &Digest, levels: u32) -> (total: Option<u32>)
    ensures
        total is Some <==> bounded(store@, *root, levels as nat) && leaves(
            store@,
            *root,
            levels as nat,
        ) <= u32::MAX,
        total matches Some(sum) ==> sum == leaves(store@, *root, levels as nat) && acyclic_from(
            store@,
            *root,
        ) && sum == path_sum(store@, *root),
    decreases levels,
{
    let total = match store.get(root) {
        None => Some(0),
        Some(Node::Leaf(value)) => Some(*value),
        Some(Node::Branch(l, r)) => {
            if levels == 0 {
                return None;
            }
            proof {
                lemma_leaves_nonnegative(store@, *l, (levels - 1) as nat);
                lemma_leaves_nonnegative(store@, *r, (levels - 1) as nat);
            }
            let left = match path_sum_within(store, l, levels - 1) {
                Some(left) => left,
                None => {
                    return None;
                },
            };
            let right = match path_sum_within(store, r, levels - 1) {
                Some(right) => right,
                None => {
                    return None;
                },
            };
            left.checked_add(right)
        },
    };
    proof {
        if total is Some {
            lemma_bound_irrelevant(
                store@,
                *root,
                levels as nat,
                height(store@, *root),
                0,
                StackPolicy { slots: 1, capacity: None },
            );
        }
    }
    total
}

} // verus!

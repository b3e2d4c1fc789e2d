//! What one step of an iterative traversal does to the work that is left.
//!
//! A traversal in progress is a sum so far and a stack of keys still to be
//! visited, the top one first. The chase-left and cursor traversals hold the
//! key that they visit next beside the stack: here it counts as the stack's
//! top entry.

use vstd::prelude::*;
use crate::model::{
    acyclic_from, all_acyclic, drain, drain_sum, drain_visits, outcome, path_sum, plus, Shape,
    StackPolicy, TraverseError,
};
use crate::unfold::{
    lemma_branch_outcome, lemma_branch_parts, lemma_drain_sum_nonnegative, lemma_leaf,
    lemma_missing, lemma_pushed,
};

verus! {

/// The sum so far and the stack are those of a traversal from `root` that
/// has met no error yet: finishing the stack gives what the whole traversal
/// returns, and the leaf sums still ahead make up the rest of the root's.
pub open spec fn on_course<K>(
    g: Map<K, Shape<K>>,
    root: K,
    p: StackPolicy,
    sum: int,
    stack: Seq<K>,
) -> bool {
    &&& all_acyclic(g, stack)
    &&& plus(sum, drain(g, stack, p)) == outcome(g, root, p)
    &&& sum + drain_sum(g, stack) == path_sum(g, root)
    &&& 0 <= sum
}

/// What a cursor-driven traversal still has to visit: its stack and, above
/// it, the key under the cursor, if there is one.
pub open spec fn ahead<K>(stack: Seq<K>, cursor: Option<K>) -> Seq<K> {
    match cursor {
        Some(current) => stack.push(current),
        None => stack,
    }
}

/// A traversal starts with nothing summed and the root as the one key to
/// visit.
pub proof fn lemma_start<K>(g: Map<K, Shape<K>>, root: K, p: StackPolicy)
    requires
        acyclic_from(g, root),
    ensures
        on_course(g, root, p, 0, Seq::<K>::empty().push(root)),
{
    lemma_pushed(g, Seq::<K>::empty(), root, p);
}

/// With nothing left to visit, the sum so far is the traversal's result.
pub proof fn lemma_finished<K>(g: Map<K, Shape<K>>, root: K, p: StackPolicy, sum: int)
    requires
        on_course(g, root, p, sum, Seq::<K>::empty()),
    ensures
        outcome(g, root, p) == Ok::<int, TraverseError>(sum),
        sum == path_sum(g, root),
{
}

/// Visiting a key that the store lacks ends the traversal with `MissingNode`.
pub proof fn lemma_visit_missing<K>(
    g: Map<K, Shape<K>>,
    root: K,
    p: StackPolicy,
    sum: int,
    rest: Seq<K>,
    d: K,
)
    requires
        on_course(g, root, p, sum, rest.push(d)),
        !g.contains_key(d),
    ensures
        outcome(g, root, p) == Err::<int, TraverseError>(TraverseError::MissingNode),
{
    lemma_pushed(g, rest, d, p);
    lemma_missing(g, d, rest.len(), p);
}

/// Visiting a leaf adds its value to the sum, which stays within the root's
/// leaf sum, and leaves the rest of the stack to visit.
pub proof fn lemma_visit_leaf<K>(
    g: Map<K, Shape<K>>,
    root: K,
    p: StackPolicy,
    sum: int,
    rest: Seq<K>,
    d: K,
    v: u32,
)
    requires
        on_course(g, root, p, sum, rest.push(d)),
        g.contains_key(d),
        g[d] == Shape::<K>::Leaf(v),
    ensures
        on_course(g, root, p, sum + v, rest),
        sum + v <= path_sum(g, root),
        drain_visits(g, rest) < drain_visits(g, rest.push(d)),
{
    lemma_pushed(g, rest, d, p);
    lemma_leaf(g, d, v, rest.len(), p);
    lemma_drain_sum_nonnegative(g, rest);
    assert forall|i: int| 0 <= i < rest.len() implies acyclic_from(g, #[trigger] rest[i]) by {
        assert(rest.push(d)[i] == rest[i]);
    }
}

/// Visiting a branch ends the traversal with `CapacityExceeded` where the
/// stack has too little room; elsewhere the right child and, above it, the
/// left child take the branch's place on the stack.
pub proof fn lemma_visit_branch<K>(
    g: Map<K, Shape<K>>,
    root: K,
    p: StackPolicy,
    sum: int,
    rest: Seq<K>,
    d: K,
    l: K,
    r: K,
)
    requires
        on_course(g, root, p, sum, rest.push(d)),
        g.contains_key(d),
        g[d] == Shape::Branch(l, r),
    ensures
        p.overflows(rest.len()) ==> outcome(g, root, p) == Err::<int, TraverseError>(
            TraverseError::CapacityExceeded,
        ),
        !p.overflows(rest.len()) ==> on_course(g, root, p, sum, rest.push(r).push(l)),
        drain_visits(g, rest.push(r).push(l)) < drain_visits(g, rest.push(d)),
{
    let stack = rest.push(d);
    assert(stack[rest.len() as int] == d);
    assert(acyclic_from(g, d));
    assert forall|i: int| 0 <= i < rest.len() implies acyclic_from(g, #[trigger] rest[i]) by {
        assert(stack[i] == rest[i]);
    }
    lemma_pushed(g, rest, d, p);
    lemma_branch_parts(g, d, l, r);
    lemma_branch_outcome(g, d, l, r, rest.len(), p);
    lemma_pushed(g, rest, r, p);
    lemma_pushed(g, rest.push(r), l, p);
}

} // verus!

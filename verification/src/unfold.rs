//! How the model unfolds at a leaf, at a branch and at a missing key, free of
//! the level bound that its recursive definitions carry.

use vstd::prelude::*;
use crate::model::{
    acyclic_from, all_acyclic, both, bounded, drain, drain_sum, drain_visits, height, leaves,
    outcome_at, path_sum, path_visits, visits, walk, Shape, StackPolicy, TraverseError,
};

verus! {

/// A bound on the paths from `d` stays one when it is raised.
pub proof fn lemma_bounded_rises<K>(g: Map<K, Shape<K>>, d: K, h1: nat, h2: nat)
    requires
        bounded(g, d, h1),
        h1 <= h2,
    ensures
        bounded(g, d, h2),
    decreases h1,
{
    if g.contains_key(d) {
        match g[d] {
            Shape::Leaf(_) => {},
            Shape::Branch(l, r) => {
                lemma_bounded_rises(g, l, (h1 - 1) as nat, (h2 - 1) as nat);
                lemma_bounded_rises(g, r, (h1 - 1) as nat, (h2 - 1) as nat);
            },
        }
    }
}

/// Under any two bounds on the paths from `d`, the traversal from `d` returns
/// the same, sums the same leaves and makes the same number of visits.
pub proof fn lemma_bound_irrelevant<K>(
    g: Map<K, Shape<K>>,
    d: K,
    h1: nat,
    h2: nat,
    pending: nat,
    p: StackPolicy,
)
    requires
        bounded(g, d, h1),
        bounded(g, d, h2),
    ensures
        walk(g, d, h1, pending, p) == walk(g, d, h2, pending, p),
        leaves(g, d, h1) == leaves(g, d, h2),
        visits(g, d, h1) == visits(g, d, h2),
    decreases h1,
{
    if g.contains_key(d) {
        match g[d] {
            Shape::Leaf(_) => {},
            Shape::Branch(l, r) => {
                let k1 = (h1 - 1) as nat;
                let k2 = (h2 - 1) as nat;
                lemma_bound_irrelevant(g, l, k1, k2, pending + 1, p);
                lemma_bound_irrelevant(g, r, k1, k2, pending, p);
            },
        }
    }
}

/// A key that the store lacks stops the traversal with `MissingNode`.
pub proof fn lemma_missing<K>(g: Map<K, Shape<K>>, d: K, pending: nat, p: StackPolicy)
    requires
        !g.contains_key(d),
    ensures
        acyclic_from(g, d),
        outcome_at(g, d, pending, p) == Err::<int, TraverseError>(TraverseError::MissingNode),
        path_sum(g, d) == 0,
        path_visits(g, d) == 1,
{
    assert(bounded(g, d, 0));
}

/// A leaf yields its value, whatever lies on the stack.
pub proof fn lemma_leaf<K>(g: Map<K, Shape<K>>, d: K, v: u32, pending: nat, p: StackPolicy)
    requires
        g.contains_key(d),
        g[d] == Shape::<K>::Leaf(v),
    ensures
        acyclic_from(g, d),
        outcome_at(g, d, pending, p) == Ok::<int, TraverseError>(v as int),
        path_sum(g, d) == v,
        path_visits(g, d) == 1,
{
    assert(bounded(g, d, 0));
}

/// Below a branch from which no path runs forever, none does from either
/// child; the branch's leaf sum is that of its children, and its visits are
/// theirs and one more.
pub proof fn lemma_branch_parts<K>(g: Map<K, Shape<K>>, d: K, l: K, r: K)
    requires
        acyclic_from(g, d),
        g.contains_key(d),
        g[d] == Shape::Branch(l, r),
    ensures
        acyclic_from(g, l),
        acyclic_from(g, r),
        path_sum(g, d) == path_sum(g, l) + path_sum(g, r),
        path_visits(g, d) == 1 + path_visits(g, l) + path_visits(g, r),
{
    let h = height(g, d);
    let k = (h - 1) as nat;
    assert(bounded(g, l, k) && bounded(g, r, k));
    lemma_bound_irrelevant(g, l, k, height(g, l), 0, StackPolicy { slots: 0, capacity: None });
    lemma_bound_irrelevant(g, r, k, height(g, r), 0, StackPolicy { slots: 0, capacity: None });
}

/// A branch fails with `CapacityExceeded` where the stack has too little room
/// for it; elsewhere it returns what its left child returns one entry higher
/// on the stack, and then its right child at the branch's own level.
pub proof fn lemma_branch_outcome<K>(
    g: Map<K, Shape<K>>,
    d: K,
    l: K,
    r: K,
    pending: nat,
    p: StackPolicy,
)
    requires
        acyclic_from(g, d),
        g.contains_key(d),
        g[d] == Shape::Branch(l, r),
    ensures
        outcome_at(g, d, pending, p) == if p.overflows(pending) {
            Err::<int, TraverseError>(TraverseError::CapacityExceeded)
        } else {
            both(outcome_at(g, l, pending + 1, p), outcome_at(g, r, pending, p))
        },
{
    let h = height(g, d);
    let k = (h - 1) as nat;
    assert(bounded(g, l, k) && bounded(g, r, k));
    lemma_bound_irrelevant(g, l, k, height(g, l), pending + 1, p);
    lemma_bound_irrelevant(g, r, k, height(g, r), pending, p);
}

/// The leaf sum of a key is never negative.
pub proof fn lemma_leaves_nonnegative<K>(g: Map<K, Shape<K>>, d: K, h: nat)
    ensures
        leaves(g, d, h) >= 0,
    decreases h,
{
    if g.contains_key(d) {
        match g[d] {
            Shape::Leaf(_) => {},
            Shape::Branch(l, r) => {
                if h > 0 {
                    lemma_leaves_nonnegative(g, l, (h - 1) as nat);
                    lemma_leaves_nonnegative(g, r, (h - 1) as nat);
                }
            },
        }
    }
}

/// The leaf sums of the entries of a stack add up to nothing negative.
pub proof fn lemma_drain_sum_nonnegative<K>(g: Map<K, Shape<K>>, stack: Seq<K>)
    ensures
        drain_sum(g, stack) >= 0,
    decreases stack.len(),
{
    if stack.len() > 0 {
        lemma_leaves_nonnegative(g, stack.last(), height(g, stack.last()));
        lemma_drain_sum_nonnegative(g, stack.drop_last());
    }
}

/// With `d` pushed on `rest`, the traversal visits `d` above the entries of
/// `rest` and goes on with `rest`.
pub proof fn lemma_pushed<K>(g: Map<K, Shape<K>>, rest: Seq<K>, d: K, p: StackPolicy)
    ensures
        drain(g, rest.push(d), p) == both(outcome_at(g, d, rest.len(), p), drain(g, rest, p)),
        drain_sum(g, rest.push(d)) == path_sum(g, d) + drain_sum(g, rest),
        drain_visits(g, rest.push(d)) == path_visits(g, d) + drain_visits(g, rest),
        all_acyclic(g, rest) && acyclic_from(g, d) ==> all_acyclic(g, rest.push(d)),
{
    let s = rest.push(d);
    assert(s.drop_last() =~= rest);
    assert(s.last() == d);
}

} // verus!

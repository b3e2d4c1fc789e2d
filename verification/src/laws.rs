//! What holds of every store and every root, whichever traversal is taken.

use vstd::prelude::*;
use crate::model::{
    acyclic_from, both, bounded, height, leaves, outcome, path_sum, walk, Shape, StackPolicy,
    TraverseError,
};
use crate::traverse::{
    Heapless, HeaplessLoop, HeaplessOption, Simple, Traverse, VecLoop, VecOption,
};
use crate::unfold::{lemma_bounded_rises, lemma_bound_irrelevant, lemma_branch_parts, lemma_leaf};

verus! {

/// Every key on a path of at most `h` branches from `d` is held by `g`.
pub open spec fn complete<K>(g: Map<K, Shape<K>>, d: K, h: nat) -> bool
    decreases h,
{
    g.contains_key(d) && match g[d] {
        Shape::Leaf(_) => true,
        Shape::Branch(l, r) => h > 0 ==> complete(g, l, (h - 1) as nat) && complete(
            g,
            r,
            (h - 1) as nat,
        ),
    }
}

/// Every key that can be reached from `root` is held by `g`.
pub open spec fn all_present<K>(g: Map<K, Shape<K>>, root: K) -> bool {
    complete(g, root, height(g, root))
}

proof fn lemma_walk_is_leaves<K>(
    g: Map<K, Shape<K>>,
    d: K,
    h: nat,
    pending: nat,
    p: StackPolicy,
    s: int,
)
    requires
        bounded(g, d, h),
        walk(g, d, h, pending, p) == Ok::<int, TraverseError>(s),
    ensures
        s == leaves(g, d, h),
        complete(g, d, h),
    decreases h,
{
    match g[d] {
        Shape::Leaf(_) => {},
        Shape::Branch(l, r) => {
            let k = (h - 1) as nat;
            let left = walk(g, l, k, pending + 1, p);
            let right = walk(g, r, k, pending, p);
            assert(walk(g, d, h, pending, p) == both(left, right));
            lemma_walk_is_leaves(g, l, k, pending + 1, p, left->Ok_0);
            lemma_walk_is_leaves(g, r, k, pending, p, right->Ok_0);
        },
    }
}

proof fn lemma_walk_unbounded<K>(g: Map<K, Shape<K>>, d: K, h: nat, pending: nat, p: StackPolicy)
    requires
        bounded(g, d, h),
        p.capacity is None,
    ensures
        walk(g, d, h, pending, p) == if complete(g, d, h) {
            Ok::<int, TraverseError>(leaves(g, d, h))
        } else {
            Err::<int, TraverseError>(TraverseError::MissingNode)
        },
    decreases h,
{
    if g.contains_key(d) {
        match g[d] {
            Shape::Leaf(_) => {},
            Shape::Branch(l, r) => {
                let k = (h - 1) as nat;
                lemma_walk_unbounded(g, l, k, pending + 1, p);
                lemma_walk_unbounded(g, r, k, pending, p);
            },
        }
    }
}

proof fn lemma_walk_capacity_aside<K>(
    g: Map<K, Shape<K>>,
    d: K,
    h: nat,
    pending: nat,
    p: StackPolicy,
)
    requires
        bounded(g, d, h),
        walk(g, d, h, pending, p) != Err::<int, TraverseError>(TraverseError::CapacityExceeded),
    ensures
        walk(g, d, h, pending, p) == walk(g, d, h, pending, p.unbounded()),
    decreases h,
{
    if g.contains_key(d) {
        match g[d] {
            Shape::Leaf(_) => {},
            Shape::Branch(l, r) => {
                let k = (h - 1) as nat;
                let left = walk(g, l, k, pending + 1, p);
                let right = walk(g, r, k, pending, p);
                assert(walk(g, d, h, pending, p) == both(left, right));
                lemma_walk_capacity_aside(g, l, k, pending + 1, p);
                if left is Ok {
                    lemma_walk_capacity_aside(g, r, k, pending, p);
                }
            },
        }
    }
}

proof fn lemma_walk_with_room<K>(
    g: Map<K, Shape<K>>,
    d: K,
    h: nat,
    pending: nat,
    p: StackPolicy,
)
    requires
        bounded(g, d, h),
        p.capacity matches Some(c) && (h > 0 ==> pending + h - 1 + p.slots <= c),
    ensures
        walk(g, d, h, pending, p) == walk(g, d, h, pending, p.unbounded()),
    decreases h,
{
    if g.contains_key(d) {
        match g[d] {
            Shape::Leaf(_) => {},
            Shape::Branch(l, r) => {
                let k = (h - 1) as nat;
                lemma_walk_with_room(g, l, k, pending + 1, p);
                lemma_walk_with_room(g, r, k, pending, p);
            },
        }
    }
}

proof fn lemma_walk_slots_aside<K>(
    g: Map<K, Shape<K>>,
    d: K,
    h: nat,
    pending: nat,
    p: StackPolicy,
    q: StackPolicy,
)
    requires
        p.capacity is None,
        q.capacity is None,
    ensures
        walk(g, d, h, pending, p) == walk(g, d, h, pending, q),
    decreases h,
{
    if g.contains_key(d) {
        match g[d] {
            Shape::Leaf(_) => {},
            Shape::Branch(l, r) => {
                if h > 0 {
                    let k = (h - 1) as nat;
                    lemma_walk_slots_aside(g, l, k, pending + 1, p, q);
                    lemma_walk_slots_aside(g, r, k, pending, p, q);
                }
            },
        }
    }
}

/// A traversal that returns a sum returns the sum of the leaf values over
/// every path from the root, and then the store holds every key that can be
/// reached from the root.
pub proof fn law_sum_is_by_path<K>(g: Map<K, Shape<K>>, root: K, p: StackPolicy, s: int)
    requires
        acyclic_from(g, root),
        outcome(g, root, p) == Ok::<int, TraverseError>(s),
    ensures
        s == path_sum(g, root),
        all_present(g, root),
{
    lemma_walk_is_leaves(g, root, height(g, root), 0, p, s);
}

/// On a stack that grows, a traversal returns the root's path sum where the
/// store holds every key that can be reached from the root, and fails with
/// `MissingNode` where it lacks one.
pub proof fn law_missing_key_is_an_error<K>(g: Map<K, Shape<K>>, root: K, p: StackPolicy)
    requires
        acyclic_from(g, root),
        p.capacity is None,
    ensures
        outcome(g, root, p) == if all_present(g, root) {
            Ok::<int, TraverseError>(path_sum(g, root))
        } else {
            Err::<int, TraverseError>(TraverseError::MissingNode)
        },
{
    lemma_walk_unbounded(g, root, height(g, root), 0, p);
}

/// A branch whose children are one and the same key counts that key's leaves
/// twice.
pub proof fn law_shared_child_counts_twice<K>(g: Map<K, Shape<K>>, d: K, child: K)
    requires
        acyclic_from(g, d),
        g.contains_key(d),
        g[d] == Shape::Branch(child, child),
    ensures
        path_sum(g, d) == 2 * path_sum(g, child),
{
    lemma_branch_parts(g, d, child, child);
}

/// A root that is a leaf yields the leaf's value under every stack policy,
/// also one whose stack holds nothing.
pub proof fn law_leaf_root<K>(g: Map<K, Shape<K>>, root: K, v: u32, p: StackPolicy)
    requires
        g.contains_key(root),
        g[root] == Shape::<K>::Leaf(v),
    ensures
        outcome(g, root, p) == Ok::<int, TraverseError>(v as int),
{
    lemma_leaf(g, root, v, 0, p);
}

/// Unless it fails for want of room, a traversal on a stack of fixed capacity
/// returns what the same traversal returns on a stack that grows.
pub proof fn law_capacity_only_adds_an_error<K>(g: Map<K, Shape<K>>, root: K, p: StackPolicy)
    requires
        acyclic_from(g, root),
        outcome(g, root, p) != Err::<int, TraverseError>(TraverseError::CapacityExceeded),
    ensures
        outcome(g, root, p) == outcome(g, root, p.unbounded()),
{
    lemma_walk_capacity_aside(g, root, height(g, root), 0, p);
}

/// On stacks that grow, how many entries a branch takes makes no difference.
pub proof fn law_growable_agree<K>(g: Map<K, Shape<K>>, root: K, p: StackPolicy, q: StackPolicy)
    requires
        p.capacity is None,
        q.capacity is None,
    ensures
        outcome(g, root, p) == outcome(g, root, q),
{
    lemma_walk_slots_aside(g, root, height(g, root), 0, p, q);
}

/// Where every path from the root ends after at most `h` branches and the
/// capacity leaves room for `h - 1` deferred entries and one more branch, the
/// capacity makes no difference.
pub proof fn law_room_enough<K>(g: Map<K, Shape<K>>, root: K, h: nat, p: StackPolicy)
    requires
        bounded(g, root, h),
        p.capacity matches Some(c) && h + p.slots <= c + 1,
    ensures
        outcome(g, root, p) == outcome(g, root, p.unbounded()),
{
    lemma_bound_irrelevant(g, root, h, height(g, root), 0, p);
    lemma_bound_irrelevant(g, root, h, height(g, root), 0, p.unbounded());
    lemma_walk_with_room(g, root, h, 0, p);
}

/// Where every path from the root ends after at most 31 branches, the six
/// traversals return the same.
pub proof fn law_six_agree(g: Map<[u8; 32], Shape<[u8; 32]>>, root: [u8; 32], h: nat)
    requires
        bounded(g, root, h),
        h <= 31,
    ensures
        outcome(g, root, Heapless.policy()) == outcome(g, root, Simple.policy()),
        outcome(g, root, HeaplessLoop.policy()) == outcome(g, root, Simple.policy()),
        outcome(g, root, HeaplessOption.policy()) == outcome(g, root, Simple.policy()),
        outcome(g, root, VecLoop.policy()) == outcome(g, root, Simple.policy()),
        outcome(g, root, VecOption.policy()) == outcome(g, root, Simple.policy()),
{
    let simple = Simple.policy();
    lemma_bounded_rises(g, root, h, 31);
    law_room_enough(g, root, 31, Heapless.policy());
    law_room_enough(g, root, 31, HeaplessLoop.policy());
    law_room_enough(g, root, 31, HeaplessOption.policy());
    law_growable_agree(g, root, Heapless.policy().unbounded(), simple);
    law_growable_agree(g, root, HeaplessLoop.policy().unbounded(), simple);
    law_growable_agree(g, root, HeaplessOption.policy().unbounded(), simple);
    law_growable_agree(g, root, VecLoop.policy(), simple);
    law_growable_agree(g, root, VecOption.policy(), simple);
}

} // verus!

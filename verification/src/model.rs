//! The mathematical model of a traversal: what a store is, when the part of
//! it under a key is finite, and what a traversal with a given stack policy
//! returns for it.

use vstd::prelude::*;

verus! {

/// What is stored under one key: a value, or the keys of two children.
pub enum Shape<K> {
    Leaf(u32),
    Branch(K, K),
}

/// Why a traversal gave up.
#[derive(Clone, Copy, Debug, PartialEq, Eq, Structural)]
pub enum TraverseError {
    /// A key was visited that the store does not hold.
    MissingNode,
    /// A branch was visited while the stack had no room for what the
    /// traversal has to defer there.
    CapacityExceeded,
}

/// How a traversal uses its stack.
pub struct StackPolicy {
    /// Free entries that a branch needs at the moment it is visited: one where
    /// only the right child is deferred, two where both children are pushed.
    pub slots: nat,
    /// The most entries the stack can hold; `None` for a stack that grows.
    pub capacity: Option<nat>,
}

impl StackPolicy {
    /// Whether a branch visited above `pending` stack entries finds too
    /// little room.
    pub open spec fn overflows(self, pending: nat) -> bool {
        match self.capacity {
            Some(c) => pending + self.slots > c,
            None => false,
        }
    }

    /// The same way of pushing, on a stack that grows.
    pub open spec fn unbounded(self) -> StackPolicy {
        StackPolicy { slots: self.slots, capacity: None }
    }
}

/// `a` added to a sum that may have failed.
pub open spec fn plus(a: int, rest: Result<int, TraverseError>) -> Result<int, TraverseError> {
    match rest {
        Ok(b) => Ok(a + b),
        Err(e) => Err(e),
    }
}

/// The sum of two partial results, the first error winning.
pub open spec fn both(
    first: Result<int, TraverseError>,
    second: Result<int, TraverseError>,
) -> Result<int, TraverseError> {
    match first {
        Ok(a) => plus(a, second),
        Err(e) => Err(e),
    }
}

/// Every path that starts at `d` ends, at a leaf or at a key that `g` does
/// not hold, after at most `h` branches.
pub open spec fn bounded<K>(g: Map<K, Shape<K>>, d: K, h: nat) -> bool
    decreases h,
{
    g.contains_key(d) ==> match g[d] {
        Shape::Leaf(_) => true,
        Shape::Branch(l, r) => h > 0 && bounded(g, l, (h - 1) as nat) && bounded(
            g,
            r,
            (h - 1) as nat,
        ),
    }
}

/// No path that starts at `d` runs forever: what is reachable from `d` is a
/// finite directed acyclic graph.
pub open spec fn acyclic_from<K>(g: Map<K, Shape<K>>, d: K) -> bool {
    exists|h: nat| bounded(g, d, h)
}

/// A number of branches within which every path from `d` ends.
pub open spec fn height<K>(g: Map<K, Shape<K>>, d: K) -> nat {
    choose|h: nat| bounded(g, d, h)
}

/// What a depth-first, left-to-right traversal of at most `h` levels returns
/// when it visits `d` while `pending` entries lie on its stack.
pub open spec fn walk<K>(
    g: Map<K, Shape<K>>,
    d: K,
    h: nat,
    pending: nat,
    p: StackPolicy,
) -> Result<int, TraverseError>
    decreases h,
{
    if !g.contains_key(d) {
        Err(TraverseError::MissingNode)
    } else {
        match g[d] {
            Shape::Leaf(v) => Ok(v as int),
            Shape::Branch(l, r) => if p.overflows(pending) {
                Err(TraverseError::CapacityExceeded)
            } else if h == 0 {
                Ok(0)
            } else {
                both(
                    walk(g, l, (h - 1) as nat, pending + 1, p),
                    walk(g, r, (h - 1) as nat, pending, p),
                )
            },
        }
    }
}

/// The leaf values on all paths from `d` of at most `h` branches, added up. A
/// leaf counts once for each path that reaches it; a key that `g` does not
/// hold counts as nothing.
pub open spec fn leaves<K>(g: Map<K, Shape<K>>, d: K, h: nat) -> int
    decreases h,
{
    if !g.contains_key(d) {
        0
    } else {
        match g[d] {
            Shape::Leaf(v) => v as int,
            Shape::Branch(l, r) => if h == 0 {
                0
            } else {
                leaves(g, l, (h - 1) as nat) + leaves(g, r, (h - 1) as nat)
            },
        }
    }
}

/// The number of visits that a traversal of at most `h` levels makes from `d`.
pub open spec fn visits<K>(g: Map<K, Shape<K>>, d: K, h: nat) -> nat
    decreases h,
{
    if !g.contains_key(d) {
        1
    } else {
        match g[d] {
            Shape::Leaf(_) => 1,
            Shape::Branch(l, r) => if h == 0 {
                1
            } else {
                1 + visits(g, l, (h - 1) as nat) + visits(g, r, (h - 1) as nat)
            },
        }
    }
}

/// What a traversal returns when it visits `d` above `pending` stack entries.
pub open spec fn outcome_at<K>(g: Map<K, Shape<K>>, d: K, pending: nat, p: StackPolicy) -> Result<
    int,
    TraverseError,
> {
    walk(g, d, height(g, d), pending, p)
}

/// What a traversal that starts at `root` with an empty stack returns.
pub open spec fn outcome<K>(g: Map<K, Shape<K>>, root: K, p: StackPolicy) -> Result<
    int,
    TraverseError,
> {
    outcome_at(g, root, 0, p)
}

/// The sum of the leaf values over every path from `d`.
pub open spec fn path_sum<K>(g: Map<K, Shape<K>>, d: K) -> int {
    leaves(g, d, height(g, d))
}

/// The number of visits that a traversal from `d` makes when nothing stops it.
pub open spec fn path_visits<K>(g: Map<K, Shape<K>>, d: K) -> nat {
    visits(g, d, height(g, d))
}

/// No path runs forever from any entry of `stack`.
pub open spec fn all_acyclic<K>(g: Map<K, Shape<K>>, stack: Seq<K>) -> bool {
    forall|i: int| 0 <= i < stack.len() ==> acyclic_from(g, #[trigger] stack[i])
}

/// What a traversal returns for the entries that lie on its stack: the top
/// entry is visited first, each one above the entries below it.
pub open spec fn drain<K>(g: Map<K, Shape<K>>, stack: Seq<K>, p: StackPolicy) -> Result<
    int,
    TraverseError,
>
    decreases stack.len(),
{
    if stack.len() == 0 {
        Ok(0)
    } else {
        both(
            outcome_at(g, stack.last(), (stack.len() - 1) as nat, p),
            drain(g, stack.drop_last(), p),
        )
    }
}

/// The leaf sums of the entries of `stack`, added up.
pub open spec fn drain_sum<K>(g: Map<K, Shape<K>>, stack: Seq<K>) -> int
    decreases stack.len(),
{
    if stack.len() == 0 {
        0
    } else {
        path_sum(g, stack.last()) + drain_sum(g, stack.drop_last())
    }
}

/// The visits that the entries of `stack` stand for, added up.
pub open spec fn drain_visits<K>(g: Map<K, Shape<K>>, stack: Seq<K>) -> nat
    decreases stack.len(),
{
    if stack.len() == 0 {
        0
    } else {
        path_visits(g, stack.last()) + drain_visits(g, stack.drop_last())
    }
}

/// A sum in 32 bits, or an error, as the model speaks of it.
pub open spec fn as_outcome(result: Result<u32, TraverseError>) -> Result<int, TraverseError> {
    match result {
        Ok(sum) => Ok(sum as int),
        Err(e) => Err(e),
    }
}

} // verus!

//! The fixed-capacity stack of the bounded traversals: `heapless::Vec`, as far
//! as the traversals use it. Nothing in this file is proved; the contracts
//! state what the source of `heapless` shows.

use vstd::prelude::*;
use crate::store::Digest;

verus! {

/// The number of digests that a bounded stack can hold.
pub const STACK_CAPACITY: usize = 32;

/// `heapless::Vec`, a vector of fixed capacity, as a type that the verifier
/// cannot look into.
#[verifier::external_type_specification]
#[verifier::external_body]
#[verifier::reject_recursive_types(T)]
pub struct ExHeaplessVec<T, const N: usize>(heapless::Vec<T, N>);

/// The digests that a bounded stack holds, the oldest first.
pub uninterp spec fn stack_items(stack: heapless::Vec<Digest, STACK_CAPACITY>) -> Seq<Digest>;

/// `heapless::Vec::new`: a stack that holds nothing.
#[verifier::external_body]
pub(crate) fn stack_new() -> (stack: heapless::Vec<Digest, STACK_CAPACITY>)
    ensures
        stack_items(stack) == Seq::<Digest>::empty(),
{
    heapless::Vec::new()
}

/// `heapless::Vec::push`: below its capacity the stack takes `item` on top
/// and answers `Ok`; at its capacity it stays as it is and hands `item` back
/// in `Err`.
#[verifier::external_body]
pub(crate) fn stack_push(
    stack: &mut heapless::Vec<Digest, STACK_CAPACITY>,
    item: Digest,
) -> (pushed: Result<(), Digest>)
    ensures
        pushed is Ok <==> stack_items(*old(stack)).len() < STACK_CAPACITY,
        pushed matches Err(back) ==> back == item,
        stack_items(*final(stack)) == if pushed is Ok {
            stack_items(*old(stack)).push(item)
        } else {
            stack_items(*old(stack))
        },
{
    stack.push(item)
}

/// `heapless::Vec::pop`: the top item leaves the stack and is returned; an
/// empty stack stays empty and `None` is returned.
#[verifier::external_body]
pub(crate) fn stack_pop(
    stack: &mut heapless::Vec<Digest, STACK_CAPACITY>,
) -> (popped: Option<Digest>)
    ensures
        popped == if stack_items(*old(stack)).len() > 0 {
            Some(stack_items(*old(stack)).last())
        } else {
            None
        },
        stack_items(*final(stack)) == if stack_items(*old(stack)).len() > 0 {
            stack_items(*old(stack)).drop_last()
        } else {
            stack_items(*old(stack))
        },
{
    stack.pop()
}

/// The positions that a bounded stack of positions holds, the oldest first.
pub uninterp spec fn index_stack_items(stack: heapless::Vec<u32, STACK_CAPACITY>) -> Seq<u32>;

/// `heapless::Vec::new`, for a stack of positions: a stack that holds
/// nothing.
#[verifier::external_body]
pub(crate) fn index_stack_new() -> (stack: heapless::Vec<u32, STACK_CAPACITY>)
    ensures
        index_stack_items(stack) == Seq::<u32>::empty(),
{
    heapless::Vec::new()
}

/// `heapless::Vec::push`, for a stack of positions: below its capacity the
/// stack takes `item` on top and answers `Ok`; at its capacity it stays as it
/// is and hands `item` back in `Err`.
#[verifier::external_body]
pub(crate) fn index_stack_push(
    stack: &mut heapless::Vec<u32, STACK_CAPACITY>,
    item: u32,
) -> (pushed: Result<(), u32>)
    ensures
        pushed is Ok <==> index_stack_items(*old(stack)).len() < STACK_CAPACITY,
        pushed matches Err(back) ==> back == item,
        index_stack_items(*final(stack)) == if pushed is Ok {
            index_stack_items(*old(stack)).push(item)
        } else {
            index_stack_items(*old(stack))
        },
{
    stack.push(item)
}

/// `heapless::Vec::pop`, for a stack of positions: the top item leaves the
/// stack and is returned; an empty stack stays empty and `None` is returned.
#[verifier::external_body]
pub(crate) fn index_stack_pop(
    stack: &mut heapless::Vec<u32, STACK_CAPACITY>,
) -> (popped: Option<u32>)
    ensures
        popped == if index_stack_items(*old(stack)).len() > 0 {
            Some(index_stack_items(*old(stack)).last())
        } else {
            None
        },
        index_stack_items(*final(stack)) == if index_stack_items(*old(stack)).len() > 0 {
            index_stack_items(*old(stack)).drop_last()
        } else {
            index_stack_items(*old(stack))
        },
{
    stack.pop()
}

} // verus!

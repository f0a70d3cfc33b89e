//! The fixed-capacity vectors of the `arrayvec` crate, as the verified code sees them.
//!
//! Verus does not look inside an `ArrayVec`. What one holds is therefore given a
//! name, one for each element type and capacity in use, and every method that the
//! library calls is reached through a function of this file whose contract is
//! believed, not proved.
use crate::brainfuck::{BfRawInstruction, Instruction};
use arrayvec::ArrayVec;
use vstd::prelude::*;

verus! {

/// `arrayvec::ArrayVec`, declared as a type whose inside is hidden.
#[verifier::external_type_specification]
#[verifier::external_body]
#[verifier::reject_recursive_types(T)]
pub struct ExArrayVec<T, const CAP: usize>(ArrayVec<T, CAP>);

/// The instructions that a program text holds, first to last.
pub uninterp spec fn source_items(v: ArrayVec<BfRawInstruction, 28>) -> Seq<BfRawInstruction>;

/// The instructions that an alphabet holds, first to last.
pub uninterp spec fn alphabet_items(v: ArrayVec<BfRawInstruction, 7>) -> Seq<BfRawInstruction>;

/// The instructions that a compiled program holds, first to last.
pub uninterp spec fn code_items(v: ArrayVec<Instruction, 28>) -> Seq<Instruction>;

/// The positions that a stack of open loops holds, bottom to top.
pub uninterp spec fn stack_items(v: ArrayVec<usize, 28>) -> Seq<usize>;

/// `ArrayVec::new`: the new vector holds nothing.
#[verifier::external_body]
pub(crate) fn source_new() -> (v: ArrayVec<BfRawInstruction, 28>)
    ensures
        source_items(v) == Seq::<BfRawInstruction>::empty(),
{
    ArrayVec::new()
}

/// `ArrayVec::push`: the element is added at the end. It panics on a full vector,
/// which the precondition leaves out.
#[verifier::external_body]
pub(crate) fn source_push(v: &mut ArrayVec<BfRawInstruction, 28>, x: BfRawInstruction)
    requires
        source_items(*old(v)).len() < 28,
    ensures
        source_items(*final(v)) == source_items(*old(v)).push(x),
{
    v.push(x)
}

/// `ArrayVec::clear`: nothing is left.
#[verifier::external_body]
pub(crate) fn source_clear(v: &mut ArrayVec<BfRawInstruction, 28>)
    ensures
        source_items(*final(v)) == Seq::<BfRawInstruction>::empty(),
{
    v.clear()
}

/// `<[T]>::reverse`, reached through `ArrayVec`'s `DerefMut`: the same elements in
/// the opposite order.
#[verifier::external_body]
pub(crate) fn source_reverse(v: &mut ArrayVec<BfRawInstruction, 28>)
    ensures
        source_items(*final(v)) == source_items(*old(v)).reverse(),
{
    v.reverse()
}

/// `ArrayVec::as_slice`: a slice of all the elements, in order. There are never
/// more of them than the capacity.
#[verifier::external_body]
pub(crate) fn source_slice(v: &ArrayVec<BfRawInstruction, 28>) -> (s: &[BfRawInstruction])
    ensures
        s@ == source_items(*v),
        s@.len() <= 28,
{
    v.as_slice()
}

/// `ArrayVec`'s `Clone::clone`: the copy holds the same elements in the same order.
#[verifier::external_body]
pub(crate) fn source_clone(v: &ArrayVec<BfRawInstruction, 28>) -> (c: ArrayVec<
    BfRawInstruction,
    28,
>)
    ensures
        source_items(c) == source_items(*v),
{
    v.clone()
}

/// `ArrayVec::new`: the new vector holds nothing.
#[verifier::external_body]
pub(crate) fn alphabet_new() -> (v: ArrayVec<BfRawInstruction, 7>)
    ensures
        alphabet_items(v) == Seq::<BfRawInstruction>::empty(),
{
    ArrayVec::new()
}

/// `ArrayVec::push`: the element is added at the end. It panics on a full vector,
/// which the precondition leaves out.
#[verifier::external_body]
pub(crate) fn alphabet_push(v: &mut ArrayVec<BfRawInstruction, 7>, x: BfRawInstruction)
    requires
        alphabet_items(*old(v)).len() < 7,
    ensures
        alphabet_items(*final(v)) == alphabet_items(*old(v)).push(x),
{
    v.push(x)
}

/// `ArrayVec::as_slice`: a slice of all the elements, in order. There are never
/// more of them than the capacity.
#[verifier::external_body]
pub(crate) fn alphabet_slice(v: &ArrayVec<BfRawInstruction, 7>) -> (s: &[BfRawInstruction])
    ensures
        s@ == alphabet_items(*v),
        s@.len() <= 7,
{
    v.as_slice()
}

/// `ArrayVec::new`: the new vector holds nothing.
#[verifier::external_body]
pub(crate) fn code_new() -> (v: ArrayVec<Instruction, 28>)
    ensures
        code_items(v) == Seq::<Instruction>::empty(),
{
    ArrayVec::new()
}

/// `ArrayVec::push`: the element is added at the end. It panics on a full vector,
/// which the precondition leaves out.
#[verifier::external_body]
pub(crate) fn code_push(v: &mut ArrayVec<Instruction, 28>, x: Instruction)
    requires
        code_items(*old(v)).len() < 28,
    ensures
        code_items(*final(v)) == code_items(*old(v)).push(x),
{
    v.push(x)
}

/// Assignment through `ArrayVec`'s `DerefMut` and the slice's `IndexMut`: the
/// element at `i` is replaced and the others stay. It panics on an index that is
/// out of range, which the precondition leaves out.
#[verifier::external_body]
pub(crate) fn code_set(v: &mut ArrayVec<Instruction, 28>, i: usize, x: Instruction)
    requires
        i < code_items(*old(v)).len(),
    ensures
        code_items(*final(v)) == code_items(*old(v)).update(i as int, x),
{
    v[i] = x;
}

/// `ArrayVec::as_slice`: a slice of all the elements, in order. There are never
/// more of them than the capacity.
#[verifier::external_body]
pub(crate) fn code_slice(v: &ArrayVec<Instruction, 28>) -> (s: &[Instruction])
    ensures
        s@ == code_items(*v),
        s@.len() <= 28,
{
    v.as_slice()
}

/// `ArrayVec::new`: the new vector holds nothing.
#[verifier::external_body]
pub(crate) fn stack_new() -> (v: ArrayVec<usize, 28>)
    ensures
        stack_items(v) == Seq::<usize>::empty(),
{
    ArrayVec::new()
}

/// `ArrayVec::push`: the element is added at the end. It panics on a full vector,
/// which the precondition leaves out.
#[verifier::external_body]
pub(crate) fn stack_push(v: &mut ArrayVec<usize, 28>, x: usize)
    requires
        stack_items(*old(v)).len() < 28,
    ensures
        stack_items(*final(v)) == stack_items(*old(v)).push(x),
{
    v.push(x)
}

/// `ArrayVec::pop`: the last element is taken off and returned, or `None` comes
/// back from an empty vector, which stays empty.
#[verifier::external_body]
pub(crate) fn stack_pop(v: &mut ArrayVec<usize, 28>) -> (top: Option<usize>)
    ensures
        match top {
            Some(x) => {
                &&& stack_items(*old(v)).len() > 0
                &&& x == stack_items(*old(v)).last()
                &&& stack_items(*final(v)) == stack_items(*old(v)).drop_last()
            },
            None => {
                &&& stack_items(*old(v)).len() == 0
                &&& stack_items(*final(v)) == stack_items(*old(v))
            },
        },
{
    v.pop()
}

} // verus!

//! The stack of a depth-first walk: a `smallvec::SmallVec` that keeps its first frames
//! inline, since most hierarchies are shallow. A frame is the packed handle of the next
//! sibling to visit at one level and the number of siblings left there.
use vstd::prelude::*;

verus! {

/// Frames held inline before the stack moves to the heap.
pub const STACK_SIZE: usize = 64;

/// A frame of a depth-first walk: next sibling to visit, siblings left at this level.
pub type Frame = (u64, usize);

/// The stack itself. Verus cannot take `SmallVec` as a declared type (its bound is an
/// unsafe trait), so the vector sits in a field that Verus does not see.
#[verifier::external_body]
pub struct FrameStack {
    inner: smallvec::SmallVec<[Frame; STACK_SIZE]>,
}

/// The frames on the stack, bottom first.
pub uninterp spec fn frames_of(s: FrameStack) -> Seq<Frame>;

/// Relies on smallvec::SmallVec::new: an empty vector.
#[verifier::external_body]
pub(crate) fn stack_new() -> (r: FrameStack)
    ensures
        frames_of(r) == Seq::<Frame>::empty(),
{
    FrameStack { inner: smallvec::SmallVec::new() }
}

/// Relies on smallvec::SmallVec::push: appends the item; it panics only when the length
/// would overflow, which `requires` rules out.
#[verifier::external_body]
pub(crate) fn stack_push(s: &mut FrameStack, f: Frame)
    requires
        frames_of(*old(s)).len() < usize::MAX,
    ensures
        frames_of(*final(s)) == frames_of(*old(s)).push(f),
{
    s.inner.push(f)
}

/// Relies on smallvec::SmallVec::pop: removes and returns the last item, if any.
#[verifier::external_body]
pub(crate) fn stack_pop(s: &mut FrameStack) -> (r: Option<Frame>)
    ensures
        frames_of(*old(s)).len() == 0 ==> r.is_none() && frames_of(*final(s)) == frames_of(*old(s)),
        frames_of(*old(s)).len() > 0 ==> r == Some(frames_of(*old(s)).last()) && frames_of(*final(s))
            == frames_of(*old(s)).drop_last(),
        r.is_some() ==> frames_of(*final(s)).len() < usize::MAX,
{
    s.inner.pop()
}

/// Relies on smallvec::SmallVec::len: the number of items.
#[verifier::external_body]
pub(crate) fn stack_len(s: &FrameStack) -> (r: usize)
    ensures
        r == frames_of(*s).len(),
{
    s.inner.len()
}

} // verus!

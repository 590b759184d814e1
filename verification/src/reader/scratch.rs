//! Reusable storage for the inline frames of a lookup.
use vstd::prelude::*;
use crate::model::FileIndex;
use smallvec::SmallVec;

verus! {

/// An inline call on the way down to an address.
#[derive(Clone, Copy, Debug, PartialEq, Eq, Structural)]
pub struct RawInlineFrame {
    /// String offset of the name.
    pub name: u64,
    /// File of the call in the parent.
    pub call_file: FileIndex,
    /// Line of the call in the parent.
    pub call_line: u32,
    /// Start of the first range of the call.
    pub start: u64,
}

/// Reusable buffer for address lookup.
///
/// Reusing one scratch across lookups avoids allocating per address. It carries
/// no state between calls, so one per thread is enough. The frames stand in a
/// `smallvec::SmallVec`, which keeps the first few of them in place.
#[derive(Debug)]
#[verifier::external_body]
pub struct LookupScratch {
    inline_frames: SmallVec<[RawInlineFrame; 4]>,
}

/// The frames that a scratch holds, the outermost first.
pub uninterp spec fn frames_held(scratch: LookupScratch) -> Seq<RawInlineFrame>;

/// `SmallVec::new`: an empty vector.
#[verifier::external_body]
fn empty_scratch() -> (scratch: LookupScratch)
    ensures
        frames_held(scratch) == Seq::<RawInlineFrame>::empty(),
{
    LookupScratch { inline_frames: SmallVec::new() }
}

/// `SmallVec::with_capacity`: an empty vector. The call panics where the
/// 24-byte frames would take more than an allocation may, which `requires`
/// leaves out.
#[verifier::external_body]
fn scratch_with_capacity(inline_depth: usize) -> (scratch: LookupScratch)
    requires
        inline_depth as int * 24 <= isize::MAX - 7,
    ensures
        frames_held(scratch) == Seq::<RawInlineFrame>::empty(),
{
    LookupScratch { inline_frames: SmallVec::with_capacity(inline_depth) }
}

impl Default for LookupScratch {
    fn default() -> (scratch: Self)
        ensures
            frames_held(scratch) == Seq::<RawInlineFrame>::empty(),
    {
        empty_scratch()
    }
}

impl LookupScratch {
    /// Creates scratch storage preallocated for `inline_depth` nested frames.
    pub fn with_capacity(inline_depth: usize) -> (scratch: Self)
        requires
            inline_depth as int * 24 <= isize::MAX - 7,
        ensures
            frames_held(scratch) == Seq::<RawInlineFrame>::empty(),
    {
        scratch_with_capacity(inline_depth)
    }

    /// `SmallVec::clear`: removes every item.
    #[verifier::external_body]
    pub(crate) fn clear(&mut self)
        ensures
            frames_held(*final(self)) == Seq::<RawInlineFrame>::empty(),
    {
        self.inline_frames.clear();
    }

    /// `SmallVec::push`: adds an item behind the others. The call panics where
    /// the capacity overflows, which the bound on the length rules out.
    #[verifier::external_body]
    pub(crate) fn push(&mut self, frame: RawInlineFrame)
        requires
            frames_held(*old(self)).len() < 0x1_0000,
        ensures
            frames_held(*final(self)) == frames_held(*old(self)).push(frame),
    {
        self.inline_frames.push(frame);
    }

    /// `SmallVec::len`: the number of items.
    #[verifier::external_body]
    pub(crate) fn len(&self) -> (len: usize)
        ensures
            len == frames_held(*self).len(),
    {
        self.inline_frames.len()
    }

    /// `SmallVec::truncate`: keeps the first `len` items, or all where there
    /// are no more than that.
    #[verifier::external_body]
    pub(crate) fn truncate(&mut self, len: usize)
        ensures
            frames_held(*final(self)) == (if len < frames_held(*old(self)).len() {
                frames_held(*old(self)).subrange(0, len as int)
            } else {
                frames_held(*old(self))
            }),
    {
        self.inline_frames.truncate(len);
    }

    /// `SmallVec::as_slice`: the item at `index`.
    #[verifier::external_body]
    pub(crate) fn frame(&self, index: usize) -> (frame: RawInlineFrame)
        requires
            index < frames_held(*self).len(),
        ensures
            frame == frames_held(*self)[index as int],
    {
        self.inline_frames.as_slice()[index]
    }
}

} // verus!

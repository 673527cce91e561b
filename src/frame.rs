//! Page frames and the allocators that provide them.
use vstd::prelude::*;

verus! {

/// Why an allocation could not be served.
#[derive(Clone, Copy, Debug, PartialEq, Eq, Structural)]
pub enum AllocErr {
    /// The requested alignment is not a power of two, or exceeds the size
    /// of a frame.
    UnsupportedAlignment,
    /// The rounded request exceeds what the heap can hold.
    UnsupportedSize,
    /// The provider has no frame left to give.
    Exhausted,
    /// The request is not supported by this allocator.
    Unsupported,
}

/// A page frame: a block of memory that starts at `base` and is as long as
/// its provider's frame size.
#[derive(Clone, Copy, Debug, PartialEq, Eq, Structural)]
pub struct Frame {
    pub base: usize,
}

/// A frame of `size` bytes at `base` lies in the address space and is
/// aligned to its size.
pub open spec fn frame_ok(base: usize, size: nat) -> bool {
    size > 0 && (base as nat) % size == 0 && base + size <= usize::MAX + 1
}

/// An allocator that provides page frames.
pub trait FrameAllocator {
    /// The size of a frame.
    spec fn spec_frame_size() -> nat;

    /// The allocator's own invariant.
    spec fn inv(&self) -> bool;

    /// Returns the size of a frame.
    fn frame_size() -> (r: usize)
        ensures
            r == Self::spec_frame_size(),
    ;

    /// Returns a new frame, aligned to the frame size.
    fn allocate_frame(&mut self) -> (r: Result<Frame, AllocErr>)
        requires
            old(self).inv(),
        ensures
            final(self).inv(),
            r matches Ok(f) ==> frame_ok(f.base, Self::spec_frame_size()),
            r is Err ==> r == Err::<Frame, AllocErr>(AllocErr::Exhausted),
    ;

    /// Gives a frame back to this allocator.
    fn deallocate_frame(&mut self, frame: Frame) -> (r: Result<(), AllocErr>)
        requires
            old(self).inv(),
            frame_ok(frame.base, Self::spec_frame_size()),
        ensures
            final(self).inv(),
    ;
}

/// A fixed-size cache of frames that can be used as a frame allocator
/// when a normal one is unavailable.
pub struct FrameCache<const FRAME_SIZE: usize> {
    frames: Vec<Option<Frame>>,
}

impl<const FRAME_SIZE: usize> View for FrameCache<FRAME_SIZE> {
    type V = Seq<Option<Frame>>;

    closed spec fn view(&self) -> Seq<Option<Frame>> {
        self.frames@
    }
}

impl<const FRAME_SIZE: usize> FrameCache<FRAME_SIZE> {
    /// Every frame held is aligned to the frame size.
    pub closed spec fn wf(&self) -> bool {
        forall|i: int| 0 <= i < self.frames@.len() && (#[trigger] self.frames@[i]) is Some
            ==> frame_ok(self.frames@[i]->Some_0.base, FRAME_SIZE as nat)
    }

    /// Construct a new `FrameCache` from three provided frames.
    pub fn from_frames(f1: Frame, f2: Frame, f3: Frame) -> (r: Self)
        requires
            frame_ok(f1.base, FRAME_SIZE as nat),
            frame_ok(f2.base, FRAME_SIZE as nat),
            frame_ok(f3.base, FRAME_SIZE as nat),
        ensures
            r.wf(),
            r@ == seq![Some(f1), Some(f2), Some(f3)],
    {
        let r = FrameCache { frames: vec![Some(f1), Some(f2), Some(f3)] };
        assert(r@ =~= seq![Some(f1), Some(f2), Some(f3)]);
        r
    }

    /// Construct a new `FrameCache` with up to three frames allocated by
    /// `alloc`; a place stays empty where `alloc` had no frame to give.
    pub fn from_alloc<A: FrameAllocator>(alloc: &mut A) -> (r: Self)
        requires
            old(alloc).inv(),
            A::spec_frame_size() == FRAME_SIZE,
        ensures
            final(alloc).inv(),
            r.wf(),
            r@.len() == 3,
    {
        let f1 = alloc.allocate_frame().ok();
        let f2 = alloc.allocate_frame().ok();
        let f3 = alloc.allocate_frame().ok();
        Self::from_options(f1, f2, f3)
    }

    /// Construct a new `FrameCache` holding the frames given, with an empty
    /// place for each `None`.
    pub fn from_options(f1: Option<Frame>, f2: Option<Frame>, f3: Option<Frame>) -> (r: Self)
        requires
            f1 matches Some(f) ==> frame_ok(f.base, FRAME_SIZE as nat),
            f2 matches Some(f) ==> frame_ok(f.base, FRAME_SIZE as nat),
            f3 matches Some(f) ==> frame_ok(f.base, FRAME_SIZE as nat),
        ensures
            r.wf(),
            r@ == seq![f1, f2, f3],
    {
        let r = FrameCache { frames: vec![f1, f2, f3] };
        assert(r.frames@ =~= seq![f1, f2, f3]);
        r
    }

    /// Takes the first frame held, if any.
    fn take_frame(&mut self) -> (r: Result<Frame, AllocErr>)
        requires
            old(self).wf(),
        ensures
            final(self).wf(),
            (forall|i: int| 0 <= i < old(self)@.len() ==> old(self)@[i] is None) ==> r == Err::<Frame, AllocErr>(
                AllocErr::Exhausted,
            ) && final(self)@ == old(self)@,
            r is Ok ==> exists|i: int|
                0 <= i < old(self)@.len() && old(self)@[i] == Some(r->Ok_0) && (forall|j: int|
                    0 <= j < i ==> old(self)@[j] is None) && final(self)@ == old(self)@.update(i, None),
            r is Ok || r == Err::<Frame, AllocErr>(AllocErr::Exhausted),
    {
        let mut i: usize = 0;
        while i < self.frames.len()
            invariant
                self == old(self),
                self.wf(),
                i <= self.frames@.len(),
                forall|j: int| 0 <= j < i ==> self.frames@[j] is None,
            decreases self.frames@.len() - i,
        {
            match self.frames[i] {
                Some(f) => {
                    self.frames.set(i, None);
                    assert(old(self)@[i as int] == Some(f));
                    assert forall|j: int| 0 <= j < self.frames@.len() && (#[trigger] self.frames@[j]) is Some
                        implies frame_ok(self.frames@[j]->Some_0.base, FRAME_SIZE as nat) by {
                        assert(self.frames@[j] == old(self).frames@[j]);
                        assert(old(self).frames@[j] is Some);
                    }
                    return Ok(f);
                },
                None => {},
            }
            i = i + 1;
        }
        Err(AllocErr::Exhausted)
    }

    /// Puts `frame` in the first empty place, if there is one.
    fn put_frame(&mut self, frame: Frame) -> (r: Result<(), AllocErr>)
        requires
            old(self).wf(),
            frame_ok(frame.base, FRAME_SIZE as nat),
        ensures
            final(self).wf(),
            (forall|i: int| 0 <= i < old(self)@.len() ==> old(self)@[i] is Some) ==> r == Err::<(), AllocErr>(
                AllocErr::Unsupported,
            ) && final(self)@ == old(self)@,
            r is Ok ==> exists|i: int|
                0 <= i < old(self)@.len() && old(self)@[i] is None && (forall|j: int|
                    0 <= j < i ==> old(self)@[j] is Some) && final(self)@ == old(self)@.update(i, Some(frame)),
            r is Ok || r == Err::<(), AllocErr>(AllocErr::Unsupported),
    {
        let mut i: usize = 0;
        while i < self.frames.len()
            invariant
                self == old(self),
                self.wf(),
                i <= self.frames@.len(),
                forall|j: int| 0 <= j < i ==> self.frames@[j] is Some,
                frame_ok(frame.base, FRAME_SIZE as nat),
            decreases self.frames@.len() - i,
        {
            if self.frames[i].is_none() {
                self.frames.set(i, Some(frame));
                assert(old(self)@[i as int] is None);
                assert forall|j: int| 0 <= j < self.frames@.len() && (#[trigger] self.frames@[j]) is Some
                    implies frame_ok(self.frames@[j]->Some_0.base, FRAME_SIZE as nat) by {
                    if j != i {
                        assert(self.frames@[j] == old(self).frames@[j]);
                        assert(old(self).frames@[j] is Some);
                    }
                }
                return Ok(());
            }
            i = i + 1;
        }
        Err(AllocErr::Unsupported)
    }
}

impl<const FRAME_SIZE: usize> FrameAllocator for FrameCache<FRAME_SIZE> {
    open spec fn spec_frame_size() -> nat {
        FRAME_SIZE as nat
    }

    open spec fn inv(&self) -> bool {
        self.wf()
    }

    fn frame_size() -> (r: usize) {
        FRAME_SIZE
    }

    fn allocate_frame(&mut self) -> (r: Result<Frame, AllocErr>) {
        let r = self.take_frame();
        proof {
            if r is Ok {
                let i = choose|i: int|
                    0 <= i < old(self)@.len() && old(self)@[i] == Some(r->Ok_0) && (forall|j: int|
                        0 <= j < i ==> old(self)@[j] is None) && final(self)@ == old(self)@.update(i, None);
                assert(old(self).frames@[i] is Some);
            }
        }
        r
    }

    fn deallocate_frame(&mut self, frame: Frame) -> (r: Result<(), AllocErr>) {
        self.put_frame(frame)
    }
}

/// An address in the mock page model used to exercise allocators.
#[derive(Clone, Copy, Debug, PartialEq, Eq, Structural)]
pub struct MockAddress(pub usize);

/// A mock 4 KiB page, numbered from the start of the address space.
#[derive(Clone, Copy, Debug, PartialEq, Eq, Structural)]
pub struct MockFrame {
    pub number: usize,
}

/// The size of a mock page.
pub const MOCK_PAGE_SIZE: usize = 4096;

impl MockFrame {
    /// The page's number.
    pub fn number(&self) -> (r: usize)
        ensures
            r == self.number,
    {
        self.number
    }

    /// The first address of the page.
    pub fn base_address(&self) -> (r: MockAddress)
        requires
            self.number * 4096 + 4096 <= usize::MAX + 1,
        ensures
            r.0 == self.number * 4096,
    {
        MockAddress(self.number * MOCK_PAGE_SIZE)
    }

    /// The last address of the page.
    pub fn end_address(&self) -> (r: MockAddress)
        requires
            self.number * 4096 + 4096 <= usize::MAX + 1,
        ensures
            r.0 == self.number * 4096 + 4095,
    {
        MockAddress(self.number * MOCK_PAGE_SIZE + (MOCK_PAGE_SIZE - 1))
    }

    /// The page as a frame of the allocator.
    pub fn to_frame(&self) -> (r: Frame)
        requires
            self.number * 4096 + 4096 <= usize::MAX + 1,
        ensures
            r.base == self.number * 4096,
            frame_ok(r.base, 4096),
    {
        proof {
            vstd::arithmetic::div_mod::lemma_mod_multiples_basic(self.number as int, 4096);
        }
        Frame { base: self.number * MOCK_PAGE_SIZE }
    }
}

} // verus!

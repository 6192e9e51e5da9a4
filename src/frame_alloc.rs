//! The interface through which the mapper obtains frames for page tables.

use crate::paging::{PhysAddr, PhysFrame, PHYS_ADDR_LIMIT};
use crate::physical::BitmapAllocator;
use vstd::prelude::*;

verus! {

/// Why no frame could be allocated.
#[derive(Debug, Clone, Copy, PartialEq, Eq, Structural)]
pub enum FrameAllocError {
    /// No free frame is left.
    OutOfMemory,
    /// The allocator has not been set up.
    NotInitialized,
}

/// A source of 4 KiB physical frames.
pub trait FrameAllocator {
    /// The allocator's own consistency condition.
    spec fn inv(&self) -> bool;

    /// Start addresses of the frames the allocator may still hand out.
    spec fn available(&self) -> Set<u64>;

    /// Start addresses of the frames the allocator counts as in use; a frame
    /// it hands out is one of them until it takes the frame back.
    spec fn allocated(&self) -> Set<u64>;

    /// Hands out a frame that was available and is no longer; the frame lies
    /// below the limit of what an entry can hold. Fails only when no frame
    /// is available.
    fn allocate_frame(&mut self) -> (r: Result<PhysFrame, FrameAllocError>)
        requires
            old(self).inv(),
        ensures
            final(self).inv(),
            match r {
                Ok(f) => {
                    &&& old(self).available().contains(f@)
                    &&& final(self).available() == old(self).available().remove(f@)
                    &&& final(self).allocated() == old(self).allocated().insert(f@)
                    &&& f@ < PHYS_ADDR_LIMIT
                },
                Err(_) => {
                    &&& old(self).available() == Set::<u64>::empty()
                    &&& final(self).available() == old(self).available()
                    &&& final(self).allocated() == old(self).allocated()
                },
            },
    ;

    /// Takes back `frame`: when the allocator counts it as in use, it becomes
    /// available again; otherwise nothing changes.
    fn deallocate_frame(&mut self, frame: PhysFrame)
        requires
            old(self).inv(),
        ensures
            final(self).inv(),
            final(self).allocated() == old(self).allocated().remove(frame@),
            old(self).allocated().contains(frame@) ==> final(self).available() == old(
                self,
            ).available().insert(frame@),
            !old(self).allocated().contains(frame@) ==> final(self).available() == old(
                self,
            ).available(),
    ;
}

/// Frames handed out by a bitmap allocator.
pub struct BitmapFrameAllocator {
    inner: BitmapAllocator,
}

/// Start addresses of the free frames of `a`.
pub open spec fn free_addresses(a: BitmapAllocator) -> Set<u64> {
    Set::new(|p: u64| p % 4096 == 0 && p / 4096 < a.total() && !a.frames()[(p / 4096) as int])
}

/// Start addresses of the allocated (or reserved) frames of `a`.
pub open spec fn used_addresses(a: BitmapAllocator) -> Set<u64> {
    Set::new(|p: u64| p % 4096 == 0 && p / 4096 < a.total() && a.frames()[(p / 4096) as int])
}

impl BitmapFrameAllocator {
    /// Hands out the frames of `inner`.
    pub fn new(inner: BitmapAllocator) -> (r: BitmapFrameAllocator)
        ensures
            r.allocator() == inner,
    {
        BitmapFrameAllocator { inner }
    }

    /// The underlying bitmap allocator.
    pub closed spec fn allocator(self) -> BitmapAllocator {
        self.inner
    }

    /// The underlying bitmap allocator.
    pub fn inner(&self) -> (r: &BitmapAllocator)
        ensures
            *r == self.allocator(),
    {
        &self.inner
    }
}

impl FrameAllocator for BitmapFrameAllocator {
    open spec fn inv(&self) -> bool {
        self.allocator().wf()
    }

    open spec fn available(&self) -> Set<u64> {
        free_addresses(self.allocator())
    }

    open spec fn allocated(&self) -> Set<u64> {
        used_addresses(self.allocator())
    }

    fn allocate_frame(&mut self) -> (r: Result<PhysFrame, FrameAllocError>) {
        let ghost before = self.inner;
        match self.inner.allocate_frame() {
            Some(addr) => {
                let f = PhysFrame::containing_address(PhysAddr::new(addr));
                proof {
                    before.lemma_wf();
                    assert(f@ == addr);
                    assert(free_addresses(self.inner) =~= free_addresses(before).remove(addr));
                    assert(used_addresses(self.inner) =~= used_addresses(before).insert(addr));
                }
                Ok(f)
            },
            None => {
                proof {
                    assert(free_addresses(self.inner) =~= free_addresses(before));
                    assert(used_addresses(self.inner) =~= used_addresses(before));
                    assert(free_addresses(before) =~= Set::<u64>::empty());
                }
                Err(FrameAllocError::OutOfMemory)
            },
        }
    }

    fn deallocate_frame(&mut self, frame: PhysFrame) {
        let ghost before = self.inner;
        let a = frame.start_address().as_u64();
        self.inner.free_frame(a);
        proof {
            let k = a / 4096;
            before.lemma_wf();
            self.inner.lemma_wf();
            if k < before.total() && before.frames()[k as int] {
                assert(self.inner.frames() == before.frames().update(k as int, false));
                assert(used_addresses(before).contains(a));
                assert forall|p: u64| #[trigger]
                    free_addresses(self.inner).contains(p) == free_addresses(before).insert(a).contains(p)
                    && used_addresses(self.inner).contains(p) == used_addresses(before).remove(a).contains(p) by {
                    if p % 4096 == 0 && p / 4096 == k {
                        assert(p == a);
                    }
                }
                assert(free_addresses(self.inner) =~= free_addresses(before).insert(a));
                assert(used_addresses(self.inner) =~= used_addresses(before).remove(a));
            } else {
                assert(self.inner.frames() == before.frames());
                assert(!used_addresses(before).contains(a));
                assert(free_addresses(self.inner) =~= free_addresses(before));
                assert(used_addresses(self.inner) =~= used_addresses(before).remove(a));
            }
        }
    }
}

/// An allocator that never has a frame to give.
pub struct EmptyFrameAllocator;

impl FrameAllocator for EmptyFrameAllocator {
    open spec fn inv(&self) -> bool {
        true
    }

    open spec fn available(&self) -> Set<u64> {
        Set::empty()
    }

    open spec fn allocated(&self) -> Set<u64> {
        Set::empty()
    }

    fn allocate_frame(&mut self) -> (r: Result<PhysFrame, FrameAllocError>) {
        Err(FrameAllocError::OutOfMemory)
    }

    fn deallocate_frame(&mut self, frame: PhysFrame) {
        assert(Set::<u64>::empty().remove(frame@) =~= Set::<u64>::empty());
    }
}

} // verus!

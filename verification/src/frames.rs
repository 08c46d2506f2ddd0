use vstd::prelude::*;
use crate::addr::{Frame, PhysAddr};

verus! {

/// The mask of the bits of a page-table entry that hold a physical address.
/// Every frame handed out by the supply fits this mask, so its address can be
/// stored in an entry without touching any flag bit.
pub const FRAME_ADDR_MASK: u64 = 0x000f_ffff_ffff_f000;

/// A frame address: page-aligned and within the physical address width.
pub open spec fn frame_addr_wf(a: u64) -> bool {
    a & FRAME_ADDR_MASK == a
}

/// A well-formed sequence of free frames: every address fits the entry
/// address mask, and no address appears twice.
pub open spec fn frames_wf(s: Seq<u64>) -> bool {
    &&& forall|i: int| 0 <= i < s.len() ==> frame_addr_wf(#[trigger] s[i])
    &&& forall|i: int, j: int| 0 <= i < j < s.len() ==> s[i] != s[j]
}

/// The pool of free physical frames. The rest of the kernel tracks physical
/// memory elsewhere; mapping and heap growth consume it only through
/// `allocate_frame` and `deallocate_frame`.
pub struct FrameSupply {
    pub frames: Vec<PhysAddr>,
}

impl FrameSupply {
    /// The addresses of the free frames, in the order they will be handed
    /// out: the last element first.
    pub open spec fn view(&self) -> Seq<u64> {
        self.frames@
    }

    /// Every free frame address fits the entry address mask, and no frame is
    /// in the pool twice.
    pub open spec fn wf(&self) -> bool {
        frames_wf(self.frames@)
    }

    pub open spec fn has_frame(&self, a: u64) -> bool {
        self.frames@.contains(a)
    }

    /// An empty pool.
    pub fn new() -> (r: Self)
        ensures
            r.wf(),
            r@ =~= Seq::<u64>::empty(),
    {
        FrameSupply { frames: Vec::new() }
    }

    /// Hands one free frame out of the pool, or `None` when physical memory
    /// is exhausted.
    pub fn allocate_frame(&mut self) -> (r: Option<Frame>)
        requires
            old(self).wf(),
        ensures
            final(self).wf(),
            old(self)@.len() == 0 ==> r is None && final(self)@ == old(self)@,
            old(self)@.len() > 0 ==> {
                &&& r == Some(Frame { start_address: old(self)@.last() })
                &&& final(self)@ == old(self)@.drop_last()
                &&& frame_addr_wf(old(self)@.last())
            },
    {
        match self.frames.pop() {
            Some(a) => Some(Frame { start_address: a }),
            None => None,
        }
    }

    /// Returns a frame to the pool. A frame that is already free is left
    /// where it is, so the pool never lists a frame twice.
    pub fn deallocate_frame(&mut self, frame: Frame) -> (r: ())
        requires
            old(self).wf(),
            frame_addr_wf(frame.start_address),
        ensures
            final(self).wf(),
            old(self).has_frame(frame.start_address) ==> final(self)@ == old(self)@,
            !old(self).has_frame(frame.start_address) ==> final(self)@ == old(self)@.push(
                frame.start_address,
            ),
            final(self).has_frame(frame.start_address),
            forall|f: u64| old(self).has_frame(f) ==> final(self).has_frame(f),
            forall|f: u64|
                final(self).has_frame(f) ==> old(self).has_frame(f) || f == frame.start_address,
    {
        proof {
            assert forall|f: u64| old(self).has_frame(f) implies old(self)@.push(
                frame.start_address,
            ).contains(f) by {
                let i = choose|i: int| 0 <= i < old(self)@.len() && old(self)@[i] == f;
                assert(old(self)@.push(frame.start_address)[i] == f);
            }
            assert forall|f: u64|
                old(self)@.push(frame.start_address).contains(f) implies old(self).has_frame(f)
                || f == frame.start_address by {
                let i = choose|i: int|
                    0 <= i < old(self)@.push(frame.start_address).len() && old(self)@.push(
                        frame.start_address,
                    )[i] == f;
                if i < old(self)@.len() {
                    assert(old(self)@[i] == f);
                }
            }
        }
        if !self.contains_frame(frame.start_address) {
            self.frames.push(frame.start_address);
            proof {
                assert(self@.last() == frame.start_address);
                assert forall|i: int, j: int| 0 <= i < j < self.frames@.len() implies self.frames@[i]
                    != self.frames@[j] by {
                    if j == self.frames@.len() - 1 {
                        assert(old(self).frames@[i] == self.frames@[i]);
                        assert(!old(self)@.contains(frame.start_address));
                    }
                }
            }
        }
    }

    /// Whether `a` is the address of a frame currently in the pool.
    pub fn contains_frame(&self, a: u64) -> (r: bool)
        ensures
            r == self.has_frame(a),
    {
        let mut i: usize = 0;
        while i < self.frames.len()
            invariant
                i <= self.frames@.len(),
                forall|k: int| 0 <= k < i ==> self.frames@[k] != a,
            decreases self.frames@.len() - i,
        {
            if self.frames[i] == a {
                return true;
            }
            i = i + 1;
        }
        false
    }
}

} // verus!

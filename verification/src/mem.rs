//! Physical frames and the area frame allocator.
//!
//! A `Frame` names one physical page by index. The `AreaFrameAllocator`
//! walks a boot-supplied list of usable memory regions, skipping the
//! kernel image and the boot-information blob, and hands out the free
//! frames in ascending order; frames given back are kept on a free list
//! and are reused last-in-first-out before the cursor advances further.

use vstd::prelude::*;
use vstd::arithmetic::div_mod::{
    lemma_div_is_ordered, lemma_div_multiples_vanish, lemma_fundamental_div_mod_converse,
};

verus! {

broadcast use vstd::set::group_set_axioms;

/// Size of one page (and of one frame) in bytes.
pub const PAGE_SIZE: u64 = 4096;

/// Largest frame index the hardware can name: entries carry a 52-bit
/// physical address, so frame indices fit in 40 bits.
pub const MAX_FRAMES: u64 = 0x100_0000_0000;

/// One physical page frame, identified by its index
/// (physical address divided by the page size).
#[derive(Debug, PartialEq, Eq, Structural, PartialOrd, Ord)]
pub struct Frame {
    pub number: u64,
}

impl Frame {
    /// The frame containing the given physical address.
    pub fn containing_address(address: u64) -> (r: Frame)
        ensures
            r.number == address / PAGE_SIZE,
    {
        Frame { number: address / PAGE_SIZE }
    }

    /// The physical address at which this frame starts.
    pub fn start_address(&self) -> (r: u64)
        requires
            self.number * PAGE_SIZE <= u64::MAX,
        ensures
            r == self.number * PAGE_SIZE,
    {
        self.number * PAGE_SIZE
    }

    /// An explicit copy; frames are deliberately not `Copy`, so that
    /// handing one out reads as a transfer of ownership.
    pub fn clone(&self) -> (r: Frame)
        ensures
            r == *self,
    {
        Frame { number: self.number }
    }
}

/// Floor-to-page: for an address `k * PAGE_SIZE + r` with `r` inside the
/// page, the frame containing it starts at `k * PAGE_SIZE` itself.
pub proof fn lemma_containing_address_floors(k: u64, r: u64)
    requires
        r < PAGE_SIZE,
        k * PAGE_SIZE + r <= u64::MAX,
    ensures
        ((k * PAGE_SIZE + r) / (PAGE_SIZE as int)) * PAGE_SIZE == k * PAGE_SIZE,
{
    lemma_fundamental_div_mod_converse(
        k * PAGE_SIZE + r,
        PAGE_SIZE as int,
        k as int,
        r as int,
    );
}

/// The capability to obtain and return exclusive ownership of frames.
///
/// `avail()` is the set of frame indices the allocator may still hand
/// out. Allocation picks a member of that set and removes it; an absent
/// result is only returned once nothing is left. Deallocation puts a
/// frame back.
pub trait FrameAllocator: Sized {
    /// The allocator's internal invariant.
    spec fn wf(&self) -> bool;

    /// The frames this allocator may still hand out.
    spec fn avail(&self) -> Set<u64>;

    fn allocate_frame(&mut self) -> (r: Option<Frame>)
        requires
            old(self).wf(),
        ensures
            final(self).wf(),
            match r {
                Some(f) => old(self).avail().contains(f.number) && f.number < MAX_FRAMES
                    && final(self).avail().subset_of(old(self).avail().remove(f.number)),
                None => final(self).avail() =~= Set::<u64>::empty(),
            },
    ;

    fn deallocate_frame(&mut self, frame: Frame)
        requires
            old(self).wf(),
            !old(self).avail().contains(frame.number),
            frame.number < MAX_FRAMES,
        ensures
            final(self).wf(),
            final(self).avail() =~= old(self).avail().insert(frame.number),
    ;
}

/// One usable region of physical memory reported at boot.
#[derive(Debug, Clone, Copy, PartialEq, Eq, Structural)]
pub struct Region {
    /// First byte of the region.
    pub base: u64,
    /// Length of the region in bytes.
    pub size: u64,
}

/// Physical addresses are limited to 52 bits by the hardware.
pub const MAX_PHYSICAL: u64 = 0x10_0000_0000_0000;

/// Frame allocator over a boot-supplied region map.
///
/// A cursor advances through the usable regions from frame 0 upward and
/// never moves back; deallocated frames are pushed onto a free list and
/// handed out again before the cursor is consulted.
pub struct AreaFrameAllocator {
    /// The usable regions of the boot memory map.
    pub areas: Vec<Region>,
    /// The next frame index the scan will consider.
    pub cursor: u64,
    /// A strict upper bound on every usable frame index.
    pub limit: u64,
    /// First byte of the kernel image.
    pub kernel_start: u64,
    /// Last byte of the kernel image.
    pub kernel_end: u64,
    /// First byte of the boot-information blob.
    pub multiboot_start: u64,
    /// Last byte of the boot-information blob.
    pub multiboot_end: u64,
    /// Frames handed back for reuse, most recent last.
    pub free: Vec<u64>,
}

impl AreaFrameAllocator {
    /// Frame `n` lies entirely inside region `a`.
    pub open spec fn in_area(a: Region, n: u64) -> bool {
        a.base <= n * PAGE_SIZE && (n + 1) * PAGE_SIZE <= a.base + a.size
    }

    /// Frame `n` overlaps the kernel image or the boot-information blob.
    pub open spec fn reserved(self, n: u64) -> bool {
        (self.kernel_start / PAGE_SIZE <= n && n <= self.kernel_end / PAGE_SIZE)
            || (self.multiboot_start / PAGE_SIZE <= n && n <= self.multiboot_end / PAGE_SIZE)
    }

    /// Frame `n` may be handed out: inside some usable region and not reserved.
    pub open spec fn available(self, n: u64) -> bool {
        (exists|i: int|
            0 <= i < self.areas@.len() && Self::in_area(#[trigger] self.areas@[i], n))
            && !self.reserved(n)
    }

    /// The frames still on the free list, as a set.
    pub open spec fn free_set(self) -> Set<u64> {
        self.free@.to_set()
    }

    /// The available frames the cursor has not yet passed.
    pub open spec fn scan_set(self) -> Set<u64> {
        Set::new(|n: u64| n >= self.cursor && self.available(n))
    }

    /// Construct an allocator from the kernel image extents, the
    /// boot-information extents (both as inclusive physical address
    /// ranges) and the usable regions of the boot memory map.
    pub fn new(
        kernel_start: u64,
        kernel_end: u64,
        multiboot_start: u64,
        multiboot_end: u64,
        areas: Vec<Region>,
    ) -> (r: AreaFrameAllocator)
        requires
            forall|i: int|
                0 <= i < areas@.len() ==> (#[trigger] areas@[i]).base + areas@[i].size
                    <= MAX_PHYSICAL,
        ensures
            r.wf(),
            r.areas@ == areas@,
            r.kernel_start == kernel_start,
            r.kernel_end == kernel_end,
            r.multiboot_start == multiboot_start,
            r.multiboot_end == multiboot_end,
            r.cursor == 0,
            r.free@.len() == 0,
            r.avail() =~= Set::new(|n: u64| r.available(n)),
    {
        let mut limit: u64 = 0;
        let mut i: usize = 0;
        while i < areas.len()
            invariant
                0 <= i <= areas@.len(),
                forall|i2: int|
                    0 <= i2 < areas@.len() ==> (#[trigger] areas@[i2]).base + areas@[i2].size
                        <= MAX_PHYSICAL,
                limit <= MAX_FRAMES,
                forall|j: int, n: u64|
                    0 <= j < i && #[trigger] Self::in_area(areas@[j], n) ==> n < limit,
            decreases areas@.len() - i,
        {
            let a = areas[i];
            let c = (a.base + a.size) / PAGE_SIZE;
            proof {
                lemma_div_is_ordered((a.base + a.size) as int, MAX_PHYSICAL as int, PAGE_SIZE as int);
                assert forall|n: u64| Self::in_area(a, n) implies n < c by {
                    lemma_div_is_ordered(
                        (n + 1) * PAGE_SIZE,
                        (a.base + a.size) as int,
                        PAGE_SIZE as int,
                    );
                    lemma_div_multiples_vanish((n + 1) as int, PAGE_SIZE as int);
                }
            }
            if c > limit {
                limit = c;
            }
            i += 1;
        }
        let r = AreaFrameAllocator {
            areas,
            cursor: 0,
            limit,
            kernel_start,
            kernel_end,
            multiboot_start,
            multiboot_end,
            free: Vec::new(),
        };
        proof {
            assert forall|n: u64| r.avail().contains(n) <==> r.available(n) by {
                assert(!r.free@.contains(n));
            }
        }
        r
    }

    /// Whether frame `n` may be handed out, decided against the region
    /// map and the reserved ranges.
    fn is_available(&self, n: u64) -> (r: bool)
        requires
            self.wf(),
            n < MAX_FRAMES,
        ensures
            r == self.available(n),
    {
        if (self.kernel_start / PAGE_SIZE <= n && n <= self.kernel_end / PAGE_SIZE)
            || (self.multiboot_start / PAGE_SIZE <= n && n <= self.multiboot_end / PAGE_SIZE) {
            return false;
        }
        let mut i: usize = 0;
        while i < self.areas.len()
            invariant
                self.wf(),
                n < MAX_FRAMES,
                0 <= i <= self.areas@.len(),
                !self.reserved(n),
                forall|j: int| 0 <= j < i ==> !Self::in_area(#[trigger] self.areas@[j], n),
            decreases self.areas@.len() - i,
        {
            let a = self.areas[i];
            if a.base <= n * PAGE_SIZE && (n + 1) * PAGE_SIZE <= a.base + a.size {
                return true;
            }
            i += 1;
        }
        false
    }
}

impl FrameAllocator for AreaFrameAllocator {
    open spec fn wf(&self) -> bool {
        &&& forall|i: int|
            0 <= i < self.areas@.len() ==> (#[trigger] self.areas@[i]).base
                + self.areas@[i].size <= MAX_PHYSICAL
        &&& forall|i: int, n: u64|
            0 <= i < self.areas@.len() && #[trigger] Self::in_area(self.areas@[i], n) ==> n
                < self.limit
        &&& self.limit <= MAX_FRAMES
        &&& forall|j: int|
            0 <= j < self.free@.len() ==> !((#[trigger] self.free@[j]) >= self.cursor
                && self.available(self.free@[j])) && self.free@[j] < MAX_FRAMES
        &&& self.free@.no_duplicates()
    }

    open spec fn avail(&self) -> Set<u64> {
        self.free_set().union(self.scan_set())
    }

    /// The lowest-numbered usable frame the cursor has not yet passed,
    /// or the most recently returned free frame, or nothing once all
    /// regions are exhausted.
    #[verifier::loop_isolation(false)]
    fn allocate_frame(&mut self) -> (r: Option<Frame>)
        ensures
            final(self).areas@ == old(self).areas@,
            final(self).limit == old(self).limit,
            final(self).kernel_start == old(self).kernel_start,
            final(self).kernel_end == old(self).kernel_end,
            final(self).multiboot_start == old(self).multiboot_start,
            final(self).multiboot_end == old(self).multiboot_end,
            match r {
                Some(f) => if old(self).free@.len() > 0 {
                    &&& f.number == old(self).free@.last()
                    &&& final(self).free@ == old(self).free@.drop_last()
                    &&& final(self).cursor == old(self).cursor
                } else {
                    &&& f.number >= old(self).cursor
                    &&& old(self).available(f.number)
                    &&& forall|m: u64|
                        old(self).cursor <= m < f.number ==> !old(self).available(m)
                    &&& final(self).cursor == f.number + 1
                    &&& final(self).free@ == old(self).free@
                },
                None => {
                    &&& old(self).free@.len() == 0
                    &&& forall|m: u64| m >= old(self).cursor ==> !old(self).available(m)
                    &&& final(self).cursor == old(self).cursor
                    &&& final(self).free@ == old(self).free@
                },
            },
    {
        match self.free.pop() {
            Some(n) => {
                proof {
                    let ghost s0 = *old(self);
                    let ghost s1 = *self;
                    assert(s0.free@[s0.free@.len() - 1] == n);
                    assert(s0.free@.contains(n));
                    assert(s0.avail().contains(n));
                    assert(!(n >= s0.cursor && s0.available(n)));
                    assert forall|m: u64| s1.avail().contains(m) implies s0.avail().remove(
                        n,
                    ).contains(m) by {
                        if s1.free@.contains(m) {
                            let j = choose|j: int|
                                0 <= j < s1.free@.len() && s1.free@[j] == m;
                            assert(s0.free@[j] == m);
                            assert(s0.free@[s0.free@.len() - 1] == n);
                            assert(m != n);
                            assert(s0.free@.contains(m));
                        } else {
                            assert(m >= s1.cursor && s1.available(m));
                            assert(m != n);
                        }
                    }
                    assert(s1.avail().subset_of(s0.avail().remove(n)));
                    assert forall|j: int| 0 <= j < s1.free@.len() implies !((
                    #[trigger] s1.free@[j]) >= s1.cursor && s1.available(s1.free@[j]))
                        && s1.free@[j] < MAX_FRAMES by {
                        assert(s0.free@[j] == s1.free@[j]);
                    }
                    assert(s1.wf());
                }
                Some(Frame { number: n })
            },
            None => {
                let ghost pre = *self;
                proof {
                    assert(pre.free@ == old(self).free@);
                    assert(pre.wf());
                }
                let mut n = self.cursor;
                while n < self.limit
                    invariant
                        *self == pre,
                        pre.wf(),
                        pre.free@.len() == 0,
                        pre.cursor <= n,
                        forall|m: u64| pre.cursor <= m < n ==> !pre.available(m),
                    decreases self.limit - n,
                {
                    let found = self.is_available(n);
                    if found {
                        self.cursor = n + 1;
                        proof {
                            let ghost s0 = *old(self);
                            let ghost s1 = *self;
                            assert(pre.available(n) && n >= pre.cursor);
                            assert(s0.cursor == pre.cursor && s0.free@ == pre.free@
                                && s0.areas@ == pre.areas@ && s0.kernel_start
                                == pre.kernel_start && s0.kernel_end == pre.kernel_end
                                && s0.multiboot_start == pre.multiboot_start
                                && s0.multiboot_end == pre.multiboot_end && s0.limit
                                == pre.limit);
                            assert(s0.available(n));
                            assert(s0.scan_set().contains(n));
                            assert(s0.avail().contains(n));
                            assert forall|m: u64| s1.avail().contains(m) implies
                                s0.avail().remove(n).contains(m) by {
                                assert(!s1.free@.contains(m));
                                assert(m >= s1.cursor && s1.available(m));
                                assert(s1.areas@ == s0.areas@ && s1.kernel_start
                                    == s0.kernel_start && s1.kernel_end == s0.kernel_end
                                    && s1.multiboot_start == s0.multiboot_start
                                    && s1.multiboot_end == s0.multiboot_end);
                                assert(s0.available(m));
                                assert(m >= n + 1 && m > s0.cursor);
                                assert(s0.scan_set().contains(m));
                            }
                            assert(s1.avail().subset_of(s0.avail().remove(n)));
                            assert(s1.wf());
                            assert forall|m: u64| s0.cursor <= m < n implies
                                !s0.available(m) by {
                                assert(pre.cursor <= m < n);
                                assert(!pre.available(m));
                                if s0.available(m) {
                                    let i = choose|i: int|
                                        0 <= i < s0.areas@.len()
                                            && AreaFrameAllocator::in_area(s0.areas@[i], m);
                                    assert(AreaFrameAllocator::in_area(pre.areas@[i], m));
                                    assert(pre.available(m));
                                }
                            }
                        }
                        return Some(Frame { number: n });
                    }
                    n += 1;
                }
                proof {
                    let ghost s0 = *old(self);
                    let ghost s1 = *self;
                    assert(s1 == pre);
                    assert forall|m: u64| m >= s0.cursor implies !s0.available(m) by {
                        assert(s0.cursor == pre.cursor && s0.areas@ == pre.areas@
                            && s0.kernel_start == pre.kernel_start && s0.kernel_end
                            == pre.kernel_end && s0.multiboot_start == pre.multiboot_start
                            && s0.multiboot_end == pre.multiboot_end && s0.limit
                            == pre.limit);
                        if pre.available(m) {
                            assert(m < pre.limit);
                            assert(!(pre.cursor <= m < n));
                        }
                        assert(!pre.available(m));
                    }
                    assert forall|m: u64| !s1.avail().contains(m) by {
                        assert(!s1.free@.contains(m));
                        if m >= s1.cursor && s1.available(m) {
                            assert(s1 == pre);
                            assert(!pre.available(m));
                        }
                    }
                    assert(s1.avail() =~= Set::<u64>::empty());
                    assert(s1.wf());
                }
                None
            },
        }
    }

    /// Return a frame to the free list; it will be handed out again
    /// before the cursor advances.
    fn deallocate_frame(&mut self, frame: Frame)
        ensures
            final(self).areas@ == old(self).areas@,
            final(self).cursor == old(self).cursor,
            final(self).free@ == old(self).free@.push(frame.number),
    {
        proof {
            let ghost s0 = *old(self);
            assert(s0.wf());
            assert(!s0.avail().contains(frame.number));
            assert(!s0.free@.contains(frame.number));
            assert(!s0.scan_set().contains(frame.number));
        }
        self.free.push(frame.number);
        proof {
            let ghost s0 = *old(self);
            let ghost s1 = *self;
            assert(s1.free@ == s0.free@.push(frame.number));
            assert forall|m: u64| s1.avail().contains(m) <==> s0.avail().insert(
                frame.number,
            ).contains(m) by {
                if s1.free@.contains(m) && m != frame.number {
                    let j = choose|j: int| 0 <= j < s1.free@.len() && s1.free@[j] == m;
                    assert(j < s0.free@.len());
                    assert(s0.free@[j] == m);
                    assert(s0.free@.contains(m));
                }
                if s0.free@.contains(m) {
                    let j = choose|j: int| 0 <= j < s0.free@.len() && s0.free@[j] == m;
                    assert(s1.free@[j] == m);
                    assert(s1.free@.contains(m));
                }
                if m == frame.number {
                    assert(s1.free@[s1.free@.len() - 1] == m);
                    assert(s1.free@.contains(m));
                }
            }
            assert(s1.avail() =~= s0.avail().insert(frame.number));
            assert forall|j: int| 0 <= j < s1.free@.len() implies !((#[trigger] s1.free@[j])
                >= s1.cursor && s1.available(s1.free@[j])) && s1.free@[j] < MAX_FRAMES by {
                if j < s1.free@.len() - 1 {
                    assert(s0.free@[j] == s1.free@[j]);
                } else {
                    assert(s1.free@[j] == frame.number);
                    assert(!(frame.number >= s0.cursor && s0.available(frame.number)));
                    assert(s1.cursor == s0.cursor);
                    if frame.number >= s1.cursor && s1.available(frame.number) {
                        assert(s0.available(frame.number));
                    }
                }
            }
            assert forall|i: int, j: int|
                0 <= i < s1.free@.len() && 0 <= j < s1.free@.len() && i != j implies
                s1.free@[i] != s1.free@[j] by {
                if i < s1.free@.len() - 1 && j < s1.free@.len() - 1 {
                    assert(s0.free@[i] == s1.free@[i] && s0.free@[j] == s1.free@[j]);
                } else if i == s1.free@.len() - 1 {
                    assert(s1.free@[i] == frame.number);
                    assert(s0.free@[j] == s1.free@[j]);
                    assert(!s0.free@.contains(frame.number));
                } else {
                    assert(s1.free@[j] == frame.number);
                    assert(s0.free@[i] == s1.free@[i]);
                    assert(!s0.free@.contains(frame.number));
                }
            }
            assert(s1.free@.no_duplicates());
            assert(s1.wf());
        }
    }
}

} // verus!

//! Physical frame allocator.
//!
//! Hands out and reclaims 4 KiB physical page frames from the usable regions the
//! firmware reported: a bitmap with one bit per frame (1 = allocated). Frames
//! outside any usable region, and frames below a caller-supplied watermark, start
//! marked allocated so they are never handed out.
use vstd::prelude::*;
use vstd::set_lib::{lemma_int_range, lemma_set_disjoint_lens, set_int_range};
use crate::abi::memory_map::{MemoryRegion, MemoryRegionKind};
use crate::kernel::error::{KernelError, KernelResult};
use crate::kernel::phys_memory::{zero_words, PhysMemory, Words};

verus! {

/// Page frame size in bytes.
pub const FRAME_SIZE: u64 = 4096;

/// A physical 4 KiB frame, identified by its base physical address (always
/// frame-aligned).
#[derive(Debug, Clone, Copy, PartialEq, Eq, PartialOrd, Ord, Structural)]
pub struct PhysFrame(u64);

impl PhysFrame {
    /// The base address.
    pub closed spec fn base(self) -> u64 {
        self.0
    }

    /// The base address is a multiple of the frame size.
    #[verifier::type_invariant]
    pub closed spec fn aligned(self) -> bool {
        self.0 % 4096 == 0
    }

    /// The frame containing `addr` (rounds down to the frame boundary).
    pub fn containing(addr: u64) -> (f: PhysFrame)
        ensures
            f.base() == addr - addr % 4096,
    {
        PhysFrame(addr - addr % FRAME_SIZE)
    }

    /// The frame with the given frame index (`index * FRAME_SIZE`).
    pub fn from_index(index: u64) -> (f: PhysFrame)
        requires
            index * 4096 <= u64::MAX,
        ensures
            f.base() == index * 4096,
    {
        PhysFrame(index * FRAME_SIZE)
    }

    /// The base physical address of this frame.
    pub fn addr(self) -> (a: u64)
        ensures
            a == self.base(),
            a % 4096 == 0,
    {
        proof {
            use_type_invariant(self);
        }
        self.0
    }

    /// The frame index (`addr / FRAME_SIZE`).
    pub fn index(self) -> (i: u64)
        ensures
            i == self.base() / 4096,
    {
        self.0 / FRAME_SIZE
    }
}

/// Bit `f` of a bitmap.
pub open spec fn bitmap_bit(bitmap: Seq<u64>, f: int) -> bool {
    bitmap[f / 64] & (1u64 << ((f % 64) as u64)) != 0
}

/// Whether frame `f` lies fully inside a usable region.
pub open spec fn frame_in(r: MemoryRegion, f: int) -> bool {
    r.kind is Usable && r.base <= f * 4096 && (f + 1) * 4096 <= r.end_spec()
}

/// Whether frame `f` lies fully inside one of the usable regions.
pub open spec fn frame_usable(regions: Seq<MemoryRegion>, f: int) -> bool {
    exists|i: int| 0 <= i < regions.len() && frame_in(#[trigger] regions[i], f)
}

/// How many frames lie fully inside a region.
pub open spec fn frames_inside(r: MemoryRegion) -> int {
    let first = (r.base + 4095) / 4096;
    let last = r.end_spec() / 4096;
    if r.kind is Usable && first < last {
        last - first
    } else {
        0
    }
}

/// The number of frames inside usable regions, region by region.
pub open spec fn frames_total(regions: Seq<MemoryRegion>) -> int
    decreases regions.len(),
{
    if regions.len() == 0 {
        0
    } else {
        frames_total(regions.drop_last()) + frames_inside(regions.last())
    }
}

/// The frames that lie fully inside one of the usable regions.
pub open spec fn usable_set(regions: Seq<MemoryRegion>) -> Set<int> {
    Set::new(|f: int| frame_usable(regions, f))
}

/// No two usable regions overlap.
pub open spec fn disjoint_regions(regions: Seq<MemoryRegion>) -> bool {
    forall|i: int, j: int|
        0 <= i < j < regions.len() && (#[trigger] regions[i]).kind is Usable && (
        #[trigger] regions[j]).kind is Usable ==> regions[i].end_spec() <= regions[j].base
            || regions[j].end_spec() <= regions[i].base
}

/// The address after the highest usable one.
pub open spec fn usable_end(regions: Seq<MemoryRegion>) -> int
    decreases regions.len(),
{
    if regions.len() == 0 {
        0
    } else {
        let rest = usable_end(regions.drop_last());
        let r = regions.last();
        if r.kind is Usable && r.end_spec() > rest {
            r.end_spec()
        } else {
            rest
        }
    }
}

proof fn lemma_bit64(x: u64, k: u64, l: u64)
    requires
        k < 64,
        l < 64,
    ensures
        (x | (1u64 << k)) & (1u64 << k) != 0,
        (x & !(1u64 << k)) & (1u64 << k) == 0,
        k != l ==> (x | (1u64 << k)) & (1u64 << l) == x & (1u64 << l),
        k != l ==> (x & !(1u64 << k)) & (1u64 << l) == x & (1u64 << l),
        0xffff_ffff_ffff_ffffu64 & (1u64 << k) != 0,
{
    assert((x | (1u64 << k)) & (1u64 << k) != 0) by (bit_vector)
        requires
            k < 64,
    ;
    assert((x & !(1u64 << k)) & (1u64 << k) == 0) by (bit_vector);
    assert(0xffff_ffff_ffff_ffffu64 & (1u64 << k) != 0) by (bit_vector)
        requires
            k < 64,
    ;
    if k != l {
        assert((x | (1u64 << k)) & (1u64 << l) == x & (1u64 << l)) by (bit_vector)
            requires
                k < 64,
                l < 64,
                k != l,
        ;
        assert((x & !(1u64 << k)) & (1u64 << l) == x & (1u64 << l)) by (bit_vector)
            requires
                k < 64,
                l < 64,
                k != l,
        ;
    }
}

/// Writing one bit of a bitmap changes that bit alone.
proof fn lemma_bitmap_update(a: Seq<u64>, b: Seq<u64>, f: int, value: bool)
    requires
        0 <= f < a.len() * 64,
        b == a.update(
            f / 64,
            if value {
                a[f / 64] | (1u64 << ((f % 64) as u64))
            } else {
                a[f / 64] & !(1u64 << ((f % 64) as u64))
            },
        ),
    ensures
        bitmap_bit(b, f) == value,
        forall|g: int|
            0 <= g < a.len() * 64 && g != f ==> #[trigger] bitmap_bit(b, g) == bitmap_bit(a, g),
{
    lemma_bit64(a[f / 64], (f % 64) as u64, (f % 64) as u64);
    assert forall|g: int| 0 <= g < a.len() * 64 && g != f implies #[trigger] bitmap_bit(b, g)
        == bitmap_bit(a, g) by {
        if g / 64 == f / 64 {
            assert(g % 64 != f % 64);
            lemma_bit64(a[f / 64], (f % 64) as u64, (g % 64) as u64);
        }
    }
}

/// The state of a frame allocator: which of `count` frames are free, and where
/// the next search starts.
pub ghost struct Frames {
    pub count: nat,
    pub free: Set<int>,
    pub hint: nat,
    pub usable: nat,
}

/// The first free frame from `from` up to `to`.
pub open spec fn search(free: Set<int>, from: int, to: int) -> Option<int>
    decreases to - from,
{
    if from >= to {
        None
    } else if free.contains(from) {
        Some(from)
    } else {
        search(free, from + 1, to)
    }
}

impl Frames {
    /// The frame that is handed out next: the first free one at or after the
    /// hint, or, if there is none, the first of all.
    pub open spec fn next(self) -> Option<int> {
        match search(self.free, self.hint as int, self.count as int) {
            Some(f) => Some(f),
            None => search(
                self.free,
                0,
                if self.hint < self.count {
                    self.hint as int
                } else {
                    self.count as int
                },
            ),
        }
    }

    /// The state after frame `f` was handed out.
    pub open spec fn without(self, f: int) -> Frames {
        Frames { free: self.free.remove(f), hint: (f + 1) as nat, ..self }
    }

    /// The state after frame `f` was given back.
    pub open spec fn with(self, f: int) -> Frames {
        if 0 <= f < self.count && !self.free.contains(f) {
            Frames {
                free: self.free.insert(f),
                hint: if f < self.hint {
                    f as nat
                } else {
                    self.hint
                },
                ..self
            }
        } else {
            self
        }
    }

    /// Free frames among the first `n`.
    pub open spec fn free_below(self, n: nat) -> nat
        decreases n,
    {
        if n == 0 {
            0
        } else {
            self.free_below((n - 1) as nat) + if self.free.contains(n - 1) {
                1nat
            } else {
                0nat
            }
        }
    }

    /// How many frames are free.
    pub open spec fn free_total(self) -> nat {
        self.free_below(self.count)
    }

    /// Free frames are frames, and their addresses fit in 64 bits.
    pub open spec fn wf(self) -> bool {
        &&& forall|f: int| self.free.contains(f) ==> 0 <= f < self.count
        &&& self.count * 4096 <= u64::MAX
    }
}

/// Every free frame can be reached.
pub open spec fn free_frames_reachable(s: Frames, words: Words) -> bool {
    forall|f: int| #[trigger] s.free.contains(f) ==> words.dom().contains((f * 4096) as u64)
}

/// What a search finds is free, and the first that is.
pub proof fn lemma_search(free: Set<int>, from: int, to: int)
    ensures
        match search(free, from, to) {
            Some(f) => from <= f < to && free.contains(f) && forall|g: int|
                from <= g < f ==> !free.contains(g),
            None => forall|g: int| from <= g < to ==> !free.contains(g),
        },
    decreases to - from,
{
    if from < to {
        lemma_search(free, from + 1, to);
    }
}

/// The frame that is handed out next is free, and there is one as long as any
/// frame is free.
pub proof fn next_frame_is_free(s: Frames)
    requires
        s.wf(),
    ensures
        match s.next() {
            Some(f) => s.free.contains(f) && 0 <= f < s.count,
            None => s.free =~= Set::<int>::empty(),
        },
{
    lemma_search(s.free, s.hint as int, s.count as int);
    lemma_search(
        s.free,
        0,
        if s.hint < s.count {
            s.hint as int
        } else {
            s.count as int
        },
    );
}

/// A bitmap physical frame allocator over the usable memory map.
pub struct FrameAllocator {
    /// One bit per frame, indexed by frame number; 1 = allocated/unavailable.
    bitmap: Vec<u64>,
    /// Number of frames the bitmap covers (frames `0..frame_count`).
    frame_count: u64,
    /// Frames that are usable RAM at all (the ceiling on what can be free).
    usable: u64,
    /// Lowest frame index eligible for allocation (a search hint).
    next_hint: u64,
}

impl View for FrameAllocator {
    type V = Frames;

    closed spec fn view(&self) -> Frames {
        Frames {
            count: self.frame_count as nat,
            free: Set::new(|f: int| self.is_free(f)),
            hint: self.next_hint as nat,
            usable: self.usable as nat,
        }
    }
}

impl FrameAllocator {
    /// The bitmap covers the frames.
    pub closed spec fn bitmap_fits(&self) -> bool {
        &&& self.bitmap@.len() == (self.frame_count + 63) / 64
        &&& self.bitmap@.len() <= usize::MAX
    }

    /// The bitmap covers the frames, and their addresses fit in 64 bits.
    pub open spec fn wf(&self) -> bool {
        self.bitmap_fits() && self@.wf()
    }

    /// Whether frame number `f` is free.
    spec fn is_free(&self, f: int) -> bool {
        0 <= f < self.frame_count && !bitmap_bit(self.bitmap@, f)
    }

    /// Build an allocator from the firmware memory map.
    ///
    /// Every frame fully contained in a usable region and at or above
    /// `reserved_below` starts free; all other frames start allocated so they are
    /// never handed out.
    pub fn from_regions(regions: &[MemoryRegion], reserved_below: u64) -> (fa: FrameAllocator)
        requires
            forall|i: int| 0 <= i < regions@.len() ==> (#[trigger] regions@[i]).fits(),
            frames_total(regions@) <= u64::MAX,
            (usable_end(regions@) / 4096 + 63) / 64 <= usize::MAX,
        ensures
            fa.wf(),
            fa@.count == usable_end(regions@) / 4096,
            fa@.usable == frames_total(regions@),
            disjoint_regions(regions@) ==> fa@.usable == usable_set(regions@).len(),
            fa@.hint == (reserved_below + 4095) / 4096,
            forall|f: int|
                #[trigger] fa@.free.contains(f) <==> frame_usable(regions@, f) && f * 4096
                    >= reserved_below,
    {
        let n: usize = regions.len();
        // The highest usable address determines the bitmap size.
        let mut max_end: u64 = 0;
        let mut i: usize = 0;
        while i < n
            invariant
                i <= n,
                n == regions@.len(),
                forall|i: int| 0 <= i < regions@.len() ==> (#[trigger] regions@[i]).fits(),
                max_end == usable_end(regions@.subrange(0, i as int)),
                forall|j: int|
                    0 <= j < i && (#[trigger] regions@[j]).kind is Usable ==> regions@[j].end_spec()
                        <= max_end,
            decreases n - i,
        {
            let r: MemoryRegion = regions[i];
            let ghost next = regions@.subrange(0, i + 1);
            assert(next.drop_last() =~= regions@.subrange(0, i as int));
            assert(next.last() == r);
            if r.kind == MemoryRegionKind::Usable && r.end() > max_end {
                max_end = r.end();
            }
            i = i + 1;
        }
        assert(regions@.subrange(0, n as int) =~= regions@);
        let frame_count: u64 = max_end / FRAME_SIZE;
        let words: usize = ((frame_count + 63) / 64) as usize;
        let reserved_frame: u64 = reserved_below / FRAME_SIZE + if reserved_below % FRAME_SIZE == 0 {
            0
        } else {
            1
        };
        // Start with everything allocated, then free the usable frames.
        let mut bitmap: Vec<u64> = vec![0xffff_ffff_ffff_ffffu64;words];
        let mut usable: u64 = 0;
        assert forall|f: int| 0 <= f < frame_count implies #[trigger] bitmap_bit(bitmap@, f) by {
            lemma_bit64(0, (f % 64) as u64, 0);
            assert(bitmap@[f / 64] == 0xffff_ffff_ffff_ffffu64);
        }
        let mut i: usize = 0;
        while i < n
            invariant
                i <= n,
                n == regions@.len(),
                forall|i: int| 0 <= i < regions@.len() ==> (#[trigger] regions@[i]).fits(),
                forall|j: int|
                    0 <= j < n && (#[trigger] regions@[j]).kind is Usable ==> regions@[j].end_spec()
                        <= max_end,
                frames_total(regions@) <= u64::MAX,
                frame_count == max_end / 4096,
                words == (frame_count + 63) / 64,
                bitmap@.len() == words,
                reserved_frame == (reserved_below + 4095) / 4096,
                usable == frames_total(regions@.subrange(0, i as int)),
                forall|f: int|
                    0 <= f < frame_count ==> (!#[trigger] bitmap_bit(bitmap@, f) <==> f
                        >= reserved_frame && frame_usable(regions@.subrange(0, i as int), f)),
            decreases n - i,
        {
            let r: MemoryRegion = regions[i];
            let ghost done = regions@.subrange(0, i as int);
            let ghost next = regions@.subrange(0, i + 1);
            proof {
                assert(next.drop_last() =~= done);
                assert(next.last() == r);
                lemma_frames_total_monotone(regions@, i + 1);
                assert(next =~= done.push(r));
            }
            if r.kind == MemoryRegionKind::Usable {
                // Frames fully inside the region: [ceil(base), floor(end)).
                let first: u64 = r.base / FRAME_SIZE + if r.base % FRAME_SIZE == 0 {
                    0
                } else {
                    1
                };
                let last: u64 = r.end() / FRAME_SIZE;
                let mut f: u64 = first;
                let ghost start = usable;
                while f < last
                    invariant
                        first <= f,
                        f <= last || f == first,
                        r.kind is Usable,
                        r.fits(),
                        r.end_spec() <= max_end,
                        first == (r.base + 4095) / 4096,
                        last == r.end_spec() / 4096,
                        last <= frame_count,
                        frame_count == max_end / 4096,
                        words == (frame_count + 63) / 64,
                        bitmap@.len() == words,
                        start + frames_inside(r) <= u64::MAX,
                        usable == start + (f - first),
                        forall|g: int|
                            0 <= g < frame_count ==> (!#[trigger] bitmap_bit(bitmap@, g) <==> g
                                >= reserved_frame && (frame_usable(done, g) || (first <= g < f
                                && frame_in(r, g)))),
                    decreases last - f,
                {
                    usable = usable + 1;
                    if f >= reserved_frame {
                        let ghost before = bitmap@;
                        let w: usize = (f / 64) as usize;
                        let word: u64 = bitmap[w];
                        bitmap[w] = word & !(1u64 << (f % 64));
                        proof {
                            lemma_bitmap_update(before, bitmap@, f as int, false);
                        }
                    }
                    assert(frame_in(r, f as int));
                    f = f + 1;
                }
                assert forall|g: int| 0 <= g < frame_count implies (frame_usable(next, g) <==> (
                frame_usable(done, g) || (first <= g < f && frame_in(r, g)))) by {
                    lemma_frame_usable_push_at(done, r, g);
                }
            } else {
                assert forall|g: int| frame_usable(next, g) == frame_usable(done, g) by {
                    lemma_frame_usable_push_at(done, r, g);
                }
            }
            i = i + 1;
        }
        assert(regions@.subrange(0, n as int) =~= regions@);
        let fa = FrameAllocator { bitmap, frame_count, usable, next_hint: reserved_frame };
        proof {
            if disjoint_regions(regions@) {
                usable_frames_are_distinct(regions@);
            }
        }
        assert forall|f: int| #[trigger] fa@.free.contains(f) <==> frame_usable(regions@, f) && f * 4096
            >= reserved_below by {
            if frame_usable(regions@, f) {
                let j = choose|j: int|
                    0 <= j < regions@.len() && frame_in(#[trigger] regions@[j], f);
                assert(regions@[j].end_spec() <= max_end);
            }
        }
        fa
    }

    /// Whether bit `f` of the bitmap is clear.
    fn clear_at(&self, f: u64) -> (r: bool)
        requires
            self.bitmap_fits(),
            f < self.frame_count,
        ensures
            r == self.is_free(f as int),
    {
        self.bitmap[(f / 64) as usize] & (1u64 << (f % 64)) == 0
    }

    /// Allocate one free frame: the first at or after the hint, or, if there is
    /// none, the first of all.
    pub fn allocate(&mut self) -> (r: KernelResult<PhysFrame>)
        requires
            old(self).wf(),
        ensures
            final(self).wf(),
            match old(self)@.next() {
                Some(f) => {
                    &&& r matches Ok(frame) && frame.base() == f * 4096
                    &&& final(self)@ == old(self)@.without(f)
                },
                None => {
                    &&& r matches Err(e) && e.is_limit("physical frames"@)
                    &&& *final(self) == *old(self)
                },
            },
    {
        let count: u64 = self.frame_count;
        let start: u64 = self.next_hint;
        let ghost free = self@.free;
        let mut f: u64 = start;
        while f < count
            invariant
                *self == *old(self),
                self.wf(),
                free == self@.free,
                count == self.frame_count,
                start == self.next_hint,
                search(free, start as int, count as int) == search(free, f as int, count as int),
            decreases count - f,
        {
            if self.clear_at(f) {
                return Ok(self.take(f));
            }
            f = f + 1;
        }
        let stop: u64 = if start < count {
            start
        } else {
            count
        };
        let mut f: u64 = 0;
        while f < stop
            invariant
                *self == *old(self),
                self.wf(),
                count == self.frame_count,
                free == self@.free,
                start == self.next_hint,
                stop <= count,
                stop == if start < count {
                    start
                } else {
                    count
                },
                search(free, start as int, count as int) is None,
                search(free, 0, stop as int) == search(free, f as int, stop as int),
            decreases stop - f,
        {
            if self.clear_at(f) {
                return Ok(self.take(f));
            }
            f = f + 1;
        }
        Err(KernelError::LimitExceeded { resource: "physical frames" })
    }

    /// Allocate one free frame and zero it.
    pub fn allocate_zeroed<M: PhysMemory>(&mut self, mem: &mut M) -> (r: KernelResult<PhysFrame>)
        requires
            old(self).wf(),
            free_frames_reachable(old(self)@, old(mem).words()),
        ensures
            final(self).wf(),
            match old(self)@.next() {
                Some(f) => {
                    &&& r matches Ok(frame) && frame.base() == f * 4096
                    &&& final(self)@ == old(self)@.without(f)
                    &&& final(mem).words() == old(mem).words().insert(
                        (f * 4096) as u64,
                        zero_words(),
                    )
                },
                None => {
                    &&& r matches Err(e) && e.is_limit("physical frames"@)
                    &&& *final(self) == *old(self)
                    &&& *final(mem) == *old(mem)
                },
            },
    {
        proof {
            next_frame_is_free(self@);
        }
        match self.allocate() {
            Err(e) => Err(e),
            Ok(frame) => {
                mem.zero_frame(frame);
                Ok(frame)
            },
        }
    }

    /// Mark the free frame `f` as allocated.
    fn take(&mut self, f: u64) -> (frame: PhysFrame)
        requires
            old(self).wf(),
            old(self).is_free(f as int),
        ensures
            final(self).wf(),
            frame.base() == f * 4096,
            final(self)@ == old(self)@.without(f as int),
    {
        let ghost before = self.bitmap@;
        let w: usize = (f / 64) as usize;
        let word: u64 = self.bitmap[w];
        self.bitmap[w] = word | (1u64 << (f % 64));
        proof {
            lemma_bitmap_update(before, self.bitmap@, f as int, true);
        }
        self.next_hint = f + 1;
        assert(self@.free =~= old(self)@.free.remove(f as int));
        PhysFrame::from_index(f)
    }

    /// Return a frame to the free pool. Double-frees are ignored (idempotent), and
    /// so are frames that are not managed.
    pub fn free(&mut self, frame: PhysFrame)
        requires
            old(self).wf(),
        ensures
            final(self).wf(),
            final(self)@ == old(self)@.with(frame.base() as int / 4096),
    {
        let f: u64 = frame.index();
        if f >= self.frame_count {
            return;
        }
        if !self.clear_at(f) {
            let ghost before = self.bitmap@;
            let w: usize = (f / 64) as usize;
            let word: u64 = self.bitmap[w];
            self.bitmap[w] = word & !(1u64 << (f % 64));
            proof {
                lemma_bitmap_update(before, self.bitmap@, f as int, false);
            }
            if f < self.next_hint {
                self.next_hint = f;
            }
            assert(self@.free =~= old(self)@.free.insert(f as int));
        }
    }

    /// Total usable frames (free + allocated, excluding non-RAM).
    pub fn usable_frames(&self) -> (n: u64)
        ensures
            n == self@.usable,
    {
        self.usable
    }

    /// Currently free frames available for allocation.
    pub fn free_frames(&self) -> (n: u64)
        requires
            self.wf(),
        ensures
            n == self@.free_total(),
    {
        let mut free: u64 = 0;
        let mut f: u64 = 0;
        while f < self.frame_count
            invariant
                self.wf(),
                f <= self.frame_count,
                free <= f,
                free == self@.free_below(f as nat),
            decreases self.frame_count - f,
        {
            if self.clear_at(f) {
                free = free + 1;
            }
            f = f + 1;
        }
        free
    }

    /// Whether the given frame is currently allocated. A frame that is not managed
    /// counts as allocated.
    pub fn is_allocated(&self, frame: PhysFrame) -> (r: bool)
        requires
            self.wf(),
        ensures
            r == !self@.free.contains(frame.base() as int / 4096),
    {
        let f: u64 = frame.index();
        if f >= self.frame_count {
            return true;
        }
        !self.clear_at(f)
    }
}

/// Where one frame is free in `b` and not in `a`, `b` has one free frame more.
proof fn lemma_free_below(a: Frames, b: Frames, f: int, n: nat)
    requires
        b.free == a.free.insert(f),
        !a.free.contains(f),
        0 <= f,
    ensures
        b.free_below(n) == a.free_below(n) + if f < n {
            1nat
        } else {
            0nat
        },
    decreases n,
{
    if n > 0 {
        lemma_free_below(a, b, f, (n - 1) as nat);
    }
}

/// A frame handed out is one free frame less; given back, it is free again and
/// counted again, and a second return changes nothing.
pub proof fn frame_goes_out_and_comes_back(s: Frames, f: int)
    requires
        s.wf(),
        s.free.contains(f),
    ensures
        s.without(f).free_total() + 1 == s.free_total(),
        !s.without(f).free.contains(f),
        s.without(f).with(f).free == s.free,
        s.without(f).with(f).free_total() == s.free_total(),
        s.without(f).with(f).with(f) == s.without(f).with(f),
{
    let out = s.without(f);
    let back = out.with(f);
    assert(back.free =~= s.free);
    assert(s.free =~= out.free.insert(f));
    lemma_free_below(out, s, f, s.count);
    lemma_free_below(out, back, f, s.count);
}

/// A frame given back right after it was handed out is the next one handed out.
pub proof fn freed_frame_is_reused(s: Frames, f: int)
    requires
        s.wf(),
        s.next() == Some(f),
    ensures
        s.without(f).with(f).next() == Some(f),
{
    next_frame_is_free(s);
    let back = s.without(f).with(f);
    assert(back.free =~= s.free);
    assert(back.hint == f);
    assert(search(back.free, f, back.count as int) == Some(f));
}

proof fn lemma_frames_total_monotone(regions: Seq<MemoryRegion>, k: int)
    requires
        0 <= k <= regions.len(),
    ensures
        frames_total(regions.subrange(0, k)) <= frames_total(regions),
    decreases regions.len() - k,
{
    if k < regions.len() {
        lemma_frames_total_monotone(regions, k + 1);
        assert(regions.subrange(0, k + 1).drop_last() =~= regions.subrange(0, k));
    } else {
        assert(regions.subrange(0, k) =~= regions);
    }
}

proof fn lemma_frame_usable_push_at(done: Seq<MemoryRegion>, r: MemoryRegion, f: int)
    ensures
        frame_usable(done.push(r), f) == (frame_usable(done, f) || frame_in(r, f)),
{
    let next = done.push(r);
    if frame_usable(done, f) {
        let j = choose|j: int| 0 <= j < done.len() && frame_in(#[trigger] done[j], f);
        assert(next[j] == done[j]);
    }
    if frame_in(r, f) {
        assert(next[done.len() as int] == r);
    }
    if frame_usable(next, f) {
        let j = choose|j: int| 0 <= j < next.len() && frame_in(#[trigger] next[j], f);
        if j < done.len() {
            assert(done[j] == next[j]);
        }
    }
}

/// Where no two usable regions overlap, the frames counted region by region are the
/// distinct frames that lie fully inside a usable region.
pub proof fn usable_frames_are_distinct(regions: Seq<MemoryRegion>)
    requires
        disjoint_regions(regions),
    ensures
        usable_set(regions).finite(),
        usable_set(regions).len() == frames_total(regions),
    decreases regions.len(),
{
    if regions.len() == 0 {
        assert(usable_set(regions) =~= Set::<int>::empty());
    } else {
        let init = regions.drop_last();
        let r = regions.last();
        let last = regions.len() - 1;
        assert forall|i: int, j: int|
            0 <= i < j < init.len() && (#[trigger] init[i]).kind is Usable && (
            #[trigger] init[j]).kind is Usable implies init[i].end_spec() <= init[j].base
            || init[j].end_spec() <= init[i].base by {
            assert(regions[i] == init[i] && regions[j] == init[j]);
        }
        usable_frames_are_distinct(init);
        let first = (r.base + 4095) / 4096;
        let end = r.end_spec() / 4096;
        let inside: Set<int> = if r.kind is Usable && first < end {
            set_int_range(first, end)
        } else {
            Set::empty()
        };
        if r.kind is Usable && first < end {
            lemma_int_range(first, end);
        }
        assert forall|f: int| inside.contains(f) <==> frame_in(r, f) by {}
        assert(regions =~= init.push(r));
        assert forall|f: int| #[trigger] usable_set(regions).contains(f) <==> usable_set(
            init,
        ).contains(f) || inside.contains(f) by {
            lemma_frame_usable_push_at(init, r, f);
        }
        assert(usable_set(regions) =~= usable_set(init) + inside);
        assert forall|f: int| !(usable_set(init).contains(f) && inside.contains(f)) by {
            if usable_set(init).contains(f) && inside.contains(f) {
                let i = choose|i: int| 0 <= i < init.len() && frame_in(#[trigger] init[i], f);
                assert(regions[i] == init[i]);
                assert(regions[last] == r);
                assert(regions[i].kind is Usable && regions[last].kind is Usable);
            }
        }
        assert(usable_set(init).disjoint(inside));
        lemma_set_disjoint_lens(usable_set(init), inside);
    }
}

/// The free frames that are counted are the distinct ones.
pub proof fn free_frames_are_distinct(s: Frames)
    requires
        s.wf(),
    ensures
        s.free.finite(),
        s.free.len() == s.free_total(),
{
    lemma_free_below_size(s, s.count);
    let below = s.free.intersect(set_int_range(0, s.count as int));
    assert(below =~= s.free);
}

/// Counting up to `n` counts the free frames below `n`.
proof fn lemma_free_below_size(s: Frames, n: nat)
    ensures
        s.free.intersect(set_int_range(0, n as int)).finite(),
        s.free.intersect(set_int_range(0, n as int)).len() == s.free_below(n),
    decreases n,
{
    let here = s.free.intersect(set_int_range(0, n as int));
    if n == 0 {
        assert(here =~= Set::<int>::empty());
    } else {
        let before = s.free.intersect(set_int_range(0, n - 1));
        lemma_free_below_size(s, (n - 1) as nat);
        if s.free.contains(n - 1) {
            assert(here =~= before.insert(n - 1));
            assert(!before.contains(n - 1));
        } else {
            assert(here =~= before);
        }
    }
}

/// Frames and addresses. A frame is 4096 bytes: the one that contains an address starts at
/// the multiple of that at or below it, and frame number `i` at `i` times that.
pub proof fn frames_are_4096_bytes(
    addr: u64,
    f: PhysFrame,
    i: u64,
    g: PhysFrame,
    j: u64,
    a: u64,
)
    requires
        call_ensures(PhysFrame::containing, (addr,), f),
        i * 4096 <= u64::MAX,
        call_ensures(PhysFrame::from_index, (i,), g),
        call_ensures(PhysFrame::index, (f,), j),
        call_ensures(PhysFrame::addr, (f,), a),
    ensures
        a == f.base(),
        a % 4096 == 0 && a <= addr && addr - a < 4096,
        j * 4096 <= addr && addr < (j + 1) * 4096,
        g.base() == i * 4096,
{
}

/// Which frames an allocator over a memory map has to give: those that lie wholly inside
/// usable memory and not below the reserved address, and no others.
pub proof fn usable_memory_is_free_at_first(
    map: &[MemoryRegion],
    reserved_below: u64,
    fa: FrameAllocator,
    frame: PhysFrame,
    taken: bool,
    r: int,
)
    requires
        call_ensures(FrameAllocator::from_regions, (map, reserved_below), fa),
        call_ensures(FrameAllocator::is_allocated, (&fa, frame), taken),
        frame.base() % 4096 == 0,
        0 <= r < map@.len(),
    ensures
        map@[r].kind is Usable && map@[r].base <= frame.base() && frame.base() + 4096
            <= map@[r].base + map@[r].length && frame.base() >= reserved_below ==> !taken,
        !taken ==> frame.base() >= reserved_below && exists|k: int|
            0 <= k < map@.len() && (#[trigger] map@[k]).kind is Usable && map@[k].base
                <= frame.base() && frame.base() + 4096 <= map@[k].base + map@[k].length,
{
    let f = frame.base() as int / 4096;
    assert(frame.base() == f * 4096);
    assert(fa@.free.contains(f) <==> frame_usable(map@, f) && f * 4096 >= reserved_below);
    if frame_in(map@[r], f) {
        assert(frame_usable(map@, f));
    }
    if frame_usable(map@, f) {
        let k = choose|k: int| 0 <= k < map@.len() && frame_in(#[trigger] map@[k], f);
        assert(map@[k].kind is Usable);
    }
}

/// What allocating and freeing do: a frame that was free is given, taken then, and one fewer
/// is free; given back, it is free and counted again. It fails exactly where none is free.
/// No other frame changes hands. The frame given is the first free one at or after the
/// hint, or, where there is none, the first of all.
pub proof fn allocated_frames_are_taken(
    a: &mut FrameAllocator,
    mid: FrameAllocator,
    r: KernelResult<PhysFrame>,
    frame: PhysFrame,
    was: bool,
    now: bool,
    other: PhysFrame,
    other_was: bool,
    other_is: bool,
    before: u64,
    between: u64,
    f: &mut FrameAllocator,
    end: FrameAllocator,
    again: bool,
    after: u64,
)
    requires
        old(a).wf(),
        mid == *final(a),
        call_ensures(FrameAllocator::allocate, (a,), r),
        r == Ok::<PhysFrame, KernelError>(frame),
        call_ensures(FrameAllocator::is_allocated, (&*old(a), frame), was),
        call_ensures(FrameAllocator::is_allocated, (&mid, frame), now),
        other.base() as int / 4096 != frame.base() as int / 4096,
        call_ensures(FrameAllocator::is_allocated, (&*old(a), other), other_was),
        call_ensures(FrameAllocator::is_allocated, (&mid, other), other_is),
        call_ensures(FrameAllocator::free_frames, (&*old(a),), before),
        call_ensures(FrameAllocator::free_frames, (&mid,), between),
        *old(f) == mid,
        end == *final(f),
        call_ensures(FrameAllocator::free, (f, frame), ()),
        call_ensures(FrameAllocator::is_allocated, (&end, frame), again),
        call_ensures(FrameAllocator::free_frames, (&end,), after),
    ensures
        !was && now && !again,
        other_is == other_was,
        between + 1 == before && after == before,
        ({
            let n = frame.base() as int / 4096;
            let hint = old(a)@.hint as int;
            ||| n >= hint && forall|g: int| hint <= g < n ==> !#[trigger] old(a)@.free.contains(g)
            ||| n < hint && forall|g: int| #[trigger] old(a)@.free.contains(g) ==> n <= g < hint
        }),
{
    let s = old(a)@;
    next_frame_is_free(s);
    let n = s.next()->Some_0;
    assert(frame.base() as int / 4096 == n);
    frame_goes_out_and_comes_back(s, n);
    lemma_search(s.free, s.hint as int, s.count as int);
    let stop = if s.hint < s.count {
        s.hint as int
    } else {
        s.count as int
    };
    lemma_search(s.free, 0, stop);
}

/// Frames go out in order: the next one lies behind the last, unless none there is free; no
/// frame goes out twice without coming back. Allocating fails exactly where no frame is
/// free, and then changes nothing. One given back from before where the search would start
/// is found by it.
pub proof fn frames_go_out_in_order(
    a: &mut FrameAllocator,
    before: u64,
    r: KernelResult<PhysFrame>,
    first: PhysFrame,
    b: &mut FrameAllocator,
    second: PhysFrame,
    f: &mut FrameAllocator,
    back: PhysFrame,
)
    requires
        old(a).wf(),
        call_ensures(FrameAllocator::free_frames, (&*old(a),), before),
        call_ensures(FrameAllocator::allocate, (a,), r),
        r is Ok ==> r->Ok_0 == first,
        *old(b) == *final(a),
        call_ensures(FrameAllocator::allocate, (b,), Ok(second)),
        call_ensures(FrameAllocator::free, (f, back), ()),
    ensures
        r is Err <==> before == 0,
        r is Err ==> *final(a) == *old(a),
        r is Ok ==> first.base() != second.base(),
        r is Ok && second.base() < first.base() ==> forall|g: int|
            #[trigger] old(a)@.free.contains(g) ==> g <= first.base() as int / 4096,
        final(f)@.hint <= old(f)@.hint,
        !old(f)@.free.contains(back.base() as int / 4096) && (back.base() as int / 4096)
            < old(f)@.count ==> final(f)@.hint <= back.base() as int / 4096,
        final(f)@.hint == old(f)@.hint || final(f)@.hint == back.base() as int / 4096,
        final(f)@.count == old(f)@.count && final(f)@.usable == old(f)@.usable,
{
    let s = old(a)@;
    next_frame_is_free(s);
    match s.next() {
        None => {
            lemma_none_below(s, s.count);
        },
        Some(n) => {
            frame_goes_out_and_comes_back(s, n);
            let t = old(b)@;
            next_frame_is_free(t);
            lemma_search(t.free, t.hint as int, t.count as int);
            let m = t.next()->Some_0;
            assert(first.base() as int / 4096 == n && second.base() as int / 4096 == m);
            assert forall|g: int| second.base() < first.base() && #[trigger] s.free.contains(
                g,
            ) implies g <= n by {
                if g > n {
                    assert(t.free.contains(g));
                }
            }
        },
    }
}

/// Where no frame is free none is counted.
proof fn lemma_none_below(s: Frames, n: nat)
    requires
        s.free =~= Set::<int>::empty(),
    ensures
        s.free_below(n) == 0,
    decreases n,
{
    if n > 0 {
        lemma_none_below(s, (n - 1) as nat);
    }
}

} // verus!

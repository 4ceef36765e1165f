//! Heap accounting: live and peak byte totals.
use vstd::prelude::*;

verus! {

/// Live and peak totals of a heap, in bytes.
#[derive(Debug, Clone, Copy, PartialEq, Eq, Structural)]
pub struct HeapMeter {
    /// Bytes allocated now.
    pub allocated: usize,
    /// The most bytes that were allocated at a time.
    pub peak: usize,
}

impl HeapMeter {
    /// The peak is a peak.
    pub open spec fn wf(self) -> bool {
        self.allocated <= self.peak
    }

    /// Nothing allocated.
    pub fn new() -> (m: HeapMeter)
        ensures
            m == (HeapMeter { allocated: 0, peak: 0 }),
    {
        HeapMeter { allocated: 0, peak: 0 }
    }

    /// Account for an allocation of `size` bytes, raising the peak if it is a new
    /// one.
    pub fn note_alloc(&mut self, size: usize)
        requires
            old(self).wf(),
            old(self).allocated + size <= usize::MAX,
        ensures
            final(self).wf(),
            final(self).allocated == old(self).allocated + size,
            final(self).peak == if final(self).allocated > old(self).peak {
                final(self).allocated
            } else {
                old(self).peak
            },
    {
        self.allocated = self.allocated + size;
        if self.allocated > self.peak {
            self.peak = self.allocated;
        }
    }

    /// Account for a deallocation of `size` bytes.
    pub fn note_dealloc(&mut self, size: usize)
        requires
            old(self).wf(),
            size <= old(self).allocated,
        ensures
            final(self).wf(),
            final(self).allocated == old(self).allocated - size,
            final(self).peak == old(self).peak,
    {
        self.allocated = self.allocated - size;
    }

    /// Bytes currently allocated.
    pub fn allocated_bytes(&self) -> (n: usize)
        ensures
            n == self.allocated,
    {
        self.allocated
    }

    /// The high-water mark of allocated bytes.
    pub fn peak_bytes(&self) -> (n: usize)
        ensures
            n == self.peak,
    {
        self.peak
    }
}

impl Default for HeapMeter {
    fn default() -> (m: HeapMeter)
        ensures
            m == (HeapMeter { allocated: 0, peak: 0 }),
    {
        HeapMeter::new()
    }
}

/// What is given back counts no more, and the peak remembers what was allocated at most: no
/// less than now, and no more than was ever allocated at a time.
pub proof fn heap_is_metered(
    a: &mut HeapMeter,
    size: usize,
    b: &mut HeapMeter,
    mid: HeapMeter,
    live: usize,
    most: usize,
)
    requires
        old(a).wf(),
        old(a).allocated + size <= usize::MAX,
        call_ensures(HeapMeter::note_alloc, (a, size), ()),
        mid == *final(a),
        *old(b) == *final(a),
        call_ensures(HeapMeter::note_dealloc, (b, size), ()),
        call_ensures(HeapMeter::allocated_bytes, (&mid,), live),
        call_ensures(HeapMeter::peak_bytes, (&mid,), most),
    ensures
        live - old(a).allocated == size,
        most >= live && most >= old(a).peak,
        most == live || most == old(a).peak,
        final(b).allocated == old(a).allocated,
        final(b).peak == most,
{
}

} // verus!

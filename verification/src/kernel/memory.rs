//! Memory manager.
//!
//! Tracks the physical memory the firmware reported and the per-boundary
//! reservations made against it, and enforces that the sum of reservations never
//! exceeds the usable total. Mapping pages is the paging code's business.
use vstd::prelude::*;
use crate::abi::ids::BoundaryId;
use crate::abi::memory_map::{MemoryRegion, MemoryRegionKind};
use crate::kernel::error::{KernelError, KernelResult};
use crate::sorted_map::SortedMap;

verus! {

/// Addition that stops at the largest u64.
pub open spec fn capped(x: int) -> u64 {
    if x > u64::MAX {
        u64::MAX
    } else {
        x as u64
    }
}

/// The usable regions of a memory map, in order.
pub open spec fn usable_regions(regions: Seq<MemoryRegion>) -> Seq<MemoryRegion>
    decreases regions.len(),
{
    if regions.len() == 0 {
        Seq::empty()
    } else if regions.last().kind is Usable {
        usable_regions(regions.drop_last()).push(regions.last())
    } else {
        usable_regions(regions.drop_last())
    }
}

/// The bytes of a list of regions together, capped.
pub open spec fn region_bytes(regions: Seq<MemoryRegion>) -> u64
    decreases regions.len(),
{
    if regions.len() == 0 {
        0
    } else {
        capped(region_bytes(regions.drop_last()) + regions.last().length)
    }
}

/// The state of the memory accounting.
pub ghost struct Reservations {
    pub regions: Seq<MemoryRegion>,
    pub total: u64,
    pub reserved: u64,
    pub by_boundary: Map<u64, u64>,
}

impl Reservations {
    /// What `boundary` has reserved.
    pub open spec fn of(self, boundary: BoundaryId) -> u64 {
        if self.by_boundary.dom().contains(boundary.0) {
            self.by_boundary[boundary.0]
        } else {
            0
        }
    }

    /// Whether `bytes` more can be reserved.
    pub open spec fn fits(self, bytes: u64) -> bool {
        self.reserved + bytes <= self.total
    }

    /// `bytes` more reserved for `boundary`.
    pub open spec fn with(self, boundary: BoundaryId, bytes: u64) -> Reservations {
        Reservations {
            reserved: (self.reserved + bytes) as u64,
            by_boundary: self.by_boundary.insert(
                boundary.0,
                (self.of(boundary) + bytes) as u64,
            ),
            ..self
        }
    }

    /// Everything that `boundary` has reserved given back.
    pub open spec fn without(self, boundary: BoundaryId) -> Reservations {
        if self.by_boundary.dom().contains(boundary.0) {
            Reservations {
                reserved: if self.of(boundary) > self.reserved {
                    0
                } else {
                    (self.reserved - self.of(boundary)) as u64
                },
                by_boundary: self.by_boundary.remove(boundary.0),
                ..self
            }
        } else {
            self
        }
    }

    /// What is reserved is the sum over the boundaries, and no more than there is.
    pub open spec fn balanced(self) -> bool {
        &&& self.by_boundary.dom().finite()
        &&& self.reserved == sum_of(self.by_boundary)
        &&& self.reserved <= self.total
    }
}

/// The sum of the values of a finite map.
pub open spec fn sum_of(m: Map<u64, u64>) -> nat
    decreases m.dom().len(),
    when m.dom().finite()
{
    if m.dom().len() == 0 {
        0
    } else {
        let k = m.dom().choose();
        m[k] as nat + sum_of(m.remove(k))
    }
}

/// Any entry can be taken out of a sum.
proof fn lemma_sum_remove(m: Map<u64, u64>, k: u64)
    requires
        m.dom().finite(),
        m.dom().contains(k),
    ensures
        sum_of(m) == m[k] as nat + sum_of(m.remove(k)),
    decreases m.dom().len(),
{
    let c = m.dom().choose();
    assert(m.dom().len() > 0);
    assert(m.dom().contains(c));
    if c != k {
        let without_c = m.remove(c);
        let without_k = m.remove(k);
        assert(without_c.dom() =~= m.dom().remove(c));
        assert(without_k.dom() =~= m.dom().remove(k));
        lemma_sum_remove(without_c, k);
        lemma_sum_remove(without_k, c);
        assert(without_c.remove(k) =~= without_k.remove(c));
    }
}

/// Physical memory accounting for the kernel.
pub struct MemoryManager {
    regions: Vec<MemoryRegion>,
    total_usable: u64,
    reserved: u64,
    by_boundary: SortedMap<u64>,
}

impl View for MemoryManager {
    type V = Reservations;

    closed spec fn view(&self) -> Reservations {
        Reservations {
            regions: self.regions@,
            total: self.total_usable,
            reserved: self.reserved,
            by_boundary: self.by_boundary@,
        }
    }
}

impl MemoryManager {
    /// The list of reservations is in order, and the accounts are balanced.
    pub closed spec fn wf(&self) -> bool {
        &&& self.by_boundary.wf()
        &&& self@.balanced()
    }

    /// The accounts are balanced in every state: the reservations add up to what is
    /// reserved, which is no more than the usable total.
    pub proof fn accounts_are_balanced(&self)
        requires
            self.wf(),
        ensures
            self@.balanced(),
    {
    }

    /// Build a manager from the firmware memory map, summing the usable regions.
    pub fn from_regions(regions: &[MemoryRegion]) -> (m: MemoryManager)
        ensures
            m.wf(),
            m@ == (Reservations {
                regions: usable_regions(regions@),
                total: region_bytes(usable_regions(regions@)),
                reserved: 0,
                by_boundary: Map::empty(),
            }),
    {
        let mut usable: Vec<MemoryRegion> = Vec::new();
        let mut total: u64 = 0;
        let mut i: usize = 0;
        while i < regions.len()
            invariant
                i <= regions@.len(),
                usable@ == usable_regions(regions@.subrange(0, i as int)),
                total == region_bytes(usable@),
            decreases regions@.len() - i,
        {
            let r: MemoryRegion = regions[i];
            proof {
                let next = regions@.subrange(0, i + 1);
                assert(next.drop_last() =~= regions@.subrange(0, i as int));
                assert(next.last() == r);
            }
            if r.kind == MemoryRegionKind::Usable {
                assert(usable@.push(r).drop_last() =~= usable@);
                usable.push(r);
                total = total.saturating_add(r.length);
            }
            i = i + 1;
        }
        assert(regions@.subrange(0, regions@.len() as int) =~= regions@);
        let m = MemoryManager {
            regions: usable,
            total_usable: total,
            reserved: 0,
            by_boundary: SortedMap::new(),
        };
        proof {
            nothing_is_reserved_at_first(m@);
        }
        m
    }

    /// Total usable RAM in bytes.
    pub fn total_usable(&self) -> (n: u64)
        ensures
            n == self@.total,
    {
        self.total_usable
    }

    /// Currently unreserved RAM in bytes.
    pub fn available(&self) -> (n: u64)
        ensures
            n == if self@.reserved > self@.total {
                0
            } else {
                self@.total - self@.reserved
            },
    {
        self.total_usable.saturating_sub(self.reserved)
    }

    /// Number of usable regions.
    pub fn region_count(&self) -> (n: usize)
        ensures
            n == self@.regions.len(),
    {
        self.regions.len()
    }

    /// Reserve `bytes` for `boundary`, adding to any existing reservation.
    pub fn reserve(&mut self, boundary: BoundaryId, bytes: u64) -> (r: KernelResult<()>)
        requires
            old(self).wf(),
        ensures
            final(self).wf(),
            if old(self)@.fits(bytes) {
                r is Ok && final(self)@ == old(self)@.with(boundary, bytes)
            } else {
                (r matches Err(e) && e.is_limit("memory"@)) && *final(self) == *old(self)
            },
    {
        let new_reserved: u64 = match self.reserved.checked_add(bytes) {
            Some(n) => n,
            None => return Err(KernelError::LimitExceeded { resource: "memory" }),
        };
        if new_reserved > self.total_usable {
            return Err(KernelError::LimitExceeded { resource: "memory" });
        }
        let had: u64 = self.reservation(boundary);
        proof {
            reserving_keeps_the_balance(self@, boundary, bytes);
        }
        self.reserved = new_reserved;
        self.by_boundary.insert(boundary.0, had + bytes);
        Ok(())
    }

    /// Release all memory reserved by `boundary` (called when it is destroyed).
    pub fn release_all(&mut self, boundary: BoundaryId)
        requires
            old(self).wf(),
        ensures
            final(self).wf(),
            final(self)@ == old(self)@.without(boundary),
    {
        proof {
            releasing_keeps_the_balance(self@, boundary, boundary);
        }
        match self.by_boundary.remove(boundary.0) {
            Some(amount) => {
                self.reserved = self.reserved.saturating_sub(amount);
            },
            None => {},
        }
    }

    /// Current reservation for `boundary`.
    pub fn reservation(&self, boundary: BoundaryId) -> (n: u64)
        requires
            self.wf(),
        ensures
            n == self@.of(boundary),
    {
        match self.by_boundary.get(boundary.0) {
            Some(n) => *n,
            None => 0,
        }
    }
}

/// A fresh accounting is balanced: nothing is reserved.
pub proof fn nothing_is_reserved_at_first(s: Reservations)
    requires
        s.reserved == 0,
        s.by_boundary == Map::<u64, u64>::empty(),
    ensures
        s.balanced(),
{
    assert(s.by_boundary.dom() =~= Set::<u64>::empty());
}

/// The sum of the reservations never exceeds the usable total: a reservation that
/// fits keeps the accounts balanced.
pub proof fn reserving_keeps_the_balance(s: Reservations, b: BoundaryId, bytes: u64)
    requires
        s.balanced(),
        s.fits(bytes),
    ensures
        s.with(b, bytes).balanced(),
        s.of(b) <= s.reserved,
{
    let m = s.by_boundary;
    let n = s.with(b, bytes).by_boundary;
    if m.dom().contains(b.0) {
        lemma_sum_remove(m, b.0);
    } else {
        assert(m.remove(b.0) =~= m);
    }
    assert(n.dom() =~= m.dom().insert(b.0));
    lemma_sum_remove(n, b.0);
    assert(n.remove(b.0) =~= m.remove(b.0));
}

/// Releasing a boundary's memory keeps the accounts balanced, gives all of it back,
/// and leaves every other reservation as it was.
pub proof fn releasing_keeps_the_balance(s: Reservations, b: BoundaryId, other: BoundaryId)
    requires
        s.balanced(),
    ensures
        s.without(b).balanced(),
        s.without(b).reserved == s.reserved - s.of(b),
        s.without(b).of(b) == 0,
        other != b ==> s.without(b).of(other) == s.of(other),
{
    let m = s.by_boundary;
    if m.dom().contains(b.0) {
        lemma_sum_remove(m, b.0);
        assert(m.remove(b.0).dom() =~= m.dom().remove(b.0));
    }
}

/// The bytes of two lists of regions together are those of both added up, as far as a
/// u64 goes; a region counts its length, and no region counts nothing.
pub proof fn region_bytes_add_up(a: Seq<MemoryRegion>, b: Seq<MemoryRegion>)
    ensures
        region_bytes(a + b) == if region_bytes(a) + region_bytes(b) > u64::MAX {
            u64::MAX as int
        } else {
            region_bytes(a) + region_bytes(b)
        },
        region_bytes(Seq::empty()) == 0,
        forall|r: MemoryRegion| #[trigger] region_bytes(seq![r]) == r.length,
    decreases b.len(),
{
    reveal_with_fuel(region_bytes, 2);
    assert forall|r: MemoryRegion| #[trigger] region_bytes(seq![r]) == r.length by {
        assert(seq![r].drop_last() =~= Seq::<MemoryRegion>::empty());
        assert(seq![r].last() == r);
    }
    if b.len() == 0 {
        assert(a + b =~= a);
    } else {
        assert((a + b).drop_last() =~= a + b.drop_last());
        assert((a + b).last() == b.last());
        region_bytes_add_up(a, b.drop_last());
    }
}

/// The usable regions of two lists are those of the first and then those of the second.
proof fn lemma_usable_joined(a: Seq<MemoryRegion>, b: Seq<MemoryRegion>)
    ensures
        usable_regions(a + b) == usable_regions(a) + usable_regions(b),
    decreases b.len(),
{
    if b.len() == 0 {
        assert(a + b =~= a);
        assert(usable_regions(a) + usable_regions(b) =~= usable_regions(a));
    } else {
        assert((a + b).drop_last() =~= a + b.drop_last());
        assert((a + b).last() == b.last());
        lemma_usable_joined(a, b.drop_last());
        assert(usable_regions(a + b) =~= usable_regions(a) + usable_regions(b));
    }
}

/// What a manager totals is what the firmware reports as usable, no more and no less: one
/// over a map with one region more has that region's bytes more if it is usable, as far
/// as a u64 goes, and is the same if it is not; one over an empty map has nothing.
pub proof fn total_is_the_sum_of_the_usable_regions(
    map: &[MemoryRegion],
    more: &[MemoryRegion],
    r: MemoryRegion,
    m: MemoryManager,
    n: MemoryManager,
    total: u64,
    greater: u64,
    free: u64,
    count: usize,
    count_more: usize,
)
    requires
        more@ == map@.push(r),
        call_ensures(MemoryManager::from_regions, (map,), m),
        call_ensures(MemoryManager::from_regions, (more,), n),
        call_ensures(MemoryManager::total_usable, (&m,), total),
        call_ensures(MemoryManager::total_usable, (&n,), greater),
        call_ensures(MemoryManager::available, (&n,), free),
        call_ensures(MemoryManager::region_count, (&m,), count),
        call_ensures(MemoryManager::region_count, (&n,), count_more),
    ensures
        map@.len() == 0 ==> total == 0 && count == 0,
        r.kind is Usable ==> greater == (if total + r.length > u64::MAX {
            u64::MAX as int
        } else {
            total + r.length
        }) && count_more == count + 1,
        !(r.kind is Usable) ==> greater == total && count_more == count,
        free == greater,
{
    let one = seq![r];
    assert(map@.push(r) =~= map@ + one);
    assert(one.drop_last() =~= Seq::<MemoryRegion>::empty());
    assert(one.last() == r);
    reveal_with_fuel(usable_regions, 2);
    lemma_usable_joined(map@, one);
    assert(Seq::<MemoryRegion>::empty().push(r) =~= one);
    region_bytes_add_up(usable_regions(map@), one);
    let u = usable_regions(map@);
    if !(r.kind is Usable) {
        assert(u + Seq::<MemoryRegion>::empty() =~= u);
    }
}

/// What reserving does: it succeeds exactly where the bytes are available. Then they are
/// available no more, the boundary has them on top of what it had, and every other
/// boundary has what it had; else nothing changes.
pub proof fn reserving_takes_from_the_available(
    m: &mut MemoryManager,
    after: MemoryManager,
    boundary: BoundaryId,
    other: BoundaryId,
    bytes: u64,
    r: KernelResult<()>,
    had: u64,
    has: u64,
    other_had: u64,
    other_has: u64,
    free: u64,
    left: u64,
)
    requires
        old(m).wf(),
        after == *final(m),
        call_ensures(MemoryManager::reserve, (m, boundary, bytes), r),
        call_ensures(MemoryManager::reservation, (&*old(m), boundary), had),
        call_ensures(MemoryManager::reservation, (&after, boundary), has),
        call_ensures(MemoryManager::reservation, (&*old(m), other), other_had),
        call_ensures(MemoryManager::reservation, (&after, other), other_has),
        call_ensures(MemoryManager::available, (&*old(m),), free),
        call_ensures(MemoryManager::available, (&after,), left),
    ensures
        r is Ok <==> bytes <= free,
        r is Ok ==> left + bytes == free && has == had + bytes,
        r is Err ==> left == free && has == had,
        other != boundary ==> other_has == other_had,
        after@.total == old(m)@.total,
        had <= old(m)@.total,
{
    if old(m)@.fits(bytes) {
        reserving_keeps_the_balance(old(m)@, boundary, bytes);
    }
    lemma_reservation_within(old(m)@, boundary);
}

proof fn lemma_reservation_within(s: Reservations, b: BoundaryId)
    requires
        s.balanced(),
    ensures
        s.of(b) <= s.reserved,
{
    if s.by_boundary.dom().contains(b.0) {
        lemma_sum_remove(s.by_boundary, b.0);
    }
}

/// What releasing does: all that the boundary had is available again, and it has nothing;
/// every other boundary has what it had.
pub proof fn releasing_gives_back_all(
    m: &mut MemoryManager,
    after: MemoryManager,
    boundary: BoundaryId,
    other: BoundaryId,
    had: u64,
    has: u64,
    other_had: u64,
    other_has: u64,
    free: u64,
    left: u64,
)
    requires
        old(m).wf(),
        after == *final(m),
        call_ensures(MemoryManager::release_all, (m, boundary), ()),
        call_ensures(MemoryManager::reservation, (&*old(m), boundary), had),
        call_ensures(MemoryManager::reservation, (&after, boundary), has),
        call_ensures(MemoryManager::reservation, (&*old(m), other), other_had),
        call_ensures(MemoryManager::reservation, (&after, other), other_has),
        call_ensures(MemoryManager::available, (&*old(m),), free),
        call_ensures(MemoryManager::available, (&after,), left),
    ensures
        left == free + had,
        has == 0,
        other != boundary ==> other_has == other_had,
{
    releasing_keeps_the_balance(old(m)@, boundary, other);
}

} // verus!

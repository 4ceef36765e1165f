use cibos::abi::ids::BoundaryId;
use cibos::abi::memory_map::{MemoryRegion, MemoryRegionKind};
use cibos::kernel::error::KernelError;
use cibos::kernel::memory::MemoryManager;

fn regions() -> Vec<MemoryRegion> {
    vec![
        MemoryRegion {
            base: 0,
            length: 0x10_0000,
            kind: MemoryRegionKind::FirmwareReserved,
        },
        MemoryRegion {
            base: 0x10_0000,
            length: 0x4000_0000, // 1 GiB usable
            kind: MemoryRegionKind::Usable,
        },
    ]
}

#[test]
fn sums_only_usable_regions() {
    let mm = MemoryManager::from_regions(&regions());
    assert_eq!(mm.total_usable(), 0x4000_0000);
    assert_eq!(mm.region_count(), 1);
    assert_eq!(mm.available(), 0x4000_0000);
}

#[test]
fn reserve_and_release() {
    let mut mm = MemoryManager::from_regions(&regions());
    let b = BoundaryId::new(1);
    mm.reserve(b, 0x1000_0000).unwrap(); // 256 MiB
    assert_eq!(mm.reservation(b), 0x1000_0000);
    assert_eq!(mm.available(), 0x3000_0000);
    mm.release_all(b);
    assert_eq!(mm.reservation(b), 0);
    assert_eq!(mm.available(), 0x4000_0000);
}

#[test]
fn over_reservation_rejected() {
    let mut mm = MemoryManager::from_regions(&regions());
    let b = BoundaryId::new(1);
    let r = mm.reserve(b, 0x4000_0000 + 1);
    assert!(matches!(r, Err(KernelError::LimitExceeded { resource: "memory" })));
    // Failed reservation does not change accounting.
    assert_eq!(mm.available(), 0x4000_0000);
}

#[test]
fn reservations_accumulate() {
    let mut mm = MemoryManager::from_regions(&regions());
    let b = BoundaryId::new(1);
    mm.reserve(b, 0x1000_0000).unwrap();
    mm.reserve(b, 0x1000_0000).unwrap();
    assert_eq!(mm.reservation(b), 0x2000_0000);
}

#[test]
fn releasing_one_boundary_keeps_another() {
    let mut mm = MemoryManager::from_regions(&regions());
    let (a, b) = (BoundaryId::new(1), BoundaryId::new(2));
    mm.reserve(a, 0x1000).unwrap();
    mm.reserve(b, 0x2000).unwrap();
    assert_eq!(mm.available() + mm.reservation(a) + mm.reservation(b), mm.total_usable());
    mm.release_all(a);
    assert_eq!(mm.reservation(b), 0x2000);
    assert_eq!(mm.available() + mm.reservation(b), mm.total_usable());
    mm.release_all(a);
    assert_eq!(mm.available(), 0x4000_0000 - 0x2000);
}

#[test]
fn the_last_byte_is_reserved_once() {
    let all = [MemoryRegion {
        base: 0,
        length: u64::MAX,
        kind: MemoryRegionKind::Usable,
    }];
    let mut mm = MemoryManager::from_regions(&all);
    let (a, b) = (BoundaryId::new(1), BoundaryId::new(2));
    mm.reserve(a, u64::MAX).unwrap();
    assert!(matches!(
        mm.reserve(b, 1),
        Err(KernelError::LimitExceeded { resource: "memory" })
    ));
    assert!(matches!(
        mm.reserve(a, 1),
        Err(KernelError::LimitExceeded { resource: "memory" })
    ));
    assert_eq!(mm.reservation(a), u64::MAX);
    assert_eq!(mm.reservation(b), 0);
    assert_eq!(mm.available(), 0);
}

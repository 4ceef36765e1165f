use cibos::abi::memory_map::{MemoryRegion, MemoryRegionKind};
use cibos::kernel::error::KernelError;
use cibos::kernel::frame::{FrameAllocator, PhysFrame, FRAME_SIZE};
use cibos::kernel::phys_memory::{Arena, PhysMemory};

fn regions() -> Vec<MemoryRegion> {
    vec![
        MemoryRegion {
            base: 0,
            length: 0x10_0000, // first 1 MiB: firmware-reserved
            kind: MemoryRegionKind::FirmwareReserved,
        },
        MemoryRegion {
            base: 0x10_0000,
            length: 0x100_0000, // 16 MiB usable starting at 1 MiB
            kind: MemoryRegionKind::Usable,
        },
    ]
}

#[test]
fn counts_usable_frames() {
    // 16 MiB / 4 KiB = 4096 usable frames; none reserved below 1 MiB.
    let fa = FrameAllocator::from_regions(&regions(), 0x10_0000);
    assert_eq!(fa.usable_frames(), 0x100_0000 / FRAME_SIZE);
    assert_eq!(fa.free_frames(), 0x100_0000 / FRAME_SIZE);
}

#[test]
fn reserved_below_is_not_handed_out() {
    // Reserve the first 2 MiB (1 MiB hole + first 1 MiB of usable).
    let mut fa = FrameAllocator::from_regions(&regions(), 0x20_0000);
    let frame = fa.allocate().expect("frame");
    assert!(
        frame.addr() >= 0x20_0000,
        "allocated below the watermark: {:#x}",
        frame.addr()
    );
}

#[test]
fn allocate_free_roundtrip() {
    let mut fa = FrameAllocator::from_regions(&regions(), 0x10_0000);
    let before = fa.free_frames();
    let a = fa.allocate().unwrap();
    let b = fa.allocate().unwrap();
    assert_ne!(a, b);
    assert!(fa.is_allocated(a));
    assert_eq!(fa.free_frames(), before - 2);
    fa.free(a);
    assert!(!fa.is_allocated(a));
    assert_eq!(fa.free_frames(), before - 1);
    // Double-free is a no-op.
    fa.free(a);
    assert_eq!(fa.free_frames(), before - 1);
}

#[test]
fn frames_are_aligned_and_in_range() {
    let mut fa = FrameAllocator::from_regions(&regions(), 0x10_0000);
    for _ in 0..16 {
        let f = fa.allocate().unwrap();
        assert_eq!(f.addr() % FRAME_SIZE, 0);
        assert!(f.addr() >= 0x10_0000);
        assert!(f.addr() < 0x110_0000);
    }
}

#[test]
fn exhaustion_is_reported() {
    // Tiny usable region: exactly 4 frames.
    let regions = vec![MemoryRegion {
        base: 0x10_0000,
        length: 4 * FRAME_SIZE,
        kind: MemoryRegionKind::Usable,
    }];
    let mut fa = FrameAllocator::from_regions(&regions, 0x10_0000);
    for _ in 0..4 {
        fa.allocate().unwrap();
    }
    assert!(matches!(
        fa.allocate(),
        Err(KernelError::LimitExceeded {
            resource: "physical frames"
        })
    ));
}

#[test]
fn freed_frame_is_reused() {
    let mut fa = FrameAllocator::from_regions(&regions(), 0x10_0000);
    let a = fa.allocate().unwrap();
    fa.free(a);
    // The hint moves back, so the next allocation reuses the freed frame.
    let b = fa.allocate().unwrap();
    assert_eq!(a, b);
}

#[test]
fn frames_contain_their_addresses() {
    let f = PhysFrame::containing(0x1234);
    assert_eq!(f.addr(), 0x1000);
    assert_eq!(f.index(), 1);
    assert_eq!(PhysFrame::from_index(3).addr(), 0x3000);
}

#[test]
fn zeroed_frame_is_zero() {
    let mut arena = Arena::new(16);
    let mut fa = FrameAllocator::from_regions(
        &[MemoryRegion { base: 0, length: 16 * FRAME_SIZE, kind: MemoryRegionKind::Usable }],
        FRAME_SIZE,
    );
    let expected = PhysFrame::from_index(1);
    arena.write_word(expected, 7, 0xdead);
    let f = fa.allocate_zeroed(&mut arena).unwrap();
    assert_eq!(f, expected);
    assert_eq!(arena.read_word(f, 7), 0);
}

#[test]
fn disjoint_regions_count_distinct_frames() {
    // Three regions, none of which starts or ends at a frame; the middle one holds no
    // whole frame.
    let usable = |base: u64, length: u64| MemoryRegion {
        base,
        length,
        kind: MemoryRegionKind::Usable,
    };
    let map = vec![usable(100, 3 * 4096), usable(5 * 4096 + 1, 4096), usable(8 * 4096 - 1, 8194)];
    let fa = FrameAllocator::from_regions(&map, 0);
    let free: Vec<u64> =
        (0..20).filter(|&i| !fa.is_allocated(PhysFrame::from_index(i))).collect();
    assert_eq!(free, vec![1, 2, 8, 9]);
    assert_eq!(fa.free_frames(), 4);
    assert_eq!(fa.usable_frames(), 4);
    // What is reserved is not free, and usable all the same.
    let fa = FrameAllocator::from_regions(&map, 2 * 4096 + 1);
    assert_eq!(fa.free_frames(), 2);
    assert_eq!(fa.usable_frames(), 4);
}

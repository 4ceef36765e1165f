use cibos::abi::ids::BoundaryId;
use cibos::abi::memory_map::{MemoryRegion, MemoryRegionKind};
use cibos::kernel::address_space::AddressSpaceManager;
use cibos::kernel::error::KernelError;
use cibos::kernel::frame::{FrameAllocator, FRAME_SIZE};
use cibos::kernel::paging::Permissions;
use cibos::kernel::phys_memory::Arena;
use cibos::kernel::x86_encoder::X86Encoder;

fn manager(arena_len: usize) -> (AddressSpaceManager, Arena) {
    let regions = vec![MemoryRegion {
        base: 0,
        length: arena_len as u64,
        kind: MemoryRegionKind::Usable,
    }];
    let fa = FrameAllocator::from_regions(&regions, FRAME_SIZE);
    (AddressSpaceManager::new(fa), Arena::new(arena_len / FRAME_SIZE as usize))
}

#[test]
fn create_and_destroy_space() {
    let (mut mgr, mut arena) = manager(4 * 1024 * 1024);
    let b = BoundaryId::new(1);
    mgr.create_space(b, &mut arena).unwrap();
    assert!(mgr.has_space(b));
    assert_eq!(mgr.space_count(), 1);
    // Double-create is rejected.
    assert!(matches!(
        mgr.create_space(b, &mut arena),
        Err(KernelError::InvalidState { .. })
    ));
    mgr.destroy_space(b).unwrap();
    assert!(!mgr.has_space(b));
    assert!(matches!(
        mgr.destroy_space(b),
        Err(KernelError::UnknownContainer)
    ));
}

#[test]
fn mapped_pages_translate() {
    let (mut mgr, mut arena) = manager(8 * 1024 * 1024);
    let b = BoundaryId::new(1);
    mgr.create_space(b, &mut arena).unwrap();
    mgr.map_new_pages::<X86Encoder, Arena>(b, 0x4000_0000, 3, Permissions::user_rw(), &mut arena)
        .unwrap();
    // All three pages resolve to distinct physical frames.
    let a0 = mgr.translate::<X86Encoder, Arena>(b, 0x4000_0000, &arena).unwrap();
    let a1 = mgr
        .translate::<X86Encoder, Arena>(b, 0x4000_0000 + FRAME_SIZE, &arena)
        .unwrap();
    let a2 = mgr
        .translate::<X86Encoder, Arena>(b, 0x4000_0000 + 2 * FRAME_SIZE, &arena)
        .unwrap();
    assert_ne!(a0, a1);
    assert_ne!(a1, a2);
}

#[test]
fn boundaries_are_isolated() {
    // The whole point: two boundaries' spaces do not share mappings.
    let (mut mgr, mut arena) = manager(8 * 1024 * 1024);
    let a = BoundaryId::new(1);
    let c = BoundaryId::new(2);
    mgr.create_space(a, &mut arena).unwrap();
    mgr.create_space(c, &mut arena).unwrap();
    assert_ne!(mgr.root_of(a), mgr.root_of(c));

    mgr.map_new_pages::<X86Encoder, Arena>(a, 0x4000_0000, 1, Permissions::user_rw(), &mut arena)
        .unwrap();
    // The address mapped in A is absent in C.
    assert!(mgr.translate::<X86Encoder, Arena>(a, 0x4000_0000, &arena).is_some());
    assert!(mgr.translate::<X86Encoder, Arena>(c, 0x4000_0000, &arena).is_none());
}

#[test]
fn destroy_reclaims_data_frames() {
    let (mut mgr, mut arena) = manager(8 * 1024 * 1024);
    let b = BoundaryId::new(1);
    mgr.create_space(b, &mut arena).unwrap();
    let free_before_map = mgr.frames().free_frames();
    mgr.map_new_pages::<X86Encoder, Arena>(b, 0x4000_0000, 4, Permissions::user_rw(), &mut arena)
        .unwrap();
    // Mapping consumed at least the 4 data frames (plus table nodes).
    assert!(mgr.frames().free_frames() <= free_before_map - 4);
    let free_after_map = mgr.frames().free_frames();
    mgr.destroy_space(b).unwrap();
    // The 4 data frames came back.
    assert_eq!(mgr.frames().free_frames(), free_after_map + 4);
}

#[test]
fn map_into_missing_boundary_errors() {
    let (mut mgr, mut arena) = manager(4 * 1024 * 1024);
    let r = mgr.map_new_pages::<X86Encoder, Arena>(
        BoundaryId::new(9),
        0x4000_0000,
        1,
        Permissions::user_rw(),
        &mut arena,
    );
    assert!(matches!(r, Err(KernelError::UnknownContainer)));
}

#[test]
fn existing_frames_are_mapped_and_kept() {
    let (mut mgr, mut arena) = manager(8 * 1024 * 1024);
    let b = BoundaryId::new(1);
    mgr.create_space(b, &mut arena).unwrap();
    mgr.map_existing::<X86Encoder, Arena>(
        b,
        0x9000_0000,
        0x40_0000,
        2,
        Permissions::device_rw(),
        &mut arena,
    )
    .unwrap();
    assert_eq!(mgr.translate::<X86Encoder, Arena>(b, 0x9000_1010, &arena), Some(0x40_1010));
    let free = mgr.frames().free_frames();
    mgr.destroy_space(b).unwrap();
    // Only frames that were allocated for the space come back.
    assert_eq!(mgr.frames().free_frames(), free);
    assert_eq!(mgr.root_of(b), None);
    assert_eq!(mgr.translate::<X86Encoder, Arena>(b, 0x9000_1010, &arena), None);
}

#[test]
fn frame_that_cannot_be_mapped_is_given_back() {
    let (mut mgr, mut arena) = manager(8 * 1024 * 1024);
    let b = BoundaryId::new(1);
    let rw = Permissions::user_rw();
    mgr.create_space(b, &mut arena).unwrap();
    mgr.map_new_pages::<X86Encoder, Arena>(b, 0x4000_0000, 2, rw, &mut arena).unwrap();
    let free = mgr.frames().free_frames();
    // The second page of this run is taken already: one page is mapped.
    let r = mgr.map_new_pages::<X86Encoder, Arena>(
        b,
        0x4000_0000 - FRAME_SIZE,
        2,
        rw,
        &mut arena,
    );
    assert!(matches!(r, Err(KernelError::InvalidState { reason: "page already mapped" })));
    // That page took a frame and two tables of its own; the other frame came back.
    let after = mgr.frames().free_frames();
    assert_eq!(after, free - 3);
    let r = mgr.map_new_pages::<X86Encoder, Arena>(b, 0x4000_0001, 1, rw, &mut arena);
    assert!(matches!(r, Err(KernelError::InvalidState { .. })));
    assert_eq!(mgr.frames().free_frames(), after);
    // Three pages are mapped, and teardown gives their frames back.
    mgr.destroy_space(b).unwrap();
    assert_eq!(mgr.frames().free_frames(), after + 3);
}

use cibos::abi::memory_map::{MemoryRegion, MemoryRegionKind};
use cibos::kernel::error::KernelError;
use cibos::kernel::frame::{FrameAllocator, PhysFrame, FRAME_SIZE};
use cibos::kernel::paging::{AddressSpace, PageTableEncoder, Permissions, ENTRIES, LEVELS};
use cibos::kernel::phys_memory::{Arena, PhysMemory};
use cibos::kernel::x86_encoder::X86Encoder;

fn setup(arena_len: usize) -> (FrameAllocator, Arena) {
    // Usable region [0, arena_len); the first frame is reserved so that a zero
    // root is distinguishable.
    let regions = vec![MemoryRegion {
        base: 0,
        length: arena_len as u64,
        kind: MemoryRegionKind::Usable,
    }];
    let fa = FrameAllocator::from_regions(&regions, FRAME_SIZE);
    (fa, Arena::new(arena_len / FRAME_SIZE as usize))
}

#[test]
fn index_split_is_correct() {
    // virt with distinct indices at each level.
    // PML4=1, PDPT=2, PD=3, PT=4, offset=0
    let virt = (1u64 << 39) | (2u64 << 30) | (3u64 << 21) | (4u64 << 12);
    let idx = AddressSpace::indices(virt);
    assert_eq!(idx, [1, 2, 3, 4]);
}

#[test]
fn map_then_translate_roundtrips() {
    let (mut fa, mut arena) = setup(2 * 1024 * 1024);
    let space = AddressSpace::new(&mut fa, &mut arena).unwrap();
    let virt = 0x4000_0000u64; // 1 GiB
    let frame = fa.allocate().unwrap();
    space
        .map::<X86Encoder, Arena>(virt, frame, Permissions::user_rw(), &mut fa, &mut arena)
        .unwrap();
    let got = space.translate::<X86Encoder, Arena>(virt, &arena).unwrap();
    assert_eq!(got, frame.addr());
    // Offset within the page is preserved.
    let got2 = space.translate::<X86Encoder, Arena>(virt + 0x123, &arena).unwrap();
    assert_eq!(got2, frame.addr() + 0x123);
}

#[test]
fn unmapped_translates_to_none() {
    let (mut fa, mut arena) = setup(1024 * 1024);
    let space = AddressSpace::new(&mut fa, &mut arena).unwrap();
    assert!(space.translate::<X86Encoder, Arena>(0x8000_0000, &arena).is_none());
}

#[test]
fn double_map_is_rejected() {
    let (mut fa, mut arena) = setup(2 * 1024 * 1024);
    let space = AddressSpace::new(&mut fa, &mut arena).unwrap();
    let virt = 0x4000_0000u64;
    let f1 = fa.allocate().unwrap();
    let f2 = fa.allocate().unwrap();
    space
        .map::<X86Encoder, Arena>(virt, f1, Permissions::user_rw(), &mut fa, &mut arena)
        .unwrap();
    let again =
        space.map::<X86Encoder, Arena>(virt, f2, Permissions::user_rw(), &mut fa, &mut arena);
    assert!(matches!(
        again,
        Err(KernelError::InvalidState {
            reason: "page already mapped"
        })
    ));
}

#[test]
fn unaligned_virt_is_rejected() {
    let (mut fa, mut arena) = setup(1024 * 1024);
    let space = AddressSpace::new(&mut fa, &mut arena).unwrap();
    let f = fa.allocate().unwrap();
    let r =
        space.map::<X86Encoder, Arena>(0x4000_0123, f, Permissions::user_rw(), &mut fa, &mut arena);
    assert!(matches!(
        r,
        Err(KernelError::InvalidState {
            reason: "unaligned virtual address"
        })
    ));
}

#[test]
fn two_spaces_are_independent() {
    // The core isolation property: a mapping in space A is absent in space B.
    let (mut fa, mut arena) = setup(4 * 1024 * 1024);
    let a = AddressSpace::new(&mut fa, &mut arena).unwrap();
    let b = AddressSpace::new(&mut fa, &mut arena).unwrap();
    assert_ne!(a.root(), b.root());
    let virt = 0x4000_0000u64;
    let fa_frame = fa.allocate().unwrap();
    a.map::<X86Encoder, Arena>(virt, fa_frame, Permissions::user_rw(), &mut fa, &mut arena)
        .unwrap();
    // Same virtual address is mapped in A but not in B.
    assert!(a.translate::<X86Encoder, Arena>(virt, &arena).is_some());
    assert!(b.translate::<X86Encoder, Arena>(virt, &arena).is_none());
}

#[test]
fn map_range_maps_all_pages() {
    let (mut fa, mut arena) = setup(4 * 1024 * 1024);
    let space = AddressSpace::new(&mut fa, &mut arena).unwrap();
    let virt = 0x8000_0000u64;
    let phys = 0x20_0000u64;
    space
        .map_range::<X86Encoder, Arena>(
            virt,
            phys,
            4,
            Permissions::kernel_rw(),
            &mut fa,
            &mut arena,
        )
        .unwrap();
    for i in 0..4u64 {
        let got = space
            .translate::<X86Encoder, Arena>(virt + i * FRAME_SIZE, &arena)
            .unwrap();
        assert_eq!(got, phys + i * FRAME_SIZE);
    }
}

#[test]
fn map_range_uses_2mib_block_when_aligned() {
    // A 2 MiB-aligned range of exactly 512 pages must be mapped as a single
    // 2 MiB block leaf at level LEVELS-2 (not 512 4 KiB pages). Verify by
    // walking to the L2 entry and asserting it is a block leaf, and that
    // translation across the whole 2 MiB region is correct.
    let (mut fa, mut arena) = setup(8 * 1024 * 1024);
    let space = AddressSpace::new(&mut fa, &mut arena).unwrap();
    let virt = 0x4000_0000u64; // 1 GiB, 2 MiB-aligned
    let phys = 0x20_0000u64; // 2 MiB, 2 MiB-aligned
    let pages = ENTRIES as u64; // 512 pages = 2 MiB
    space
        .map_range::<X86Encoder, Arena>(
            virt,
            phys,
            pages,
            Permissions::kernel_rw(),
            &mut fa,
            &mut arena,
        )
        .unwrap();

    // Walk to the L2 (level LEVELS-2) entry and confirm it is a block leaf.
    let idx = AddressSpace::indices(virt);
    let mut table = space.root();
    for &index in idx.iter().take(LEVELS - 2) {
        let e = arena.read_word(table, index);
        assert!(X86Encoder::is_present(e), "interior must be present");
        assert!(
            !X86Encoder::is_block_leaf(e, 0),
            "interior above block level must be a table, not a block"
        );
        table = X86Encoder::entry_frame(e);
    }
    let l2 = arena.read_word(table, idx[LEVELS - 2]);
    assert!(
        X86Encoder::is_block_leaf(l2, LEVELS - 2),
        "the 2 MiB-aligned range must be mapped as a block leaf at L2"
    );

    // Translation must be correct across the whole 2 MiB block, including
    // an offset partway in (proving the block-aware translate path).
    assert_eq!(space.translate::<X86Encoder, Arena>(virt, &arena).unwrap(), phys);
    let off = 0x1F_F000u64; // last 4 KiB within the 2 MiB block
    assert_eq!(
        space.translate::<X86Encoder, Arena>(virt + off, &arena).unwrap(),
        phys + off
    );
}

#[test]
fn map_range_falls_back_to_4k_when_unaligned() {
    // A range that is NOT 2 MiB-aligned (or shorter than a block) must use
    // 4 KiB pages -- the L2 entry must be a TABLE, not a block leaf.
    let (mut fa, mut arena) = setup(8 * 1024 * 1024);
    let space = AddressSpace::new(&mut fa, &mut arena).unwrap();
    let virt = 0x4000_0000u64 + FRAME_SIZE; // 1 GiB + 4 KiB: NOT 2 MiB-aligned
    let phys = 0x20_0000u64 + FRAME_SIZE;
    space
        .map_range::<X86Encoder, Arena>(
            virt,
            phys,
            8,
            Permissions::kernel_rw(),
            &mut fa,
            &mut arena,
        )
        .unwrap();
    let idx = AddressSpace::indices(virt);
    let mut table = space.root();
    for &index in idx.iter().take(LEVELS - 2) {
        let e = arena.read_word(table, index);
        table = X86Encoder::entry_frame(e);
    }
    let l2 = arena.read_word(table, idx[LEVELS - 2]);
    assert!(
        !X86Encoder::is_block_leaf(l2, LEVELS - 2),
        "unaligned range must map via a 4 KiB table, not a block"
    );
    // And translation is still correct.
    for i in 0..8u64 {
        assert_eq!(
            space
                .translate::<X86Encoder, Arena>(virt + i * FRAME_SIZE, &arena)
                .unwrap(),
            phys + i * FRAME_SIZE
        );
    }
}

#[test]
fn map_4k_into_existing_block_is_rejected() {
    // After a 2 MiB block covers a region, a 4 KiB map() into that same region
    // must ERROR (not descend into the block frame as a table and corrupt it).
    let (mut fa, mut arena) = setup(8 * 1024 * 1024);
    let space = AddressSpace::new(&mut fa, &mut arena).unwrap();
    let virt = 0x4000_0000u64; // 2 MiB-aligned
    let phys = 0x20_0000u64;
    space
        .map_block_2m::<X86Encoder, Arena>(
            virt,
            PhysFrame::containing(phys),
            Permissions::kernel_rw(),
            &mut fa,
            &mut arena,
        )
        .unwrap();
    // A 4 KiB map into the SAME 2 MiB region must be rejected.
    let err = space.map::<X86Encoder, Arena>(
        virt + FRAME_SIZE,
        PhysFrame::containing(0x40_0000),
        Permissions::kernel_rw(),
        &mut fa,
        &mut arena,
    );
    assert!(err.is_err(), "4 KiB map into an existing block must be rejected");
}

#[test]
fn unaligned_block_is_rejected() {
    let (mut fa, mut arena) = setup(8 * 1024 * 1024);
    let space = AddressSpace::new(&mut fa, &mut arena).unwrap();
    let r = space.map_block_2m::<X86Encoder, Arena>(
        0x4000_1000,
        PhysFrame::containing(0x20_0000),
        Permissions::kernel_rw(),
        &mut fa,
        &mut arena,
    );
    assert!(matches!(r, Err(KernelError::InvalidState { .. })));
    let r = space.map_block_2m::<X86Encoder, Arena>(
        0x4000_0000,
        PhysFrame::containing(0x20_1000),
        Permissions::kernel_rw(),
        &mut fa,
        &mut arena,
    );
    assert!(matches!(r, Err(KernelError::InvalidState { .. })));
}

#[test]
fn mapping_without_frames_is_reported() {
    // Four usable frames: the root takes one, a page needs three more tables.
    let (mut fa, mut arena) = setup(5 * FRAME_SIZE as usize);
    let space = AddressSpace::new(&mut fa, &mut arena).unwrap();
    let frame = fa.allocate().unwrap();
    let r = space.map::<X86Encoder, Arena>(
        0x4000_0000,
        frame,
        Permissions::user_rw(),
        &mut fa,
        &mut arena,
    );
    assert!(matches!(r, Err(KernelError::LimitExceeded { resource: "physical frames" })));
}

#[test]
fn encoder_keeps_frames_and_rights() {
    let f = PhysFrame::containing(0x1234_5000);
    let rw = X86Encoder::encode_leaf(f, Permissions::user_rw());
    assert_eq!(rw, 0x8000_0000_1234_5007);
    let rx = X86Encoder::encode_leaf(f, Permissions::user_rx());
    assert_eq!(rx, 0x1234_5005);
    assert_eq!(X86Encoder::entry_frame(rw), f);
    assert!(X86Encoder::is_present(rw));
    assert!(!X86Encoder::is_present(0));
    let device = X86Encoder::encode_leaf(f, Permissions::device_rw());
    assert_eq!(device & 0x10, 0x10);
    let block = X86Encoder::encode_block_leaf(
        PhysFrame::containing(0x20_0000),
        Permissions::kernel_rw(),
        LEVELS - 2,
    );
    assert!(X86Encoder::is_block_leaf(block, LEVELS - 2));
    assert!(!X86Encoder::is_block_leaf(X86Encoder::encode_table(f), LEVELS - 2));
}

#[test]
fn adopted_root_translates_alike() {
    let (mut fa, mut arena) = setup(2 * 1024 * 1024);
    let space = AddressSpace::new(&mut fa, &mut arena).unwrap();
    let frame = fa.allocate().unwrap();
    space
        .map::<X86Encoder, Arena>(0x7000, frame, Permissions::kernel_rx(), &mut fa, &mut arena)
        .unwrap();
    let same = AddressSpace::adopt(space.root());
    assert_eq!(same.translate::<X86Encoder, Arena>(0x7abc, &arena), Some(frame.addr() + 0xabc));
}

#[test]
fn read_only_kernel_pages_are_not_writable() {
    let f = PhysFrame::containing(0x1000);
    let e = X86Encoder::encode_leaf(f, Permissions::kernel_ro());
    assert_eq!(e, 0x8000_0000_0000_1001);
}

#[test]
fn map_range_leaves_other_addresses_alone() {
    let (mut fa, mut arena) = setup(8 * 1024 * 1024);
    let space = AddressSpace::new(&mut fa, &mut arena).unwrap();
    let rw = Permissions::kernel_rw();
    let frame = fa.allocate().unwrap();
    space
        .map::<X86Encoder, Arena>(0x4000_0000 - FRAME_SIZE, frame, rw, &mut fa, &mut arena)
        .unwrap();
    // One block and two pages behind it.
    space
        .map_range::<X86Encoder, Arena>(0x4000_0000, 0x20_0000, 514, rw, &mut fa, &mut arena)
        .unwrap();
    let at = |v: u64| space.translate::<X86Encoder, Arena>(v, &arena);
    assert_eq!(at(0x4000_0000 - 1), Some(frame.addr() + 0xfff));
    assert_eq!(at(0x4000_0000 - FRAME_SIZE - 1), None);
    assert_eq!(at(0x4000_0000), Some(0x20_0000));
    assert_eq!(at(0x4000_0000 + 513 * FRAME_SIZE + 7), Some(0x20_0000 + 513 * FRAME_SIZE + 7));
    assert_eq!(at(0x4000_0000 + 514 * FRAME_SIZE), None);
    // Addresses go by their low 48 bits.
    assert_eq!(at((1u64 << 48) + 0x4000_0000), Some(0x20_0000));
}

#[test]
fn map_range_of_no_pages_changes_nothing() {
    let (mut fa, mut arena) = setup(1024 * 1024);
    let space = AddressSpace::new(&mut fa, &mut arena).unwrap();
    let free = fa.free_frames();
    space
        .map_range::<X86Encoder, Arena>(
            0x4000_0000,
            0x20_0000,
            0,
            Permissions::kernel_rw(),
            &mut fa,
            &mut arena,
        )
        .unwrap();
    assert_eq!(fa.free_frames(), free);
    assert_eq!(space.translate::<X86Encoder, Arena>(0x4000_0000, &arena), None);
}

#[test]
fn map_range_fails_for_want_of_frames_only_when_none_is_left() {
    // Eight frames: one is reserved, one is the root, three are the tables of the
    // first page. A page 512 GiB further needs three more.
    let (mut fa, mut arena) = setup(8 * 4096);
    let space = AddressSpace::new(&mut fa, &mut arena).unwrap();
    let rw = Permissions::kernel_rw();
    space
        .map_range::<X86Encoder, Arena>(0, 0x20_0000, 1, rw, &mut fa, &mut arena)
        .unwrap();
    assert_eq!(fa.free_frames(), 3);
    space
        .map_range::<X86Encoder, Arena>(1 << 39, 0x20_0000, 1, rw, &mut fa, &mut arena)
        .unwrap();
    assert_eq!(fa.free_frames(), 0);
    assert!(matches!(
        space.map_range::<X86Encoder, Arena>(2 << 39, 0x20_0000, 1, rw, &mut fa, &mut arena),
        Err(KernelError::LimitExceeded { resource: "physical frames" })
    ));
    // The tables that are there take more pages without any frame.
    space
        .map_range::<X86Encoder, Arena>(4096, 0x20_0000, 4, rw, &mut fa, &mut arena)
        .unwrap();
}

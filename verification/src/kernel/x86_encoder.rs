//! The x86_64 layout of a page-table entry.
use vstd::prelude::*;
use crate::kernel::frame::PhysFrame;
use crate::kernel::paging::{PageTableEncoder, Permissions};

verus! {

/// The entry is present.
pub const PRESENT: u64 = 0x1;

/// The page is writable.
pub const WRITE: u64 = 0x2;

/// The page is accessible from user mode.
pub const USER: u64 = 0x4;

/// The page is not cached (device memory).
pub const CACHE_DISABLE: u64 = 0x10;

/// The entry maps a block.
pub const PAGE_SIZE_BIT: u64 = 0x80;

/// The page is not executable.
pub const NO_EXECUTE: u64 = 0x8000_0000_0000_0000;

/// The bits that hold the frame address.
pub const ADDRESS_MASK: u64 = 0x000F_FFFF_FFFF_F000;

/// Entries as x86_64 walks them: present in bit 0, writable in bit 1, user in bit
/// 2, cache-disable in bit 4, block in bit 7, no-execute in bit 63, and the frame
/// in bits 12 to 51.
pub struct X86Encoder;

/// The permission bits of a leaf.
pub open spec fn permission_bits(perms: Permissions) -> u64 {
    (if perms.write {
        WRITE
    } else {
        0
    }) | (if perms.user {
        USER
    } else {
        0
    }) | (if perms.device {
        CACHE_DISABLE
    } else {
        0
    }) | (if perms.execute {
        0
    } else {
        NO_EXECUTE
    })
}

/// Flags that are outside the address bits leave the address of an entry alone.
proof fn lemma_entry(frame: u64, flags: u64)
    requires
        frame & !0x000F_FFFF_FFFF_F000u64 == 0,
        flags & 0x000F_FFFF_FFFF_F000u64 == 0,
        flags & 0x1 == 0x1,
    ensures
        (frame | flags) & 0x000F_FFFF_FFFF_F000u64 == frame,
        (frame | flags) & 0x1 == 0x1,
        (frame | flags) & 0x80 == flags & 0x80,
{
    assert((frame | flags) & 0x000F_FFFF_FFFF_F000u64 == frame && (frame | flags) & 0x1 == 0x1 && (
    frame | flags) & 0x80 == flags & 0x80) by (bit_vector)
        requires
            frame & !0x000F_FFFF_FFFF_F000u64 == 0,
            flags & 0x000F_FFFF_FFFF_F000u64 == 0,
            flags & 0x1 == 0x1,
    ;
}

/// The permission bits are flags, and none of them is the present or block bit.
proof fn lemma_permission_bits(perms: Permissions)
    ensures
        permission_bits(perms) & 0x000F_FFFF_FFFF_F000u64 == 0,
        (permission_bits(perms) | 0x1) & 0x000F_FFFF_FFFF_F000u64 == 0,
        (permission_bits(perms) | 0x1) & 0x1 == 0x1,
        (permission_bits(perms) | 0x81) & 0x000F_FFFF_FFFF_F000u64 == 0,
        (permission_bits(perms) | 0x81) & 0x1 == 0x1,
        (permission_bits(perms) | 0x81) & 0x80 == 0x80,
{
    let w: u64 = if perms.write {
        WRITE
    } else {
        0
    };
    let u: u64 = if perms.user {
        USER
    } else {
        0
    };
    let c: u64 = if perms.device {
        CACHE_DISABLE
    } else {
        0
    };
    let x: u64 = if perms.execute {
        0
    } else {
        NO_EXECUTE
    };
    let p: u64 = permission_bits(perms);
    assert(p & 0x000F_FFFF_FFFF_F000u64 == 0) by (bit_vector)
        requires
            p == w | u | c | x,
            w == 0 || w == 0x2,
            u == 0 || u == 0x4,
            c == 0 || c == 0x10,
            x == 0 || x == 0x8000_0000_0000_0000u64,
    ;
    assert((p | 0x1) & 0x000F_FFFF_FFFF_F000u64 == 0 && (p | 0x1) & 0x1 == 0x1 && (p | 0x81)
        & 0x000F_FFFF_FFFF_F000u64 == 0 && (p | 0x81) & 0x1 == 0x1 && (p | 0x81) & 0x80 == 0x80)
        by (bit_vector)
        requires
            p & 0x000F_FFFF_FFFF_F000u64 == 0,
    ;
}

/// The permission bits of a leaf.
fn encode_permissions(perms: Permissions) -> (bits: u64)
    ensures
        bits == permission_bits(perms),
{
    (if perms.write {
        WRITE
    } else {
        0
    }) | (if perms.user {
        USER
    } else {
        0
    }) | (if perms.device {
        CACHE_DISABLE
    } else {
        0
    }) | (if perms.execute {
        0
    } else {
        NO_EXECUTE
    })
}

impl PageTableEncoder for X86Encoder {
    open spec fn table_entry(child: u64) -> u64 {
        (child & ADDRESS_MASK) | 0x7
    }

    open spec fn leaf_entry(frame: u64, perms: Permissions) -> u64 {
        (frame & ADDRESS_MASK) | (permission_bits(perms) | 0x1)
    }

    open spec fn block_entry(frame: u64, perms: Permissions, level: int) -> u64 {
        (frame & ADDRESS_MASK) | (permission_bits(perms) | 0x81)
    }

    open spec fn present(entry: u64) -> bool {
        entry & PRESENT != 0
    }

    open spec fn block(entry: u64, level: int) -> bool {
        entry & PRESENT != 0 && entry & PAGE_SIZE_BIT != 0
    }

    open spec fn target(entry: u64) -> u64 {
        entry & ADDRESS_MASK
    }

    open spec fn encodable(frame: u64) -> bool {
        frame & !ADDRESS_MASK == 0
    }

    proof fn empty_entry() {
        assert(0u64 & 0x1 == 0) by (bit_vector);
    }

    proof fn table_entry_reads_back(child: u64, level: int) {
        assert(child & 0x000F_FFFF_FFFF_F000u64 == child && 0x7u64 & 0x000F_FFFF_FFFF_F000u64 == 0
            && 0x7u64 & 0x1 == 0x1 && 0x7u64 & 0x80 == 0) by (bit_vector)
            requires
                child & !0x000F_FFFF_FFFF_F000u64 == 0,
        ;
        lemma_entry(child, 0x7);
    }

    proof fn leaf_entry_reads_back(frame: u64, perms: Permissions) {
        assert(frame & 0x000F_FFFF_FFFF_F000u64 == frame) by (bit_vector)
            requires
                frame & !0x000F_FFFF_FFFF_F000u64 == 0,
        ;
        lemma_permission_bits(perms);
        lemma_entry(frame, permission_bits(perms) | 0x1);
    }

    proof fn block_entry_reads_back(frame: u64, perms: Permissions, level: int) {
        assert(frame & 0x000F_FFFF_FFFF_F000u64 == frame) by (bit_vector)
            requires
                frame & !0x000F_FFFF_FFFF_F000u64 == 0,
        ;
        lemma_permission_bits(perms);
        lemma_entry(frame, permission_bits(perms) | 0x81);
    }

    fn encode_table(child: PhysFrame) -> (e: u64) {
        (child.addr() & ADDRESS_MASK) | 0x7
    }

    fn encode_leaf(frame: PhysFrame, perms: Permissions) -> (e: u64) {
        (frame.addr() & ADDRESS_MASK) | (encode_permissions(perms) | 0x1)
    }

    fn encode_block_leaf(frame: PhysFrame, perms: Permissions, level: usize) -> (e: u64) {
        (frame.addr() & ADDRESS_MASK) | (encode_permissions(perms) | 0x81)
    }

    fn is_present(entry: u64) -> (r: bool) {
        entry & PRESENT != 0
    }

    fn is_block_leaf(entry: u64, level: usize) -> (r: bool) {
        entry & PRESENT != 0 && entry & PAGE_SIZE_BIT != 0
    }

    fn entry_frame(entry: u64) -> (f: PhysFrame) {
        assert((entry & 0x000F_FFFF_FFFF_F000u64) % 4096 == 0) by (bit_vector);
        PhysFrame::containing(entry & ADDRESS_MASK)
    }
}

/// What the bits of a leaf entry say is what was asked for: present; writable, open to
/// user mode and uncached exactly where the rights say so; not executable exactly where
/// they do not; bit 7 set for a block and for no page; and the frame in bits 12 to 51.
pub proof fn entry_bits_are_the_rights(
    frame: PhysFrame,
    perms: Permissions,
    level: usize,
    page: u64,
    block: u64,
)
    requires
        call_ensures(X86Encoder::encode_leaf, (frame, perms), page),
        call_ensures(X86Encoder::encode_block_leaf, (frame, perms, level), block),
    ensures
        page & 0x1 != 0 && block & 0x1 != 0,
        page & 0x2 != 0 <==> perms.write,
        page & 0x4 != 0 <==> perms.user,
        page & 0x10 != 0 <==> perms.device,
        page & 0x8000_0000_0000_0000u64 == 0 <==> perms.execute,
        page & 0x80 == 0 && block & 0x80 != 0,
        page & 0x000F_FFFF_FFFF_F000u64 == frame.base() & 0x000F_FFFF_FFFF_F000u64,
        block == page | 0x80,
        page & !(0x000F_FFFF_FFFF_F000u64 | 0x8000_0000_0000_0017u64) == 0,
{
    let f: u64 = frame.base();
    let w: u64 = if perms.write {
        0x2
    } else {
        0
    };
    let u: u64 = if perms.user {
        0x4
    } else {
        0
    };
    let c: u64 = if perms.device {
        0x10
    } else {
        0
    };
    let x: u64 = if perms.execute {
        0
    } else {
        0x8000_0000_0000_0000
    };
    let p: u64 = permission_bits(perms);
    assert(p == w | u | c | x);
    assert(page & 0x1 != 0 && block & 0x1 != 0 && page & 0x2 == w && page & 0x4 == u && page & 0x10
        == c && page & 0x8000_0000_0000_0000u64 == x && page & 0x80 == 0 && block & 0x80 != 0
        && page & 0x000F_FFFF_FFFF_F000u64 == f & 0x000F_FFFF_FFFF_F000u64 && block == page | 0x80
        && page & !(0x000F_FFFF_FFFF_F000u64 | 0x8000_0000_0000_0017u64) == 0) by (bit_vector)
        requires
            page == (f & 0x000F_FFFF_FFFF_F000u64) | (p | 0x1),
            block == (f & 0x000F_FFFF_FFFF_F000u64) | (p | 0x81),
            p == w | u | c | x,
            w == 0 || w == 0x2,
            u == 0 || u == 0x4,
            c == 0 || c == 0x10,
            x == 0 || x == 0x8000_0000_0000_0000u64,
    ;
}

/// An entry that points at a table lets everything through, so that the leaf decides: it
/// is present, writable, open to user mode, not marked against execution, and no block.
pub proof fn table_entries_leave_the_rights_to_the_leaf(child: PhysFrame, e: u64)
    requires
        call_ensures(X86Encoder::encode_table, (child,), e),
    ensures
        e & 0x7 == 0x7,
        e & 0x8000_0000_0000_0000u64 == 0,
        e & 0x80 == 0,
        e & 0x000F_FFFF_FFFF_F000u64 == child.base() & 0x000F_FFFF_FFFF_F000u64,
{
    let f: u64 = child.base();
    assert(e & 0x7 == 0x7 && e & 0x8000_0000_0000_0000u64 == 0 && e & 0x80 == 0 && e
        & 0x000F_FFFF_FFFF_F000u64 == f & 0x000F_FFFF_FFFF_F000u64) by (bit_vector)
        requires
            e == (f & 0x000F_FFFF_FFFF_F000u64) | 0x7,
    ;
}

/// An entry is read as the hardware reads it: present by bit 0, a block by bits 0 and 7,
/// and pointing at the frame in bits 12 to 51.
pub proof fn entries_are_read_by_their_bits(
    e: u64,
    level: usize,
    present: bool,
    block: bool,
    frame: PhysFrame,
)
    requires
        call_ensures(X86Encoder::is_present, (e,), present),
        call_ensures(X86Encoder::is_block_leaf, (e, level), block),
        call_ensures(X86Encoder::entry_frame, (e,), frame),
    ensures
        present <==> e & 0x1 != 0,
        block <==> e & 0x1 != 0 && e & 0x80 != 0,
        frame.base() == e & 0x000F_FFFF_FFFF_F000u64,
{
}

} // verus!

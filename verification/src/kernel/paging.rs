//! Page tables (portable model).
//!
//! The architecture-neutral model of a per-boundary virtual address space, and the
//! walk/allocate logic that turns a `(virtual, physical, permissions)` mapping
//! request into a tree of page-table frames. Each boundary gets its own
//! [`AddressSpace`] with its own top-level table, so one boundary's mappings are
//! physically absent from another's tables.
//!
//! The four-level radix structure (9 index bits per level, 4 KiB pages, 48-bit
//! virtual addresses) is modelled here. The bit layout of a hardware page-table
//! entry is delegated to a [`PageTableEncoder`].
use vstd::prelude::*;
use crate::kernel::error::{KernelError, KernelResult};
use crate::kernel::frame::{
    free_frames_reachable, next_frame_is_free, FrameAllocator, Frames, PhysFrame, FRAME_SIZE,
};
use crate::kernel::phys_memory::{zero_words, PhysMemory, Words};

verus! {

/// Number of paging levels (PML4, PDPT, PD, PT on x86_64).
pub const LEVELS: usize = 4;

/// Index bits consumed per level.
pub const INDEX_BITS: usize = 9;

/// Entries per page-table node (`2^INDEX_BITS`).
pub const ENTRIES: usize = 512;

/// Bytes covered by a block leaf one level above the pages.
pub const BLOCK_2M: u64 = 0x20_0000;

/// Access permissions for a mapping. The architecture encoder translates these
/// into hardware entry bits; the portable model only records intent.
#[derive(Debug, Clone, Copy, PartialEq, Eq, Structural)]
pub struct Permissions {
    /// Readable. (Always true for a present mapping; kept explicit for clarity.)
    pub read: bool,
    /// Writable.
    pub write: bool,
    /// Executable. When false, the encoder sets the no-execute bit.
    pub execute: bool,
    /// User-accessible. When false, only the kernel (supervisor) may access the
    /// page.
    pub user: bool,
    /// Device (MMIO) memory rather than normal cacheable RAM.
    pub device: bool,
}

impl Permissions {
    /// Read-only kernel data.
    pub fn kernel_ro() -> (p: Permissions)
        ensures
            p == (Permissions {
                read: true,
                write: false,
                execute: false,
                user: false,
                device: false,
            }),
    {
        Permissions { read: true, write: false, execute: false, user: false, device: false }
    }

    /// Read/write kernel data.
    pub fn kernel_rw() -> (p: Permissions)
        ensures
            p == (Permissions {
                read: true,
                write: true,
                execute: false,
                user: false,
                device: false,
            }),
    {
        Permissions { read: true, write: true, execute: false, user: false, device: false }
    }

    /// Read/execute kernel code.
    pub fn kernel_rx() -> (p: Permissions)
        ensures
            p == (Permissions {
                read: true,
                write: false,
                execute: true,
                user: false,
                device: false,
            }),
    {
        Permissions { read: true, write: false, execute: true, user: false, device: false }
    }

    /// Read/write user data.
    pub fn user_rw() -> (p: Permissions)
        ensures
            p == (Permissions {
                read: true,
                write: true,
                execute: false,
                user: true,
                device: false,
            }),
    {
        Permissions { read: true, write: true, execute: false, user: true, device: false }
    }

    /// Read/execute user code.
    pub fn user_rx() -> (p: Permissions)
        ensures
            p == (Permissions {
                read: true,
                write: false,
                execute: true,
                user: true,
                device: false,
            }),
    {
        Permissions { read: true, write: false, execute: true, user: true, device: false }
    }

    /// Read/write device (MMIO) memory: kernel-only, non-executable.
    pub fn device_rw() -> (p: Permissions)
        ensures
            p == (Permissions {
                read: true,
                write: true,
                execute: false,
                user: false,
                device: true,
            }),
    {
        Permissions { read: true, write: true, execute: false, user: false, device: true }
    }
}

/// Encodes architecture-specific page-table entries and reads them back.
///
/// All methods are pure functions of their inputs, named by the specification
/// functions; frames stand in them by their base addresses.
pub trait PageTableEncoder {
    /// The entry that points at the next-level table at `child`.
    spec fn table_entry(child: u64) -> u64;

    /// The entry that maps the 4 KiB page at `frame`.
    spec fn leaf_entry(frame: u64, perms: Permissions) -> u64;

    /// The entry that maps the block at `frame`, at interior `level`.
    spec fn block_entry(frame: u64, perms: Permissions, level: int) -> u64;

    /// Whether an entry is present.
    spec fn present(entry: u64) -> bool;

    /// Whether an entry found at interior `level` maps a block.
    spec fn block(entry: u64, level: int) -> bool;

    /// The base address of the frame that an entry points at.
    spec fn target(entry: u64) -> u64;

    /// Whether an entry can hold this frame address.
    spec fn encodable(frame: u64) -> bool;

    /// An entry of zeros is absent.
    proof fn empty_entry()
        ensures
            !Self::present(0),
    ;

    /// A table entry is present, is no block, and points at its table.
    proof fn table_entry_reads_back(child: u64, level: int)
        requires
            Self::encodable(child),
        ensures
            Self::present(Self::table_entry(child)),
            !Self::block(Self::table_entry(child), level),
            Self::target(Self::table_entry(child)) == child,
    ;

    /// A leaf entry is present and points at its page.
    proof fn leaf_entry_reads_back(frame: u64, perms: Permissions)
        requires
            Self::encodable(frame),
        ensures
            Self::present(Self::leaf_entry(frame, perms)),
            Self::target(Self::leaf_entry(frame, perms)) == frame,
    ;

    /// A block entry is present, is a block, and points at its frame.
    proof fn block_entry_reads_back(frame: u64, perms: Permissions, level: int)
        requires
            Self::encodable(frame),
            0 <= level < 3,
        ensures
            Self::present(Self::block_entry(frame, perms, level)),
            Self::block(Self::block_entry(frame, perms, level), level),
            Self::target(Self::block_entry(frame, perms, level)) == frame,
    ;

    /// Encode an entry pointing at the next-level table at `child` (an interior
    /// entry). Interior entries are present, writable, and user-accessible so that
    /// leaf permissions govern.
    fn encode_table(child: PhysFrame) -> (e: u64)
        ensures
            e == Self::table_entry(child.base()),
    ;

    /// Encode a leaf entry mapping a 4 KiB page at `frame` with `perms`.
    fn encode_leaf(frame: PhysFrame, perms: Permissions) -> (e: u64)
        ensures
            e == Self::leaf_entry(frame.base(), perms),
    ;

    /// Encode a block (huge-page) leaf at interior `level` (0 = top-level table),
    /// mapping a larger, naturally-aligned region directly: at level `LEVELS-2`,
    /// 2 MiB; at `LEVELS-3`, 1 GiB.
    fn encode_block_leaf(frame: PhysFrame, perms: Permissions, level: usize) -> (e: u64)
        ensures
            e == Self::block_entry(frame.base(), perms, level as int),
    ;

    /// Whether an entry is present.
    fn is_present(entry: u64) -> (r: bool)
        ensures
            r == Self::present(entry),
    ;

    /// Whether `entry`, found at interior `level` (0 = top), is a block leaf rather
    /// than a pointer to a next-level table.
    fn is_block_leaf(entry: u64, level: usize) -> (r: bool)
        ensures
            r == Self::block(entry, level as int),
    ;

    /// The physical frame an entry points at (interior child or leaf page).
    fn entry_frame(entry: u64) -> (f: PhysFrame)
        ensures
            f.base() == Self::target(entry),
    ;
}

/// Bytes covered by one entry at `level`.
pub open spec fn span(level: int) -> u64 {
    if level == 0 {
        0x80_0000_0000
    } else if level == 1 {
        0x4000_0000
    } else if level == 2 {
        0x20_0000
    } else {
        0x1000
    }
}

/// The index of `virt` at `level`.
pub open spec fn index_at(virt: u64, level: int) -> int {
    (virt as int / span(level) as int) % 512
}

/// The entry for `virt` in the table at `table`, which stands at `level`.
pub open spec fn entry_for(words: Words, table: u64, virt: u64, level: int) -> u64 {
    words[table][index_at(virt, level)]
}

/// What `virt` translates to from the table at `table`, which stands at `level`.
pub open spec fn translate_from<E: PageTableEncoder>(
    words: Words,
    table: u64,
    virt: u64,
    level: int,
) -> Option<u64>
    decreases 3 - level,
{
    let e = entry_for(words, table, virt, level);
    if !E::present(e) {
        None
    } else if level >= 3 || E::block(e, level) {
        Some(E::target(e) | (virt % span(level)))
    } else {
        translate_from::<E>(words, E::target(e), virt, level + 1)
    }
}

/// Every table on the way of `virt`, from the one at `table` on, can be reached.
pub open spec fn tables_reachable<E: PageTableEncoder>(
    words: Words,
    table: u64,
    virt: u64,
    level: int,
) -> bool
    decreases 3 - level,
{
    let e = entry_for(words, table, virt, level);
    &&& words.dom().contains(table)
    &&& level < 3 && E::present(e) && !E::block(e, level) ==> tables_reachable::<E>(
        words,
        E::target(e),
        virt,
        level + 1,
    )
}

/// Physical memory and the allocator of its frames.
pub ghost struct Machine {
    pub words: Words,
    pub frames: Frames,
}

/// Why a mapping was refused.
pub ghost enum MapFault {
    /// An address is not aligned.
    Unaligned,
    /// A larger block covers the address.
    Covered,
    /// The slot is taken.
    Mapped,
    /// No frame is left for a table.
    NoFrames,
}

/// The way down to the table at level `upto` for `virt`, from the one at `table`,
/// which stands at `level`: missing tables are allocated, zeroed and linked. With
/// `checked`, a block on the way stops the descent.
pub open spec fn descend<E: PageTableEncoder>(
    m: Machine,
    table: u64,
    virt: u64,
    level: int,
    upto: int,
    checked: bool,
) -> (Machine, Result<u64, MapFault>)
    decreases upto - level,
{
    if level >= upto {
        (m, Ok(table))
    } else {
        let e = entry_for(m.words, table, virt, level);
        if E::present(e) {
            if checked && E::block(e, level) {
                (m, Err(MapFault::Covered))
            } else {
                descend::<E>(m, E::target(e), virt, level + 1, upto, checked)
            }
        } else {
            match m.frames.next() {
                None => (m, Err(MapFault::NoFrames)),
                Some(f) => {
                    let child = (f * 4096) as u64;
                    let zeroed = m.words.insert(child, zero_words());
                    let linked = zeroed.insert(
                        table,
                        zeroed[table].update(index_at(virt, level), E::table_entry(child)),
                    );
                    descend::<E>(
                        Machine { words: linked, frames: m.frames.without(f) },
                        child,
                        virt,
                        level + 1,
                        upto,
                        checked,
                    )
                },
            }
        }
    }
}

/// Every table on the way down to level `upto` can be reached and is in use.
pub open spec fn descent_possible<E: PageTableEncoder>(
    m: Machine,
    table: u64,
    virt: u64,
    level: int,
    upto: int,
    checked: bool,
) -> bool
    decreases upto - level,
{
    let e = entry_for(m.words, table, virt, level);
    &&& m.words.dom().contains(table)
    &&& m.words[table].len() == 512
    &&& table % 4096 == 0
    &&& !m.frames.free.contains(table as int / 4096)
    &&& level < upto && E::present(e) && !(checked && E::block(e, level)) ==> descent_possible::<E>(
        m,
        E::target(e),
        virt,
        level + 1,
        upto,
        checked,
    )
}

/// Put `entry` in the slot for `virt` at level `upto`.
pub open spec fn install<E: PageTableEncoder>(
    m: Machine,
    root: u64,
    virt: u64,
    entry: u64,
    upto: int,
    checked: bool,
) -> (Machine, Result<(), MapFault>) {
    let (m2, r) = descend::<E>(m, root, virt, 0, upto, checked);
    match r {
        Err(e) => (m2, Err(e)),
        Ok(table) => if E::present(entry_for(m2.words, table, virt, upto)) {
            (m2, Err(MapFault::Mapped))
        } else {
            (
                Machine {
                    words: m2.words.insert(
                        table,
                        m2.words[table].update(index_at(virt, upto), entry),
                    ),
                    ..m2
                },
                Ok(()),
            )
        },
    }
}

/// Map a 4 KiB page.
pub open spec fn map_page<E: PageTableEncoder>(
    m: Machine,
    root: u64,
    virt: u64,
    frame: u64,
    perms: Permissions,
) -> (Machine, Result<(), MapFault>) {
    if virt % 4096 != 0 {
        (m, Err(MapFault::Unaligned))
    } else {
        install::<E>(m, root, virt, E::leaf_entry(frame, perms), 3, true)
    }
}

/// Map a 2 MiB block.
pub open spec fn map_block<E: PageTableEncoder>(
    m: Machine,
    root: u64,
    virt: u64,
    frame: u64,
    perms: Permissions,
) -> (Machine, Result<(), MapFault>) {
    if virt % BLOCK_2M != 0 || frame % BLOCK_2M != 0 {
        (m, Err(MapFault::Unaligned))
    } else {
        install::<E>(m, root, virt, E::block_entry(frame, perms, 2), 2, false)
    }
}

/// How the kernel reports a refused page mapping.
pub open spec fn page_error(f: MapFault, e: KernelError) -> bool {
    match f {
        MapFault::Unaligned => e.is_invalid("unaligned virtual address"@),
        MapFault::Covered => e.is_invalid("address covered by an existing large-page block"@),
        MapFault::Mapped => e.is_invalid("page already mapped"@),
        MapFault::NoFrames => e.is_limit("physical frames"@),
    }
}

/// How the kernel reports a refused block mapping.
pub open spec fn block_error(f: MapFault, e: KernelError) -> bool {
    match f {
        MapFault::Unaligned => e.is_invalid("unaligned 2 MiB block"@),
        MapFault::Covered => false,
        MapFault::Mapped => e.is_invalid("2 MiB slot already mapped"@),
        MapFault::NoFrames => e.is_limit("physical frames"@),
    }
}

/// What memory and the allocator hold.
pub open spec fn machine<M: PhysMemory>(mem: M, frames: FrameAllocator) -> Machine {
    Machine { words: mem.words(), frames: frames@ }
}

/// The outcome of mapping a range: which mapping failed, if any, and whether that
/// was of a block.
pub ghost struct RangeFault {
    pub fault: MapFault,
    pub block: bool,
}

/// The `i`-th page address from `start` on.
pub open spec fn page_address(start: u64, i: int) -> u64 {
    (start + i * 4096) as u64
}

/// Whether the rest of a range, from its `i`-th page on, starts with a block.
pub open spec fn block_next(virt: u64, phys: u64, i: int, count: int) -> bool {
    &&& page_address(virt, i) % BLOCK_2M == 0
    &&& page_address(phys, i) % BLOCK_2M == 0
    &&& count - i >= 512
}

/// Map a range from its `i`-th page on, by blocks where both addresses are aligned
/// and enough pages are left, and by pages elsewhere.
pub open spec fn map_run<E: PageTableEncoder>(
    m: Machine,
    root: u64,
    virt: u64,
    phys: u64,
    i: int,
    count: int,
    perms: Permissions,
) -> (Machine, Result<(), RangeFault>)
    decreases count - i,
{
    if i >= count {
        (m, Ok(()))
    } else {
        let v = page_address(virt, i);
        let p = page_address(phys, i);
        if block_next(virt, phys, i, count) {
            let (m2, r) = map_block::<E>(m, root, v, p, perms);
            match r {
                Err(fault) => (m2, Err(RangeFault { fault, block: true })),
                Ok(_) => map_run::<E>(m2, root, virt, phys, i + 512, count, perms),
            }
        } else {
            let (m2, r) = map_page::<E>(m, root, v, (p - p % 4096) as u64, perms);
            match r {
                Err(fault) => (m2, Err(RangeFault { fault, block: false })),
                Ok(_) => map_run::<E>(m2, root, virt, phys, i + 1, count, perms),
            }
        }
    }
}

/// Every table on the way of every page of a range can be reached and is in use.
pub open spec fn run_possible<E: PageTableEncoder>(
    m: Machine,
    root: u64,
    virt: u64,
    phys: u64,
    i: int,
    count: int,
    perms: Permissions,
) -> bool
    decreases count - i,
{
    if i >= count {
        true
    } else {
        let v = page_address(virt, i);
        let p = page_address(phys, i);
        &&& free_frames_reachable(m.frames, m.words)
        &&& if block_next(virt, phys, i, count) {
            let (m2, r) = map_block::<E>(m, root, v, p, perms);
            &&& descent_possible::<E>(m, root, v, 0, 2, false)
            &&& r is Ok ==> run_possible::<E>(m2, root, virt, phys, i + 512, count, perms)
        } else {
            let (m2, r) = map_page::<E>(m, root, v, (p - p % 4096) as u64, perms);
            &&& descent_possible::<E>(m, root, v, 0, 3, true)
            &&& r is Ok ==> run_possible::<E>(m2, root, virt, phys, i + 1, count, perms)
        }
    }
}

/// How the kernel reports a range that could not be mapped.
pub open spec fn range_error(f: RangeFault, e: KernelError) -> bool {
    if f.block {
        block_error(f.fault, e)
    } else {
        page_error(f.fault, e)
    }
}

/// A per-boundary virtual address space: the root page-table frame plus the logic
/// to map pages into it.
///
/// The `AddressSpace` does not itself touch hardware; it allocates page-table
/// frames from a [`FrameAllocator`] and writes entries through a [`PhysMemory`].
pub struct AddressSpace {
    root: PhysFrame,
}

impl AddressSpace {
    /// The base address of the root table.
    pub closed spec fn root_base(&self) -> u64 {
        self.root.base()
    }

    /// Create a fresh, empty address space, allocating and zeroing its root table.
    pub fn new<M: PhysMemory>(frames: &mut FrameAllocator, mem: &mut M) -> (r: KernelResult<
        AddressSpace,
    >)
        requires
            old(frames).wf(),
            free_frames_reachable(old(frames)@, old(mem).words()),
        ensures
            final(frames).wf(),
            match old(frames)@.next() {
                Some(f) => {
                    &&& r matches Ok(space) && space.root_base() == f * 4096
                    &&& final(frames)@ == old(frames)@.without(f)
                    &&& final(mem).words() == old(mem).words().insert(
                        (f * 4096) as u64,
                        zero_words(),
                    )
                },
                None => {
                    &&& r matches Err(e) && e.is_limit("physical frames"@)
                    &&& *final(frames) == *old(frames)
                    &&& *final(mem) == *old(mem)
                },
            },
    {
        match frames.allocate_zeroed(mem) {
            Ok(root) => Ok(AddressSpace { root }),
            Err(e) => Err(e),
        }
    }

    /// The root page-table frame (its physical address goes in `cr3`/`ttbr0`).
    pub fn root(&self) -> (f: PhysFrame)
        ensures
            f.base() == self.root_base(),
    {
        self.root
    }

    /// Adopt an existing root table (do not allocate a new one) so additional
    /// pages can be mapped into an already-installed address space.
    pub fn adopt(root: PhysFrame) -> (space: AddressSpace)
        ensures
            space.root_base() == root.base(),
    {
        AddressSpace { root }
    }

    /// Split a 48-bit virtual address into its four 9-bit level indices,
    /// most-significant level first (`[PML4, PDPT, PD, PT]`).
    pub fn indices(virt: u64) -> (idx: [usize; LEVELS])
        ensures
            forall|level: int| 0 <= level < 4 ==> #[trigger] idx@[level] == index_at(virt, level),
    {
        let idx: [usize; LEVELS] = [
            (virt / 0x80_0000_0000 % 512) as usize,
            (virt / 0x4000_0000 % 512) as usize,
            (virt / 0x20_0000 % 512) as usize,
            (virt / 0x1000 % 512) as usize,
        ];
        idx
    }

    /// Walk down to the table at level `upto` for `virt`, allocating missing
    /// tables.
    fn descend<E: PageTableEncoder, M: PhysMemory>(
        &self,
        virt: u64,
        upto: usize,
        checked: bool,
        frames: &mut FrameAllocator,
        mem: &mut M,
    ) -> (r: KernelResult<PhysFrame>)
        requires
            upto <= 3,
            old(frames).wf(),
            free_frames_reachable(old(frames)@, old(mem).words()),
            descent_possible::<E>(
                machine(*old(mem), *old(frames)),
                self.root_base(),
                virt,
                0,
                upto as int,
                checked,
            ),
        ensures
            final(frames).wf(),
            ({
                let (m, want) = descend::<E>(
                    machine(*old(mem), *old(frames)),
                    self.root_base(),
                    virt,
                    0,
                    upto as int,
                    checked,
                );
                &&& machine(*final(mem), *final(frames)) == m
                &&& match want {
                    Ok(table) => r matches Ok(f) && f.base() == table && m.words.dom().contains(
                        table,
                    ),
                    Err(fault) => r matches Err(e) && page_error(fault, e) && (fault is Covered
                        || fault is NoFrames),
                }
            }),
    {
        let idx: [usize; LEVELS] = Self::indices(virt);
        let mut table: PhysFrame = self.root;
        let mut level: usize = 0;
        let ghost start = machine(*mem, *frames);
        proof {
            E::empty_entry();
        }
        while level < upto
            invariant
                level <= upto <= 3,
                idx@.len() == 4,
                forall|l: int| 0 <= l < 4 ==> #[trigger] idx@[l] == index_at(virt, l),
                !E::present(0),
                frames.wf(),
                free_frames_reachable(frames@, mem.words()),
                start == machine(*old(mem), *old(frames)),
                descend::<E>(start, self.root_base(), virt, 0, upto as int, checked) == descend::<
                    E,
                >(
                    machine(*mem, *frames),
                    table.base(),
                    virt,
                    level as int,
                    upto as int,
                    checked,
                ),
                descent_possible::<E>(
                    machine(*mem, *frames),
                    table.base(),
                    virt,
                    level as int,
                    upto as int,
                    checked,
                ),
            decreases upto - level,
        {
            let index: usize = idx[level];
            assert(index == index_at(virt, level as int));
            let entry: u64 = mem.read_word(table, index);
            if E::is_present(entry) {
                // A block must not be descended into as if it were a table: that
                // would corrupt the memory it maps.
                if checked && E::is_block_leaf(entry, level) {
                    return Err(
                        KernelError::InvalidState {
                            reason: "address covered by an existing large-page block",
                        },
                    );
                }
                table = E::entry_frame(entry);
            } else {
                let ghost before = machine(*mem, *frames);
                proof {
                    next_frame_is_free(frames@);
                }
                let child: PhysFrame = match frames.allocate_zeroed(mem) {
                    Ok(f) => f,
                    Err(e) => return Err(e),
                };
                mem.write_word(table, index, E::encode_table(child));
                proof {
                    let f = before.frames.next()->Some_0;
                    assert(child.base() as int / 4096 == f);
                    assert(child.base() != table.base());
                    assert(mem.words()[child.base()] == zero_words());
                }
                table = child;
            }
            level = level + 1;
        }
        Ok(table)
    }

    /// Map a single 4 KiB `virt` page to physical `frame` with `perms`.
    ///
    /// Allocates interior tables as needed. Fails if the mapping already exists
    /// (no silent remap), if a larger block covers the address, or on frame
    /// exhaustion.
    pub fn map<E: PageTableEncoder, M: PhysMemory>(
        &self,
        virt: u64,
        frame: PhysFrame,
        perms: Permissions,
        frames: &mut FrameAllocator,
        mem: &mut M,
    ) -> (r: KernelResult<()>)
        requires
            old(frames).wf(),
            free_frames_reachable(old(frames)@, old(mem).words()),
            descent_possible::<E>(
                machine(*old(mem), *old(frames)),
                self.root_base(),
                virt,
                0,
                3,
                true,
            ),
        ensures
            final(frames).wf(),
            ({
                let (m, want) = map_page::<E>(
                    machine(*old(mem), *old(frames)),
                    self.root_base(),
                    virt,
                    frame.base(),
                    perms,
                );
                &&& machine(*final(mem), *final(frames)) == m
                &&& match want {
                    Ok(_) => r is Ok,
                    Err(fault) => r matches Err(e) && page_error(fault, e),
                }
            }),
    {
        if virt % FRAME_SIZE != 0 {
            return Err(KernelError::InvalidState { reason: "unaligned virtual address" });
        }
        let table: PhysFrame = match self.descend::<E, M>(virt, 3, true, frames, mem) {
            Ok(t) => t,
            Err(e) => return Err(e),
        };
        let idx: [usize; LEVELS] = Self::indices(virt);
        let index: usize = idx[3];
        assert(index == index_at(virt, 3));
        if E::is_present(mem.read_word(table, index)) {
            return Err(KernelError::InvalidState { reason: "page already mapped" });
        }
        mem.write_word(table, index, E::encode_leaf(frame, perms));
        Ok(())
    }

    /// Map a single naturally-aligned 2 MiB block at `virt` to `frame` using a
    /// block leaf one level above the 4 KiB leaf. Both `virt` and `frame` must be
    /// 2 MiB-aligned.
    pub fn map_block_2m<E: PageTableEncoder, M: PhysMemory>(
        &self,
        virt: u64,
        frame: PhysFrame,
        perms: Permissions,
        frames: &mut FrameAllocator,
        mem: &mut M,
    ) -> (r: KernelResult<()>)
        requires
            old(frames).wf(),
            free_frames_reachable(old(frames)@, old(mem).words()),
            descent_possible::<E>(
                machine(*old(mem), *old(frames)),
                self.root_base(),
                virt,
                0,
                2,
                false,
            ),
        ensures
            final(frames).wf(),
            ({
                let (m, want) = map_block::<E>(
                    machine(*old(mem), *old(frames)),
                    self.root_base(),
                    virt,
                    frame.base(),
                    perms,
                );
                &&& machine(*final(mem), *final(frames)) == m
                &&& match want {
                    Ok(_) => r is Ok,
                    Err(fault) => r matches Err(e) && block_error(fault, e),
                }
            }),
    {
        if virt % BLOCK_2M != 0 || frame.addr() % BLOCK_2M != 0 {
            return Err(KernelError::InvalidState { reason: "unaligned 2 MiB block" });
        }
        let table: PhysFrame = match self.descend::<E, M>(virt, 2, false, frames, mem) {
            Ok(t) => t,
            Err(e) => {
                proof {
                    lemma_unchecked_never_covered::<E>(
                        machine(*old(mem), *old(frames)),
                        self.root_base(),
                        virt,
                        0,
                        2,
                    );
                }
                return Err(e);
            },
        };
        let idx: [usize; LEVELS] = Self::indices(virt);
        let index: usize = idx[2];
        assert(index == index_at(virt, 2));
        if E::is_present(mem.read_word(table, index)) {
            return Err(KernelError::InvalidState { reason: "2 MiB slot already mapped" });
        }
        mem.write_word(table, index, E::encode_block_leaf(frame, perms, 2));
        Ok(())
    }

    /// Map `count` consecutive 4 KiB pages starting at (`virt`, `phys`) with
    /// `perms`. Uses 2 MiB blocks for the naturally-aligned bulk and 4 KiB pages for
    /// any unaligned head/tail. Partial progress is left in place on error.
    pub fn map_range<E: PageTableEncoder, M: PhysMemory>(
        &self,
        virt: u64,
        phys: u64,
        count: u64,
        perms: Permissions,
        frames: &mut FrameAllocator,
        mem: &mut M,
    ) -> (r: KernelResult<()>)
        requires
            old(frames).wf(),
            virt + (count - 1) * 4096 <= u64::MAX,
            phys + (count - 1) * 4096 <= u64::MAX,
            run_possible::<E>(
                machine(*old(mem), *old(frames)),
                self.root_base(),
                virt,
                phys,
                0,
                count as int,
                perms,
            ),
        ensures
            final(frames).wf(),
            ({
                let (m, want) = map_run::<E>(
                    machine(*old(mem), *old(frames)),
                    self.root_base(),
                    virt,
                    phys,
                    0,
                    count as int,
                    perms,
                );
                &&& machine(*final(mem), *final(frames)) == m
                &&& match want {
                    Ok(_) => r is Ok,
                    Err(fault) => r matches Err(e) && range_error(fault, e),
                }
            }),
    {
        let ghost start = machine(*mem, *frames);
        let mut i: u64 = 0;
        while i < count
            invariant
                i <= count,
                frames.wf(),
                virt + (count - 1) * 4096 <= u64::MAX,
                phys + (count - 1) * 4096 <= u64::MAX,
                start == machine(*old(mem), *old(frames)),
                run_possible::<E>(
                    machine(*mem, *frames),
                    self.root_base(),
                    virt,
                    phys,
                    i as int,
                    count as int,
                    perms,
                ),
                map_run::<E>(start, self.root_base(), virt, phys, 0, count as int, perms)
                    == map_run::<E>(
                    machine(*mem, *frames),
                    self.root_base(),
                    virt,
                    phys,
                    i as int,
                    count as int,
                    perms,
                ),
            decreases count - i,
        {
            let v: u64 = virt + i * FRAME_SIZE;
            let p: u64 = phys + i * FRAME_SIZE;
            assert(v == page_address(virt, i as int));
            assert(p == page_address(phys, i as int));
            if v % BLOCK_2M == 0 && p % BLOCK_2M == 0 && count - i >= ENTRIES as u64 {
                let frame: PhysFrame = PhysFrame::containing(p);
                match self.map_block_2m::<E, M>(v, frame, perms, frames, mem) {
                    Err(e) => return Err(e),
                    Ok(()) => {},
                }
                i = i + ENTRIES as u64;
            } else {
                let frame: PhysFrame = PhysFrame::containing(p);
                match self.map::<E, M>(v, frame, perms, frames, mem) {
                    Err(e) => return Err(e),
                    Ok(()) => {},
                }
                i = i + 1;
            }
        }
        Ok(())
    }

    /// Translate a virtual address to its mapped physical address, or `None` if
    /// unmapped.
    pub fn translate<E: PageTableEncoder, M: PhysMemory>(&self, virt: u64, mem: &M) -> (r: Option<
        u64,
    >)
        requires
            tables_reachable::<E>(mem.words(), self.root_base(), virt, 0),
        ensures
            r == translate_from::<E>(mem.words(), self.root_base(), virt, 0),
    {
        let idx: [usize; LEVELS] = Self::indices(virt);
        let mut table: PhysFrame = self.root;
        let mut level: usize = 0;
        while level < 3
            invariant
                level <= 3,
                idx@.len() == 4,
                forall|l: int| 0 <= l < 4 ==> #[trigger] idx@[l] == index_at(virt, l),
                tables_reachable::<E>(mem.words(), table.base(), virt, level as int),
                translate_from::<E>(mem.words(), self.root_base(), virt, 0) == translate_from::<E>(
                    mem.words(),
                    table.base(),
                    virt,
                    level as int,
                ),
            decreases 3 - level,
        {
            let index: usize = idx[level];
            assert(index == index_at(virt, level as int));
            let entry: u64 = mem.read_word(table, index);
            if !E::is_present(entry) {
                return None;
            }
            if E::is_block_leaf(entry, level) {
                let size: u64 = if level == 0 {
                    0x80_0000_0000
                } else if level == 1 {
                    0x4000_0000
                } else {
                    0x20_0000
                };
                return Some(E::entry_frame(entry).addr() | (virt % size));
            }
            table = E::entry_frame(entry);
            level = level + 1;
        }
        let index: usize = idx[3];
        assert(index == index_at(virt, 3));
        let leaf: u64 = mem.read_word(table, index);
        if !E::is_present(leaf) {
            return None;
        }
        Some(E::entry_frame(leaf).addr() | (virt % FRAME_SIZE))
    }
}

/// A descent that does not look for blocks is never stopped by one.
proof fn lemma_unchecked_never_covered<E: PageTableEncoder>(
    m: Machine,
    table: u64,
    virt: u64,
    level: int,
    upto: int,
)
    ensures
        !(descend::<E>(m, table, virt, level, upto, false).1 matches Err(MapFault::Covered)),
    decreases upto - level,
{
    if level < upto {
        let e = entry_for(m.words, table, virt, level);
        if E::present(e) {
            lemma_unchecked_never_covered::<E>(m, E::target(e), virt, level + 1, upto);
        } else if let Some(f) = m.frames.next() {
            let child = (f * 4096) as u64;
            let zeroed = m.words.insert(child, zero_words());
            let linked = zeroed.insert(
                table,
                zeroed[table].update(index_at(virt, level), E::table_entry(child)),
            );
            lemma_unchecked_never_covered::<E>(
                Machine { words: linked, frames: m.frames.without(f) },
                child,
                virt,
                level + 1,
                upto,
            );
        }
    }
}

} // verus!

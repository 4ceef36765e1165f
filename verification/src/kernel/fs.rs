//! CIBOSFS v1 -- a small on-disk filesystem.
//!
//! A block-backed filesystem layered on the [`BlockDevice`] trait. Files and
//! directories live in inodes and data blocks on the medium and survive a reboot.
//!
//! ```text
//!   block 0            superblock
//!   bitmap_start ..    block allocation bitmap (1 bit per data block)
//!   inode_start  ..    inode table (INODE_SIZE bytes each)
//!   data_start   ..    data blocks
//! ```
//!
//! Each inode holds a kind (free / file / directory), a byte size, and six direct
//! block pointers. A directory is an inode whose data is a packed array of
//! fixed-size entries; a free entry has inode number 0. Paths are resolved
//! component by component from the root.
use vstd::prelude::*;
use vstd::slice::{slice_subrange, slice_to_vec};
use crate::kernel::block::{buffer_block, is_hardware_fault, BlockDevice, BlockError, BLOCK_SIZE};
use crate::kernel::bytes::{get_le32, put_bytes, zeros};
use crate::kernel::fs_format::{
    blocks_for, empty_node, encode_slot, superblock_of, FsError, Inode, Superblock, DIRECT_BLOCKS,
    DIR_ENTRY_SIZE, INODE_SIZE, KIND_DIR, KIND_FILE, KIND_FREE, MAX_FILE_SIZE, NAME_MAX, ROOT_INODE,
};
use crate::kernel::fs_model::{
    cleared, components, dir_bytes, find, layout, lemma_find_push, links, padded_block, prepend, with_bit_of,
    without, word_len, Entry, Volume,
};

verus! {

/// A directory entry as exposed to callers.
#[derive(Debug, Clone, PartialEq, Eq)]
pub struct DirEntry {
    /// Inode number of the entry.
    pub inode: u32,
    /// Whether it is a directory.
    pub is_dir: bool,
    /// Entry name.
    pub name: Vec<u8>,
}

impl View for DirEntry {
    type V = Entry;

    open spec fn view(&self) -> Entry {
        Entry { ino: self.inode, is_dir: self.is_dir, name: self.name@ }
    }
}

/// The views of a list of directory entries.
pub open spec fn entry_views(es: Seq<DirEntry>) -> Seq<Entry> {
    Seq::new(es.len(), |i: int| es[i]@)
}

/// The views of a list of byte strings.
pub open spec fn byte_views(cs: Seq<Vec<u8>>) -> Seq<Seq<u8>> {
    Seq::new(cs.len(), |i: int| cs[i]@)
}

/// A mounted CIBOSFS filesystem over a block device `D`.
pub struct Fs<D: BlockDevice> {
    dev: D,
    sb: Superblock,
}

/// The hardware decided this outcome.
pub open spec fn device_failed<T>(r: Result<T, FsError>) -> bool {
    r matches Err(FsError::Block(e)) && is_hardware_fault(e)
}

/// A read answered `r` where the volume says `want`, unless the hardware failed.
pub open spec fn answered<D: BlockDevice, T>(
    fs: Fs<D>,
    r: Result<T, FsError>,
    want: Result<T, FsError>,
) -> bool {
    r == want || (device_failed(r) && !fs.device().sound())
}

/// An operation took `pre` to `post` and answered `r` where the volume says
/// `want`, unless the hardware failed. A device that takes no writes may say so
/// before it looks whether the block to write is there.
pub open spec fn performed<D: BlockDevice, T>(
    pre: Fs<D>,
    post: Fs<D>,
    r: Result<T, FsError>,
    want: (Volume, Result<T, FsError>),
) -> bool {
    &&& same_mount(pre, post)
    &&& r is Ok ==> !pre.device().write_protected()
    &&& {
        ||| post.volume() == want.0 && r == want.1
        ||| device_failed(r) && !pre.device().sound()
        ||| pre.device().write_protected() && r == Err::<T, FsError>(
            FsError::Block(BlockError::ReadOnly),
        ) && want.1 == Err::<T, FsError>(FsError::Block(BlockError::OutOfRange))
    }
}

/// Both are mounts of one device with one superblock.
pub open spec fn same_mount<D: BlockDevice>(pre: Fs<D>, post: Fs<D>) -> bool {
    &&& post.volume().sb == pre.volume().sb
    &&& post.volume().blocks.len() == pre.volume().blocks.len()
    &&& post.device().sound() == pre.device().sound()
    &&& post.device().write_protected() == pre.device().write_protected()
    &&& pre.device().write_protected() ==> post.volume() == pre.volume()
}

/// Whether two byte strings are equal.
fn same_bytes(a: &[u8], b: &[u8]) -> (r: bool)
    ensures
        r == (a@ == b@),
{
    if a.len() != b.len() {
        return false;
    }
    let n: usize = a.len();
    let mut i: usize = 0;
    while i < n
        invariant
            i <= n,
            n == a@.len(),
            n == b@.len(),
            forall|j: int| 0 <= j < i ==> a@[j] == b@[j],
        decreases n - i,
    {
        if a[i] != b[i] {
            return false;
        }
        i = i + 1;
    }
    assert(a@ =~= b@);
    true
}

/// Split a `/`-separated path into components, ignoring empty parts.
fn split_path(path: &[u8]) -> (out: Vec<Vec<u8>>)
    ensures
        byte_views(out@) == components(path@),
{
    let len: usize = path.len();
    let mut out: Vec<Vec<u8>> = Vec::new();
    let mut pos: usize = 0;
    assert(path@.subrange(0, len as int) =~= path@);
    assert(byte_views(out@) =~= Seq::<Seq<u8>>::empty());
    assert(byte_views(out@) + components(path@) =~= components(path@));
    while pos < len
        invariant
            pos <= len,
            len == path@.len(),
            components(path@) == byte_views(out@) + components(
                path@.subrange(pos as int, len as int),
            ),
        decreases len - pos,
    {
        let ghost rest = path@.subrange(pos as int, len as int);
        if path[pos] == 0x2f {
            assert(rest.drop_first() =~= path@.subrange(pos + 1, len as int));
            pos = pos + 1;
        } else {
            let mut end: usize = pos;
            while end < len && path[end] != 0x2f
                invariant
                    pos <= end <= len,
                    len == path@.len(),
                    rest == path@.subrange(pos as int, len as int),
                    word_len(rest) == (end - pos) + word_len(
                        path@.subrange(end as int, len as int),
                    ),
                decreases len - end,
            {
                assert(path@.subrange(end as int, len as int).drop_first() =~= path@.subrange(
                    end + 1,
                    len as int,
                ));
                end = end + 1;
            }
            let word: Vec<u8> = slice_to_vec(slice_subrange(path, pos, end));
            let ghost before = byte_views(out@);
            out.push(word);
            proof {
                let n = end - pos;
                assert(word_len(path@.subrange(end as int, len as int)) == 0);
                assert(word_len(rest) == n);
                if end == pos {
                    assert(rest[0] != 0x2f);
                }
                assert(rest.subrange(0, n) =~= word@);
                assert(rest.subrange(n, rest.len() as int) =~= path@.subrange(
                    end as int,
                    len as int,
                ));
                assert(byte_views(out@) =~= before + seq![word@]);
                let tail = components(path@.subrange(end as int, len as int));
                assert(before + (seq![word@] + tail) =~= (before + seq![word@]) + tail);
            }
            pos = end;
        }
    }
    assert(byte_views(out@) + Seq::<Seq<u8>>::empty() =~= byte_views(out@));
    out
}

impl<D: BlockDevice> Fs<D> {
    /// The device.
    pub closed spec fn device(&self) -> D {
        self.dev
    }

    /// What is on the device, and how it is laid out.
    pub closed spec fn volume(&self) -> Volume {
        Volume {
            blocks: self.dev.blocks(),
            sb: self.sb,
            locked: self.dev.write_protected(),
        }
    }

    /// A volume is what its device holds, and is locked where that takes no writes.
    pub proof fn volume_is_on_the_device(&self)
        ensures
            self.volume().blocks == self.device().blocks(),
            self.volume().locked == self.device().write_protected(),
    {
    }

    // ---- blocks ------------------------------------------------------------

    /// Read the block `k` blocks after `start`.
    fn fetch(&self, start: u64, k: u64) -> (r: Result<Vec<u8>, FsError>)
        ensures
            answered(
                *self,
                match r {
                    Ok(b) => Ok(b@),
                    Err(e) => Err(e),
                },
                self.volume().fetch(start + k),
            ),
            r matches Ok(b) ==> b@.len() == 512,
    {
        let lba: u64 = match start.checked_add(k) {
            Some(lba) => lba,
            None => return Err(FsError::Corrupt),
        };
        let mut buf: Vec<u8> = vec![0u8;BLOCK_SIZE];
        match self.dev.read_blocks(lba, 1, buf.as_mut_slice()) {
            Err(e) => Err(FsError::Block(e)),
            Ok(()) => {
                assert(buffer_block(buf@, 0) =~= buf@);
                Ok(buf)
            },
        }
    }

    /// Write the block `k` blocks after `start`.
    fn store(&mut self, start: u64, k: u64, buf: &Vec<u8>) -> (r: Result<(), FsError>)
        requires
            buf@.len() == 512,
        ensures
            performed(*old(self), *final(self), r, old(self).volume().store(start + k, buf@)),
            old(self).device().write_protected() ==> !device_failed(r),
    {
        let lba: u64 = match start.checked_add(k) {
            Some(lba) => lba,
            None => return Err(FsError::Corrupt),
        };
        match self.dev.write_blocks(lba, 1, buf.as_slice()) {
            Err(e) => Err(FsError::Block(e)),
            Ok(()) => {
                assert(buffer_block(buf@, 0) =~= buf@);
                assert(self.dev.blocks() =~= old(self).dev.blocks().update(lba as int, buf@));
                Ok(())
            },
        }
    }

    // ---- inode table -------------------------------------------------------

    /// Read inode `ino`.
    fn read_inode(&self, ino: u32) -> (r: Result<Inode, FsError>)
        ensures
            answered(
                *self,
                match r {
                    Ok(n) => Ok(n@),
                    Err(e) => Err(e),
                },
                self.volume().inode(ino),
            ),
    {
        if ino >= self.sb.inode_count {
            return Err(FsError::NotFound);
        }
        let off: usize = (ino % 8) as usize * INODE_SIZE;
        match self.fetch(self.sb.inode_start, (ino / 8) as u64) {
            Err(e) => Err(e),
            Ok(buf) => Ok(Inode::read_from(slice_subrange(buf.as_slice(), off, off + INODE_SIZE))),
        }
    }

    /// Replace inode `ino`.
    fn write_inode(&mut self, ino: u32, inode: &Inode) -> (r: Result<(), FsError>)
        ensures
            performed(*old(self), *final(self), r, old(self).volume().with_inode(ino, inode@)),
    {
        if ino >= self.sb.inode_count {
            return Err(FsError::NotFound);
        }
        let off: usize = (ino % 8) as usize * INODE_SIZE;
        match self.fetch(self.sb.inode_start, (ino / 8) as u64) {
            Err(e) => Err(e),
            Ok(mut buf) => {
                inode.write_to(&mut buf, off);
                self.store(self.sb.inode_start, (ino / 8) as u64, &buf)
            },
        }
    }

    /// Find a free inode (inode 0 is the root, never free).
    fn alloc_inode(&self) -> (r: Result<u32, FsError>)
        ensures
            answered(*self, r, self.volume().free_inode_from(1)),
    {
        let mut ino: u32 = 1;
        while ino < self.sb.inode_count
            invariant
                self.volume().sb == self.sb,
                self.volume().free_inode_from(1) == self.volume().free_inode_from(ino as int),
            decreases self.sb.inode_count - ino,
        {
            match self.read_inode(ino) {
                Err(e) => return Err(e),
                Ok(n) => if n.kind == KIND_FREE {
                    return Ok(ino);
                },
            }
            ino = ino + 1;
        }
        Err(FsError::NoSpace)
    }

    // ---- block bitmap ------------------------------------------------------

    /// Whether data block `data_index` is taken.
    fn bit_get(&self, data_index: u64) -> (r: Result<bool, FsError>)
        ensures
            answered(*self, r, self.volume().bit(data_index as int)),
    {
        let byte: u64 = data_index / 8;
        let bit: u8 = (data_index % 8) as u8;
        let off: usize = (byte % 512) as usize;
        match self.fetch(self.sb.bitmap_start, byte / 512) {
            Err(e) => Err(e),
            Ok(buf) => Ok(buf[off] & (1u8 << bit) != 0),
        }
    }

    /// Mark data block `data_index` as taken or free.
    fn bit_set(&mut self, data_index: u64, value: bool) -> (r: Result<(), FsError>)
        ensures
            performed(
                *old(self),
                *final(self),
                r,
                old(self).volume().with_bit(data_index as int, value),
            ),
    {
        let byte: u64 = data_index / 8;
        let bit: u8 = (data_index % 8) as u8;
        let off: usize = (byte % 512) as usize;
        match self.fetch(self.sb.bitmap_start, byte / 512) {
            Err(e) => Err(e),
            Ok(mut buf) => {
                let ghost before = buf@;
                let x: u8 = buf[off];
                if value {
                    buf[off] = x | (1u8 << bit);
                } else {
                    buf[off] = x & !(1u8 << bit);
                }
                assert(buf@ =~= before.update(
                    off as int,
                    with_bit_of(before[off as int], bit as int, value),
                ));
                self.store(self.sb.bitmap_start, byte / 512, &buf)
            },
        }
    }

    /// Allocate a data block, returning its absolute LBA.
    fn alloc_block(&mut self) -> (r: Result<u64, FsError>)
        ensures
            performed(*old(self), *final(self), r, old(self).volume().alloc_block_from(0)),
    {
        let mut i: u64 = 0;
        while i < self.sb.data_blocks
            invariant
                *self == *old(self),
                self.volume().sb == self.sb,
                self.volume().alloc_block_from(0) == self.volume().alloc_block_from(i as int),
            decreases self.sb.data_blocks - i,
        {
            match self.bit_get(i) {
                Err(e) => return Err(e),
                Ok(taken) => if !taken {
                    let start: u64 = self.sb.data_start;
                    return match self.bit_set(i, true) {
                        Err(e) => Err(e),
                        Ok(()) => match start.checked_add(i) {
                            Some(lba) => Ok(lba),
                            None => Err(FsError::Corrupt),
                        },
                    };
                },
            }
            i = i + 1;
        }
        Err(FsError::NoSpace)
    }

    /// Give data block `lba` back.
    fn free_block(&mut self, lba: u64) -> (r: Result<(), FsError>)
        ensures
            performed(*old(self), *final(self), r, old(self).volume().free_block(lba)),
    {
        if lba < self.sb.data_start {
            return Err(FsError::Corrupt);
        }
        self.bit_set(lba - self.sb.data_start, false)
    }

    // ---- file data ---------------------------------------------------------

    /// Read the entire contents of file/dir `inode`.
    fn read_inode_data(&self, inode: &Inode) -> (r: Result<Vec<u8>, FsError>)
        ensures
            answered(
                *self,
                match r {
                    Ok(b) => Ok(b@),
                    Err(e) => Err(e),
                },
                self.volume().data_from(inode@, 0),
            ),
    {
        let mut out: Vec<u8> = Vec::new();
        let used: u64 = inode.blocks_used();
        let mut k: usize = 0;
        while k < DIRECT_BLOCKS && (k as u64) < used
            invariant
                k <= 6,
                used == blocks_for(inode.size as int),
                self.volume().data_from(inode@, 0) == prepend(
                    out@,
                    self.volume().data_from(inode@, k as int),
                ),
            decreases 6 - k,
        {
            match self.fetch(inode.direct[k], 0) {
                Err(e) => return Err(e),
                Ok(buf) => {
                    let remaining: u64 = inode.size - 512 * k as u64;
                    let take: usize = if remaining < 512 {
                        remaining as usize
                    } else {
                        512
                    };
                    let ghost before = out@;
                    let mut part: Vec<u8> = slice_to_vec(
                        slice_subrange(buf.as_slice(), 0, take),
                    );
                    let ghost piece = part@;
                    out.append(&mut part);
                    proof {
                        let rest = self.volume().data_from(inode@, k + 1);
                        if let Ok(tail) = rest {
                            assert(before + (piece + tail) =~= (before + piece) + tail);
                        }
                    }
                },
            }
            k = k + 1;
        }
        assert(out@ + Seq::<u8>::empty() =~= out@);
        Ok(out)
    }

    /// Replace the contents of inode `ino`, which holds `inode`, by `data`,
    /// taking and giving back data blocks as needed.
    fn write_inode_data(&mut self, ino: u32, inode: &Inode, data: &[u8]) -> (r: Result<
        (),
        FsError,
    >)
        ensures
            performed(
                *old(self),
                *final(self),
                r,
                old(self).volume().write_data(ino, inode@, data@),
            ),
    {
        if data.len() as u64 > MAX_FILE_SIZE {
            return Err(FsError::TooLarge);
        }
        if inode.blocks_used() > DIRECT_BLOCKS as u64 {
            return Err(FsError::Corrupt);
        }
        let len: usize = data.len();
        let new_blocks: usize = (len + 511) / 512;
        let old_blocks: usize = inode.blocks_used() as usize;
        let mut node: Inode = *inode;
        // Take any additional blocks.
        let mut i: usize = old_blocks;
        let ghost start = self.volume();
        while i < new_blocks
            invariant
                new_blocks <= 6,
                same_mount(*old(self), *self),
                node.kind == inode.kind,
                node.size == inode.size,
                start == old(self).volume(),
                start.grow(inode@, old_blocks as int, new_blocks as int) == self.volume().grow(
                    node@,
                    i as int,
                    new_blocks as int,
                ),
                start.grow(inode@, old_blocks as int, new_blocks as int).2 is Err ==> old(
                    self,
                ).volume().write_data(ino, inode@, data@) == (
                    start.grow(inode@, old_blocks as int, new_blocks as int).0,
                    start.grow(inode@, old_blocks as int, new_blocks as int).2,
                ),
            decreases new_blocks - i,
        {
            match self.alloc_block() {
                Err(e) => return Err(e),
                Ok(lba) => {
                    let ghost before = node@;
                    node.direct[i] = lba;
                    assert(node@.direct =~= before.direct.update(i as int, lba));
                },
            }
            i = i + 1;
        }
        let ghost grown = self.volume();
        let ghost grown_node = node@;
        // Give back blocks no longer needed.
        let mut i: usize = new_blocks;
        while i < old_blocks
            invariant
                old_blocks <= 6,
                same_mount(*old(self), *self),
                node.kind == inode.kind,
                node.size == inode.size,
                grown.shrink(grown_node, new_blocks as int, old_blocks as int)
                    == self.volume().shrink(node@, i as int, old_blocks as int),
                grown.shrink(grown_node, new_blocks as int, old_blocks as int).2 is Err ==> old(
                    self,
                ).volume().write_data(ino, inode@, data@) == (
                    grown.shrink(grown_node, new_blocks as int, old_blocks as int).0,
                    grown.shrink(grown_node, new_blocks as int, old_blocks as int).2,
                ),
            decreases old_blocks - i,
        {
            let lba: u64 = node.direct[i];
            if lba != 0 {
                match self.free_block(lba) {
                    Err(e) => return Err(e),
                    Ok(()) => {
                        let ghost before = node@;
                        node.direct[i] = 0;
                        assert(node@.direct =~= before.direct.update(i as int, 0));
                    },
                }
            }
            i = i + 1;
        }
        // Write the data, zero-padding the final block.
        let ghost ready = self.volume();
        let mut i: usize = 0;
        while i < new_blocks
            invariant
                new_blocks <= 6,
                new_blocks == blocks_for(data@.len() as int),
                len == data@.len(),
                len <= 3072,
                same_mount(*old(self), *self),
                ready.put_data(node@, data@, 0) == self.volume().put_data(node@, data@, i as int),
                ready.put_data(node@, data@, 0).1 is Err ==> old(self).volume().write_data(
                    ino,
                    inode@,
                    data@,
                ) == ready.put_data(node@, data@, 0),
            decreases new_blocks - i,
        {
            let from: usize = i * 512;
            let to: usize = if from + 512 < len {
                from + 512
            } else {
                len
            };
            let mut buf: Vec<u8> = vec![0u8;BLOCK_SIZE];
            put_bytes(&mut buf, 0, slice_subrange(data, from, to));
            assert(buf@ =~= padded_block(data@, i as int));
            match self.store(node.direct[i], 0, &buf) {
                Err(e) => return Err(e),
                Ok(()) => {},
            }
            i = i + 1;
        }
        node.size = len as u64;
        self.write_inode(ino, &node)
    }

    // ---- directories -------------------------------------------------------

    /// Read a directory's entries (inode `dir_ino` must be a directory).
    fn read_dir_entries(&self, dir_ino: u32) -> (r: Result<Vec<DirEntry>, FsError>)
        ensures
            answered(
                *self,
                match r {
                    Ok(es) => Ok(entry_views(es@)),
                    Err(e) => Err(e),
                },
                self.volume().dir_entries(dir_ino),
            ),
            r matches Ok(es) ==> forall|i: int|
                0 <= i < es@.len() ==> (#[trigger] es@[i]).name@.len() <= 23,
    {
        let dir: Inode = match self.read_inode(dir_ino) {
            Ok(n) => n,
            Err(e) => return Err(e),
        };
        if dir.kind != KIND_DIR {
            return Err(FsError::WrongKind);
        }
        let data: Vec<u8> = match self.read_inode_data(&dir) {
            Ok(d) => d,
            Err(e) => return Err(e),
        };
        let len: usize = data.len();
        let mut out: Vec<DirEntry> = Vec::new();
        let mut off: usize = 0;
        assert(entry_views(out@) =~= Seq::<Entry>::empty());
        while DIR_ENTRY_SIZE <= len - off
            invariant
                off <= len,
                len == data@.len(),
                self.volume().entries_from(data@, 0) == prepend(
                    entry_views(out@),
                    self.volume().entries_from(data@, off as int),
                ),
                self.volume().dir_entries(dir_ino) == self.volume().entries_from(data@, 0),
                forall|i: int| 0 <= i < out@.len() ==> (#[trigger] out@[i]).name@.len() <= 23,
            decreases len - off,
        {
            let ent: &[u8] = slice_subrange(data.as_slice(), off, off + DIR_ENTRY_SIZE);
            let ino: u32 = get_le32(ent, 0);
            let name_len: usize = ent[4] as usize;
            let ghost before = entry_views(out@);
            let ghost rest = self.volume().entries_from(data@, off + 32);
            if ino != 0 && name_len <= NAME_MAX {
                match self.read_inode(ino) {
                    Err(e) => return Err(e),
                    Ok(child) => {
                        let name: Vec<u8> = slice_to_vec(slice_subrange(ent, 5, 5 + name_len));
                        let entry = DirEntry { inode: ino, is_dir: child.kind == KIND_DIR, name };
                        out.push(entry);
                        proof {
                            assert(entry_views(out@) =~= before + seq![entry@]);
                            if let Ok(tail) = rest {
                                assert(before + (seq![entry@] + tail) =~= entry_views(out@) + tail);
                            }
                        }
                    },
                }
            }
            off = off + DIR_ENTRY_SIZE;
        }
        assert(entry_views(out@) + Seq::<Entry>::empty() =~= entry_views(out@));
        Ok(out)
    }

    /// Encode directory entries.
    fn encode_dir(entries: &Vec<DirEntry>) -> (data: Vec<u8>)
        requires
            forall|i: int| 0 <= i < entries@.len() ==> (#[trigger] entries@[i]).name@.len() <= 23,
        ensures
            data@ == dir_bytes(links(entry_views(entries@))),
    {
        let ghost all = links(entry_views(entries@));
        let mut data: Vec<u8> = Vec::new();
        let mut i: usize = 0;
        while i < entries.len()
            invariant
                i <= entries@.len(),
                all == links(entry_views(entries@)),
                forall|i: int|
                    0 <= i < entries@.len() ==> (#[trigger] entries@[i]).name@.len() <= 23,
                data@ == dir_bytes(all.subrange(0, i as int)),
            decreases entries@.len() - i,
        {
            let mut slot: Vec<u8> = encode_slot(entries[i].inode, entries[i].name.as_slice());
            data.append(&mut slot);
            proof {
                let next = all.subrange(0, i + 1);
                assert(next.drop_last() =~= all.subrange(0, i as int));
                assert(next.last() == all[i as int]);
            }
            i = i + 1;
        }
        assert(all.subrange(0, all.len() as int) =~= all);
        data
    }

    /// Make `entries` the contents of directory `dir_ino`.
    fn set_dir_entries(&mut self, dir_ino: u32, entries: &Vec<DirEntry>) -> (r: Result<
        (),
        FsError,
    >)
        requires
            forall|i: int| 0 <= i < entries@.len() ==> (#[trigger] entries@[i]).name@.len() <= 23,
        ensures
            performed(
                *old(self),
                *final(self),
                r,
                old(self).volume().with_links(dir_ino, links(entry_views(entries@))),
            ),
    {
        let data: Vec<u8> = Self::encode_dir(entries);
        match self.read_inode(dir_ino) {
            Err(e) => Err(e),
            Ok(dir) => self.write_inode_data(dir_ino, &dir, data.as_slice()),
        }
    }

    /// Add `(ino, name)` to directory `dir_ino`. Caller ensures `name` is unique.
    fn dir_add(&mut self, dir_ino: u32, ino: u32, name: &[u8]) -> (r: Result<(), FsError>)
        ensures
            performed(*old(self), *final(self), r, old(self).volume().dir_add(dir_ino, ino, name@)),
    {
        if name.len() > NAME_MAX {
            return Err(FsError::TooLarge);
        }
        let mut entries: Vec<DirEntry> = match self.read_dir_entries(dir_ino) {
            Ok(es) => es,
            Err(e) => return Err(e),
        };
        let ghost before = entry_views(entries@);
        entries.push(DirEntry { inode: ino, is_dir: false, name: slice_to_vec(name) });
        assert(links(entry_views(entries@)) =~= links(before).push((ino, name@)));
        self.set_dir_entries(dir_ino, &entries)
    }

    /// Find the inode that `name` names in directory `dir_ino`.
    fn dir_lookup(&self, dir_ino: u32, name: &[u8]) -> (r: Result<u32, FsError>)
        ensures
            answered(*self, r, self.volume().lookup(dir_ino, name@)),
    {
        let entries: Vec<DirEntry> = match self.read_dir_entries(dir_ino) {
            Ok(es) => es,
            Err(e) => return Err(e),
        };
        let ghost all = entry_views(entries@);
        let mut i: usize = 0;
        assert(all.subrange(0, all.len() as int) =~= all);
        while i < entries.len()
            invariant
                i <= entries@.len(),
                all == entry_views(entries@),
                find(all, name@) == find(all.subrange(i as int, all.len() as int), name@),
                answered(
                    *self,
                    Ok::<Seq<Entry>, FsError>(all),
                    self.volume().dir_entries(dir_ino),
                ),
            decreases entries@.len() - i,
        {
            proof {
                let rest = all.subrange(i as int, all.len() as int);
                assert(rest[0] == all[i as int]);
                assert(rest.drop_first() =~= all.subrange(i + 1, all.len() as int));
            }
            if same_bytes(entries[i].name.as_slice(), name) {
                return Ok(entries[i].inode);
            }
            i = i + 1;
        }
        Err(FsError::NotFound)
    }

    /// Remove the entry `name` from directory `dir_ino` by re-encoding the
    /// directory without it.
    fn dir_remove(&mut self, dir_ino: u32, name: &[u8]) -> (r: Result<(), FsError>)
        ensures
            performed(*old(self), *final(self), r, old(self).volume().dir_remove(dir_ino, name@)),
    {
        let mut existing: Vec<DirEntry> = match self.read_dir_entries(dir_ino) {
            Ok(es) => es,
            Err(e) => return Err(e),
        };
        let ghost all = entry_views(existing@);
        let before: usize = existing.len();
        let mut kept: Vec<DirEntry> = Vec::new();
        let mut i: usize = 0;
        assert(entry_views(kept@) =~= Seq::<Entry>::empty());
        while i < before
            invariant
                i <= before,
                before == existing@.len(),
                all == entry_views(existing@),
                entry_views(kept@) == without(all.subrange(0, i as int), name@),
                kept@.len() <= i,
                kept@.len() == i <==> find(all.subrange(0, i as int), name@) is None,
                forall|j: int|
                    0 <= j < existing@.len() ==> (#[trigger] existing@[j]).name@.len() <= 23,
                forall|j: int| 0 <= j < kept@.len() ==> (#[trigger] kept@[j]).name@.len() <= 23,
            decreases before - i,
        {
            let ghost prefix = all.subrange(0, i as int);
            proof {
                let next = all.subrange(0, i + 1);
                assert(next.drop_last() =~= prefix);
                assert(next.last() == all[i as int]);
                assert(next =~= prefix.push(all[i as int]));
                lemma_find_push(prefix, all[i as int], name@);
            }
            let ghost was = entry_views(kept@);
            let e: &DirEntry = &existing[i];
            if !same_bytes(e.name.as_slice(), name) {
                let copy = DirEntry {
                    inode: e.inode,
                    is_dir: e.is_dir,
                    name: slice_to_vec(e.name.as_slice()),
                };
                kept.push(copy);
                assert(copy@ == all[i as int]);
                assert(entry_views(kept@) =~= was.push(all[i as int]));
            }
            i = i + 1;
        }
        assert(all.subrange(0, all.len() as int) =~= all);
        if kept.len() == before {
            return Err(FsError::NotFound);
        }
        self.set_dir_entries(dir_ino, &kept)
    }

    // ---- paths -------------------------------------------------------------

    /// Resolve a list of path components, starting at the root.
    fn walk(&self, comps: &Vec<Vec<u8>>, upto: usize) -> (r: Result<u32, FsError>)
        requires
            upto <= comps@.len(),
        ensures
            answered(
                *self,
                r,
                self.volume().walk(ROOT_INODE, byte_views(comps@).subrange(0, upto as int)),
            ),
    {
        let ghost all = byte_views(comps@).subrange(0, upto as int);
        let mut ino: u32 = ROOT_INODE;
        let mut i: usize = 0;
        assert(all.subrange(0, all.len() as int) =~= all);
        while i < upto
            invariant
                i <= upto,
                upto <= comps@.len(),
                all == byte_views(comps@).subrange(0, upto as int),
                self.volume().walk(ROOT_INODE, all) == self.volume().walk(
                    ino,
                    all.subrange(i as int, all.len() as int),
                ),
            decreases upto - i,
        {
            proof {
                let rest = all.subrange(i as int, all.len() as int);
                assert(rest[0] == comps@[i as int]@);
                assert(rest.drop_first() =~= all.subrange(i + 1, all.len() as int));
            }
            match self.dir_lookup(ino, comps[i].as_slice()) {
                Err(e) => return Err(e),
                Ok(next) => {
                    ino = next;
                },
            }
            i = i + 1;
        }
        Ok(ino)
    }

    /// Resolve a path to its inode number.
    fn resolve(&self, path: &[u8]) -> (r: Result<u32, FsError>)
        ensures
            answered(*self, r, self.volume().resolve(path@)),
    {
        let comps: Vec<Vec<u8>> = split_path(path);
        proof {
            let all = byte_views(comps@);
            assert(all.subrange(0, all.len() as int) =~= all);
        }
        self.walk(&comps, comps.len())
    }

    /// Resolve the parent directory of `path` and return it with the last name.
    fn resolve_parent(&self, path: &[u8]) -> (r: Result<(u32, Vec<u8>), FsError>)
        ensures
            answered(
                *self,
                match r {
                    Ok((parent, name)) => Ok((parent, name@)),
                    Err(e) => Err(e),
                },
                self.volume().resolve_parent(path@),
            ),
    {
        let mut comps: Vec<Vec<u8>> = split_path(path);
        let ghost all = byte_views(comps@);
        let n: usize = comps.len();
        if n == 0 {
            return Err(FsError::NotFound);
        }
        assert(all.drop_last() =~= all.subrange(0, n - 1));
        match self.walk(&comps, n - 1) {
            Err(e) => Err(e),
            Ok(parent) => {
                let last: Vec<u8> = comps.remove(n - 1);
                Ok((parent, last))
            },
        }
    }

    /// Create an empty inode of `kind` called `name` in directory `parent`.
    fn create(&mut self, parent: u32, name: &[u8], kind: u32) -> (r: Result<u32, FsError>)
        ensures
            performed(*old(self), *final(self), r, old(self).volume().create(parent, name@, kind)),
    {
        let ino: u32 = match self.alloc_inode() {
            Ok(ino) => ino,
            Err(e) => return Err(e),
        };
        let node: Inode = Inode::empty(kind);
        match self.write_inode(ino, &node) {
            Err(e) => return Err(e),
            Ok(()) => {},
        }
        match self.dir_add(parent, ino, name) {
            Err(e) => Err(e),
            Ok(()) => Ok(ino),
        }
    }

    /// Replace the contents of the file with inode `ino`.
    fn overwrite(&mut self, ino: u32, data: &[u8]) -> (r: Result<u32, FsError>)
        ensures
            performed(*old(self), *final(self), r, old(self).volume().overwrite(ino, data@)),
    {
        let node: Inode = match self.read_inode(ino) {
            Ok(n) => n,
            Err(e) => return Err(e),
        };
        if node.kind != KIND_FILE {
            return Err(FsError::WrongKind);
        }
        match self.write_inode_data(ino, &node, data) {
            Err(e) => Err(e),
            Ok(()) => Ok(ino),
        }
    }

    // ---- operations --------------------------------------------------------

    /// Format `dev` as a fresh CIBOSFS volume with `inode_count` inodes, then
    /// return it mounted. Lays out superblock, bitmap, inode table, and data
    /// region, and creates an empty root directory at [`ROOT_INODE`].
    pub fn format(dev: D, inode_count: u32) -> (r: Result<Fs<D>, FsError>)
        ensures
            match r {
                Ok(fs) => {
                    &&& layout(dev.blocks().len() as int, inode_count) == Some(fs.volume().sb)
                    &&& fs.device().sound() == dev.sound()
                    &&& !fs.device().write_protected()
                    &&& inode_count > 0
                    &&& (Volume {
                        blocks: cleared(dev.blocks(), fs.volume().sb),
                        sb: fs.volume().sb,
                        locked: false,
                    }).with_inode(ROOT_INODE, empty_node(KIND_DIR)) == (
                        fs.volume(),
                        Ok::<(), FsError>(()),
                    )
                },
                Err(e) => {
                    ||| e is NoSpace && layout(dev.blocks().len() as int, inode_count) is None
                    ||| e is NotFound && inode_count == 0 && layout(
                        dev.blocks().len() as int,
                        inode_count,
                    ) is Some && !dev.write_protected()
                    ||| e == FsError::Block(BlockError::ReadOnly) && layout(
                        dev.blocks().len() as int,
                        inode_count,
                    ) is Some && dev.write_protected()
                    ||| device_failed(r) && layout(dev.blocks().len() as int, inode_count) is Some
                        && !dev.sound() && !dev.write_protected()
                },
            },
    {
        let ghost start = dev;
        let total: u64 = dev.block_count();
        let bitmap_start: u64 = 1;
        let inode_blocks: u64 = (inode_count as u64 + 7) / 8;
        // One bit per data block: solve for the bitmap size iteratively.
        let mut bitmap_blocks: u64 = 1;
        let ghost settled = (total - 2 - inode_blocks + 4095) / 4096;
        loop
            invariant
                start == dev,
                total == dev.blocks().len(),
                inode_blocks == (inode_count + 7) / 8,
                inode_blocks <= 0x2000_0000,
                settled == (total - 2 - inode_blocks + 4095) / 4096,
                bitmap_blocks == 1 || (bitmap_blocks == settled && total > 2 + inode_blocks),
            ensures
                total > 2 + inode_blocks,
                bitmap_blocks == settled,
            decreases settled - bitmap_blocks,
        {
            let overhead: u64 = 1 + bitmap_blocks + inode_blocks;
            if overhead >= total {
                return Err(FsError::NoSpace);
            }
            let data_blocks: u64 = total - overhead;
            let needed: u64 = data_blocks / 4096 + if data_blocks % 4096 == 0 {
                0
            } else {
                1
            };
            if needed <= bitmap_blocks {
                break ;
            }
            bitmap_blocks = needed;
        }
        let inode_start: u64 = bitmap_start + bitmap_blocks;
        let data_start: u64 = inode_start + inode_blocks;
        let data_blocks: u64 = total - data_start;
        let sb = Superblock {
            total_blocks: total,
            bitmap_start,
            bitmap_blocks,
            inode_start,
            inode_count,
            data_start,
            data_blocks,
        };
        let mut fs = Fs { dev, sb };
        // Clear the bitmap and the inode table.
        let zero: Vec<u8> = vec![0u8;BLOCK_SIZE];
        assert(zero@ =~= zeros(512));
        let mut b: u64 = 1;
        while b < data_start
            invariant
                1 <= b <= data_start,
                data_start < total,
                zero@ == zeros(512),
                fs.volume().sb == sb,
                fs.volume().blocks.len() == total,
                layout(total as int, inode_count) == Some(sb),
                start.blocks().len() == total,
                fs.device().sound() == start.sound(),
                fs.device().write_protected() == start.write_protected(),
                start == dev,
                start.write_protected() ==> b == 1,
                forall|i: int|
                    0 <= i < total ==> #[trigger] fs.volume().blocks[i] == if 1 <= i < b {
                        zeros(512)
                    } else {
                        start.blocks()[i]
                    },
            decreases data_start - b,
        {
            match fs.store(b, 0, &zero) {
                Err(e) => return Err(e),
                Ok(()) => {},
            }
            b = b + 1;
        }
        // Write the superblock.
        let mut sbbuf: Vec<u8> = vec![0u8;BLOCK_SIZE];
        assert(sbbuf@ =~= zeros(512));
        sb.write_to(&mut sbbuf);
        match fs.store(0, 0, &sbbuf) {
            Err(e) => return Err(e),
            Ok(()) => {},
        }
        assert(fs.volume().blocks =~= cleared(start.blocks(), sb));
        // Create the root directory inode (empty).
        let root: Inode = Inode::empty(KIND_DIR);
        match fs.write_inode(ROOT_INODE, &root) {
            Err(e) => Err(e),
            Ok(()) => Ok(fs),
        }
    }

    /// Mount an existing CIBOSFS volume on `dev`.
    pub fn mount(dev: D) -> (r: Result<Fs<D>, FsError>)
        ensures
            match r {
                Ok(fs) => {
                    &&& fs.device() == dev
                    &&& dev.blocks().len() > 0
                    &&& superblock_of(dev.blocks()[0]) == Ok::<Superblock, FsError>(fs.volume().sb)
                    &&& fs.volume().blocks == dev.blocks()
                    &&& fs.volume().locked == dev.write_protected()
                },
                Err(e) => {
                    ||| dev.blocks().len() == 0 && e == FsError::Block(BlockError::OutOfRange)
                    ||| dev.blocks().len() > 0 && superblock_of(dev.blocks()[0]) == Err::<
                        Superblock,
                        FsError,
                    >(e)
                    ||| device_failed(r) && !dev.sound()
                },
            },
    {
        let mut buf: Vec<u8> = vec![0u8;BLOCK_SIZE];
        match dev.read_blocks(0, 1, buf.as_mut_slice()) {
            Err(e) => Err(FsError::Block(e)),
            Ok(()) => {
                assert(buffer_block(buf@, 0) =~= buf@);
                match Superblock::read_from(buf.as_slice()) {
                    Err(e) => Err(e),
                    Ok(sb) => Ok(Fs { dev, sb }),
                }
            },
        }
    }

    /// The superblock.
    pub fn superblock(&self) -> (sb: &Superblock)
        ensures
            *sb == self.volume().sb,
    {
        &self.sb
    }

    /// Consume the filesystem and return the underlying device.
    pub fn into_device(self) -> (dev: D)
        ensures
            dev == self.device(),
            dev.blocks() == self.volume().blocks,
    {
        self.dev
    }

    /// Create a directory at `path` (parent must exist). A hardware fault while
    /// the name is looked up counts as the name being free: the directory is then
    /// created though the name may be taken.
    pub fn mkdir(&mut self, path: &[u8]) -> (r: Result<u32, FsError>)
        ensures
            ({
                ||| performed(*old(self), *final(self), r, old(self).volume().mkdir(path@))
                ||| {
                    &&& !old(self).device().sound()
                    &&& old(self).volume().resolve_parent(path@) matches Ok((parent, name))
                        && old(self).volume().lookup(parent, name) is Ok && performed(
                        *old(self),
                        *final(self),
                        r,
                        old(self).volume().create(parent, name, KIND_DIR),
                    )
                }
            }),
    {
        let (parent, name) = match self.resolve_parent(path) {
            Ok(p) => p,
            Err(e) => return Err(e),
        };
        if self.dir_lookup(parent, name.as_slice()).is_ok() {
            return Err(FsError::Exists);
        }
        self.create(parent, name.as_slice(), KIND_DIR)
    }

    /// Create (or truncate) a file at `path` and write `data` to it.
    pub fn write_file(&mut self, path: &[u8], data: &[u8]) -> (r: Result<u32, FsError>)
        ensures
            performed(*old(self), *final(self), r, old(self).volume().write_file(path@, data@)),
    {
        let (parent, name) = match self.resolve_parent(path) {
            Ok(p) => p,
            Err(e) => return Err(e),
        };
        let ino: u32 = match self.dir_lookup(parent, name.as_slice()) {
            Ok(existing) => existing,
            Err(FsError::NotFound) => match self.create(parent, name.as_slice(), KIND_FILE) {
                Ok(ino) => ino,
                Err(e) => return Err(e),
            },
            Err(e) => return Err(e),
        };
        self.overwrite(ino, data)
    }

    /// Read the entire contents of the file at `path`.
    pub fn read_file(&self, path: &[u8]) -> (r: Result<Vec<u8>, FsError>)
        ensures
            answered(
                *self,
                match r {
                    Ok(b) => Ok(b@),
                    Err(e) => Err(e),
                },
                self.volume().read_file(path@),
            ),
    {
        let ino: u32 = match self.resolve(path) {
            Ok(ino) => ino,
            Err(e) => return Err(e),
        };
        let node: Inode = match self.read_inode(ino) {
            Ok(n) => n,
            Err(e) => return Err(e),
        };
        if node.kind != KIND_FILE {
            return Err(FsError::WrongKind);
        }
        self.read_inode_data(&node)
    }

    /// List the entries of the directory at `path`.
    pub fn list_dir(&self, path: &[u8]) -> (r: Result<Vec<DirEntry>, FsError>)
        ensures
            answered(
                *self,
                match r {
                    Ok(es) => Ok(entry_views(es@)),
                    Err(e) => Err(e),
                },
                self.volume().list_dir(path@),
            ),
    {
        let ino: u32 = match self.resolve(path) {
            Ok(ino) => ino,
            Err(e) => return Err(e),
        };
        self.read_dir_entries(ino)
    }

    /// Whether `path` exists. A hardware fault counts as absence.
    pub fn path_exists(&self, path: &[u8]) -> (r: bool)
        ensures
            r ==> self.volume().resolve(path@) is Ok,
            self.device().sound() ==> r == self.volume().resolve(path@) is Ok,
    {
        self.resolve(path).is_ok()
    }

    /// Remove the file at `path`: free its data blocks, free its inode, and
    /// remove its directory entry. Only regular files are removed here;
    /// attempting to remove a directory, the root among them, returns
    /// [`FsError::WrongKind`].
    pub fn remove_file(&mut self, path: &[u8]) -> (r: Result<(), FsError>)
        ensures
            performed(*old(self), *final(self), r, old(self).volume().remove_file(path@)),
    {
        if split_path(path).len() == 0 {
            return Err(FsError::WrongKind);
        }
        let (parent, name) = match self.resolve_parent(path) {
            Ok(p) => p,
            Err(e) => return Err(e),
        };
        let ino: u32 = match self.dir_lookup(parent, name.as_slice()) {
            Ok(ino) => ino,
            Err(e) => return Err(e),
        };
        let node: Inode = match self.read_inode(ino) {
            Ok(n) => n,
            Err(e) => return Err(e),
        };
        if node.kind != KIND_FILE {
            return Err(FsError::WrongKind);
        }
        let ghost start = self.volume();
        let used: u64 = node.blocks_used();
        let mut k: usize = 0;
        while k < DIRECT_BLOCKS && (k as u64) < used
            invariant
                k <= 6,
                used == blocks_for(node.size as int),
                same_mount(*old(self), *self),
                start.free_data(node@, 0) == self.volume().free_data(node@, k as int),
                start.free_data(node@, 0).1 is Err ==> old(self).volume().remove_file(path@)
                    == start.free_data(node@, 0),
            decreases 6 - k,
        {
            let blk: u64 = node.direct[k];
            if blk != 0 {
                match self.free_block(blk) {
                    Err(e) => return Err(e),
                    Ok(()) => {},
                }
            }
            k = k + 1;
        }
        // Free the inode, then unlink it from its parent directory.
        let free: Inode = Inode::empty(KIND_FREE);
        match self.write_inode(ino, &free) {
            Err(e) => return Err(e),
            Ok(()) => {},
        }
        self.dir_remove(parent, name.as_slice())
    }
}

} // verus!

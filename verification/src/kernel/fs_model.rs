//! The mathematical model of a volume: what each filesystem operation returns
//! and leaves on the device, as a function of what the device held.
use vstd::prelude::*;
use crate::kernel::block::BlockError;
use crate::kernel::bytes::{half_le, splice, word_le, zeros};
use crate::kernel::fs_format::{
    blocks_for, empty_node, inode_layout, node_bytes, node_of, slot_bytes, slot_ino, slot_name,
    slot_used,
    superblock_bytes, FsError, Node, Superblock, KIND_DIR, KIND_FILE, KIND_FREE, ROOT_INODE,
};

verus! {

/// The blocks of a volume, the superblock it was mounted with, and whether its
/// device refuses writes.
pub ghost struct Volume {
    pub blocks: Seq<Seq<u8>>,
    pub sb: Superblock,
    pub locked: bool,
}

/// A directory entry: the inode it names, whether that is a directory, the name.
pub ghost struct Entry {
    pub ino: u32,
    pub is_dir: bool,
    pub name: Seq<u8>,
}

/// Put `head` in front of a result.
pub open spec fn prepend<T>(head: Seq<T>, r: Result<Seq<T>, FsError>) -> Result<Seq<T>, FsError> {
    match r {
        Ok(rest) => Ok(head + rest),
        Err(e) => Err(e),
    }
}

/// Bit `k` of a byte.
pub open spec fn bit_of(x: u8, k: int) -> bool {
    x & (1u8 << (k as u8)) != 0
}

/// A byte with bit `k` set to `value`.
pub open spec fn with_bit_of(x: u8, k: int, value: bool) -> u8 {
    if value {
        x | (1u8 << (k as u8))
    } else {
        x & !(1u8 << (k as u8))
    }
}

/// The `i`-th block of `data`, zero-padded.
pub open spec fn padded_block(data: Seq<u8>, i: int) -> Seq<u8> {
    Seq::new(
        512,
        |j: int|
            if 512 * i + j < data.len() {
                data[512 * i + j]
            } else {
                0u8
            },
    )
}

/// The inode numbers and names of directory entries.
pub open spec fn links(es: Seq<Entry>) -> Seq<(u32, Seq<u8>)> {
    Seq::new(es.len(), |i: int| (es[i].ino, es[i].name))
}

/// The contents of a directory that holds `es`.
pub open spec fn dir_bytes(es: Seq<(u32, Seq<u8>)>) -> Seq<u8>
    decreases es.len(),
{
    if es.len() == 0 {
        Seq::empty()
    } else {
        dir_bytes(es.drop_last()) + slot_bytes(es.last().0, es.last().1)
    }
}

/// The inode that the first entry called `name` names.
pub open spec fn find(es: Seq<Entry>, name: Seq<u8>) -> Option<u32>
    decreases es.len(),
{
    if es.len() == 0 {
        None
    } else if es[0].name == name {
        Some(es[0].ino)
    } else {
        find(es.drop_first(), name)
    }
}

/// Appending an entry changes what is found only if nothing was.
pub proof fn lemma_find_push(es: Seq<Entry>, e: Entry, name: Seq<u8>)
    ensures
        find(es.push(e), name) == if find(es, name) is Some {
            find(es, name)
        } else if e.name == name {
            Some(e.ino)
        } else {
            None
        },
    decreases es.len(),
{
    let all = es.push(e);
    if es.len() == 0 {
        assert(all.drop_first() =~= Seq::<Entry>::empty());
    } else {
        assert(all[0] == es[0]);
        assert(all.drop_first() =~= es.drop_first().push(e));
        lemma_find_push(es.drop_first(), e, name);
    }
}

/// The entries not called `name`, in order.
pub open spec fn without(es: Seq<Entry>, name: Seq<u8>) -> Seq<Entry>
    decreases es.len(),
{
    if es.len() == 0 {
        Seq::empty()
    } else if es.last().name == name {
        without(es.drop_last(), name)
    } else {
        without(es.drop_last(), name).push(es.last())
    }
}

/// How many bytes stand before the first `/`.
pub open spec fn word_len(path: Seq<u8>) -> nat
    decreases path.len(),
{
    if path.len() == 0 || path[0] == 0x2f {
        0
    } else {
        1 + word_len(path.drop_first())
    }
}

/// The non-empty parts of a `/`-separated path.
pub open spec fn components(path: Seq<u8>) -> Seq<Seq<u8>>
    decreases path.len(),
{
    if path.len() == 0 {
        Seq::empty()
    } else if path[0] == 0x2f {
        components(path.drop_first())
    } else {
        let n = word_len(path) as int;
        if 0 < n <= path.len() {
            seq![path.subrange(0, n)] + components(path.subrange(n, path.len() as int))
        } else {
            Seq::empty()
        }
    }
}

/// How a device of `total` blocks is divided for `inode_count` inodes. The bitmap
/// has a bit for every block that one bitmap block would leave for data.
pub open spec fn layout(total: int, inode_count: u32) -> Option<Superblock> {
    let inode_blocks = (inode_count + 7) / 8;
    if total <= 2 + inode_blocks {
        None
    } else {
        let bitmap_blocks = (total - 2 - inode_blocks + 4095) / 4096;
        Some(
            Superblock {
                total_blocks: total as u64,
                bitmap_start: 1,
                bitmap_blocks: bitmap_blocks as u64,
                inode_start: (1 + bitmap_blocks) as u64,
                inode_count,
                data_start: (1 + bitmap_blocks + inode_blocks) as u64,
                data_blocks: (total - 1 - bitmap_blocks - inode_blocks) as u64,
            },
        )
    }
}

/// The blocks of a device right after the bitmap and inode table were cleared and
/// the superblock written.
pub open spec fn cleared(blocks: Seq<Seq<u8>>, sb: Superblock) -> Seq<Seq<u8>> {
    Seq::new(
        blocks.len(),
        |b: int|
            if b == 0 {
                splice(zeros(512), 0, superblock_bytes(sb))
            } else if b < sb.data_start {
                zeros(512)
            } else {
                blocks[b]
            },
    )
}

impl Volume {
    /// What reading block `lba` gives.
    pub open spec fn fetch(self, lba: int) -> Result<Seq<u8>, FsError> {
        if lba > u64::MAX {
            Err(FsError::Corrupt)
        } else if lba >= self.blocks.len() {
            Err(FsError::Block(BlockError::OutOfRange))
        } else {
            Ok(self.blocks[lba])
        }
    }

    /// What writing block `lba` does.
    pub open spec fn store(self, lba: int, b: Seq<u8>) -> (Volume, Result<(), FsError>) {
        match self.fetch(lba) {
            Err(e) => (self, Err(e)),
            Ok(_) => if self.locked {
                (self, Err(FsError::Block(BlockError::ReadOnly)))
            } else {
                (Volume { blocks: self.blocks.update(lba, b), ..self }, Ok(()))
            },
        }
    }

    /// Inode `ino`.
    pub open spec fn inode(self, ino: u32) -> Result<Node, FsError> {
        if ino >= self.sb.inode_count {
            Err(FsError::NotFound)
        } else {
            match self.fetch(self.sb.inode_start + ino / 8) {
                Err(e) => Err(e),
                Ok(b) => Ok(node_of(b.subrange(64 * (ino as int % 8), 64 * (ino as int % 8) + 64))),
            }
        }
    }

    /// The volume with inode `ino` replaced.
    pub open spec fn with_inode(self, ino: u32, node: Node) -> (Volume, Result<(), FsError>) {
        if ino >= self.sb.inode_count {
            (self, Err(FsError::NotFound))
        } else {
            match self.fetch(self.sb.inode_start + ino / 8) {
                Err(e) => (self, Err(e)),
                Ok(b) => self.store(
                    self.sb.inode_start + ino / 8,
                    splice(b, 64 * (ino as int % 8), node_bytes(node)),
                ),
            }
        }
    }

    /// The first free inode from `from` on.
    pub open spec fn free_inode_from(self, from: int) -> Result<u32, FsError>
        decreases self.sb.inode_count - from,
    {
        if from >= self.sb.inode_count {
            Err(FsError::NoSpace)
        } else {
            match self.inode(from as u32) {
                Err(e) => Err(e),
                Ok(n) => if n.kind == KIND_FREE {
                    Ok(from as u32)
                } else {
                    self.free_inode_from(from + 1)
                },
            }
        }
    }

    /// Whether data block `i` is taken.
    pub open spec fn bit(self, i: int) -> Result<bool, FsError> {
        match self.fetch(self.sb.bitmap_start + i / 4096) {
            Err(e) => Err(e),
            Ok(b) => Ok(bit_of(b[(i / 8) % 512], i % 8)),
        }
    }

    /// The volume with data block `i` marked as taken or free.
    pub open spec fn with_bit(self, i: int, value: bool) -> (Volume, Result<(), FsError>) {
        match self.fetch(self.sb.bitmap_start + i / 4096) {
            Err(e) => (self, Err(e)),
            Ok(b) => self.store(
                self.sb.bitmap_start + i / 4096,
                b.update((i / 8) % 512, with_bit_of(b[(i / 8) % 512], i % 8, value)),
            ),
        }
    }

    /// Take the first free data block from `i` on.
    pub open spec fn alloc_block_from(self, i: int) -> (Volume, Result<u64, FsError>)
        decreases self.sb.data_blocks - i,
    {
        if i >= self.sb.data_blocks {
            (self, Err(FsError::NoSpace))
        } else {
            match self.bit(i) {
                Err(e) => (self, Err(e)),
                Ok(true) => self.alloc_block_from(i + 1),
                Ok(false) => {
                    let (v, r) = self.with_bit(i, true);
                    match r {
                        Err(e) => (v, Err(e)),
                        Ok(_) => if self.sb.data_start + i > u64::MAX {
                            (v, Err(FsError::Corrupt))
                        } else {
                            (v, Ok((self.sb.data_start + i) as u64))
                        },
                    }
                },
            }
        }
    }

    /// Give data block `lba` back.
    pub open spec fn free_block(self, lba: u64) -> (Volume, Result<(), FsError>) {
        if lba < self.sb.data_start {
            (self, Err(FsError::Corrupt))
        } else {
            self.with_bit(lba - self.sb.data_start, false)
        }
    }

    /// The contents of `node` from its `k`-th block on.
    pub open spec fn data_from(self, node: Node, k: int) -> Result<Seq<u8>, FsError>
        decreases 6 - k,
    {
        if k >= blocks_for(node.size as int) || k >= 6 {
            Ok(Seq::empty())
        } else {
            match self.fetch(node.direct[k] as int) {
                Err(e) => Err(e),
                Ok(b) => prepend(
                    b.subrange(
                        0,
                        if node.size - 512 * k < 512 {
                            node.size - 512 * k
                        } else {
                            512
                        },
                    ),
                    self.data_from(node, k + 1),
                ),
            }
        }
    }

    /// Take blocks for the pointers `from..to` of `node`.
    pub open spec fn grow(self, node: Node, from: int, to: int) -> (
        Volume,
        Node,
        Result<(), FsError>,
    )
        decreases to - from,
    {
        if from >= to {
            (self, node, Ok(()))
        } else {
            let (v, r) = self.alloc_block_from(0);
            match r {
                Err(e) => (v, node, Err(e)),
                Ok(lba) => v.grow(
                    Node { direct: node.direct.update(from, lba), ..node },
                    from + 1,
                    to,
                ),
            }
        }
    }

    /// Give back the blocks of the pointers `from..to` of `node`.
    pub open spec fn shrink(self, node: Node, from: int, to: int) -> (
        Volume,
        Node,
        Result<(), FsError>,
    )
        decreases to - from,
    {
        if from >= to {
            (self, node, Ok(()))
        } else if node.direct[from] == 0 {
            self.shrink(node, from + 1, to)
        } else {
            let (v, r) = self.free_block(node.direct[from]);
            match r {
                Err(e) => (v, node, Err(e)),
                Ok(_) => v.shrink(
                    Node { direct: node.direct.update(from, 0), ..node },
                    from + 1,
                    to,
                ),
            }
        }
    }

    /// Write the blocks of `data` from the `i`-th on to the blocks of `node`.
    pub open spec fn put_data(self, node: Node, data: Seq<u8>, i: int) -> (
        Volume,
        Result<(), FsError>,
    )
        decreases blocks_for(data.len() as int) - i,
    {
        if i >= blocks_for(data.len() as int) {
            (self, Ok(()))
        } else {
            let (v, r) = self.store(node.direct[i] as int, padded_block(data, i));
            match r {
                Err(e) => (v, Err(e)),
                Ok(_) => v.put_data(node, data, i + 1),
            }
        }
    }

    /// Replace the contents of inode `ino`, which holds `node`, by `data`.
    pub open spec fn write_data(self, ino: u32, node: Node, data: Seq<u8>) -> (
        Volume,
        Result<(), FsError>,
    ) {
        let old_blocks = blocks_for(node.size as int);
        let new_blocks = blocks_for(data.len() as int);
        if data.len() > 3072 {
            (self, Err(FsError::TooLarge))
        } else if old_blocks > 6 {
            (self, Err(FsError::Corrupt))
        } else {
            let (v1, n1, r1) = self.grow(node, old_blocks, new_blocks);
            if r1 is Err {
                (v1, r1)
            } else {
                let (v2, n2, r2) = v1.shrink(n1, new_blocks, old_blocks);
                if r2 is Err {
                    (v2, r2)
                } else {
                    let (v3, r3) = v2.put_data(n2, data, 0);
                    if r3 is Err {
                        (v3, r3)
                    } else {
                        v3.with_inode(ino, Node { size: data.len() as u64, ..n2 })
                    }
                }
            }
        }
    }

    /// The entries in the directory contents `data` from byte `off` on.
    pub open spec fn entries_from(self, data: Seq<u8>, off: int) -> Result<Seq<Entry>, FsError>
        decreases data.len() - off,
    {
        if off + 32 > data.len() {
            Ok(Seq::empty())
        } else {
            let s = data.subrange(off, off + 32);
            if slot_used(s) {
                match self.inode(slot_ino(s)) {
                    Err(e) => Err(e),
                    Ok(child) => prepend(
                        seq![
                            Entry {
                                ino: slot_ino(s),
                                is_dir: child.kind == KIND_DIR,
                                name: slot_name(s),
                            },
                        ],
                        self.entries_from(data, off + 32),
                    ),
                }
            } else {
                self.entries_from(data, off + 32)
            }
        }
    }

    /// The entries of directory `dir`.
    pub open spec fn dir_entries(self, dir: u32) -> Result<Seq<Entry>, FsError> {
        match self.inode(dir) {
            Err(e) => Err(e),
            Ok(node) => if node.kind != KIND_DIR {
                Err(FsError::WrongKind)
            } else {
                match self.data_from(node, 0) {
                    Err(e) => Err(e),
                    Ok(data) => self.entries_from(data, 0),
                }
            },
        }
    }

    /// Make `es` the entries of directory `dir`.
    pub open spec fn with_links(self, dir: u32, es: Seq<(u32, Seq<u8>)>) -> (
        Volume,
        Result<(), FsError>,
    ) {
        match self.inode(dir) {
            Err(e) => (self, Err(e)),
            Ok(node) => self.write_data(dir, node, dir_bytes(es)),
        }
    }

    /// Add the entry `name` for `ino` to directory `dir`.
    pub open spec fn dir_add(self, dir: u32, ino: u32, name: Seq<u8>) -> (
        Volume,
        Result<(), FsError>,
    ) {
        if name.len() > 23 {
            (self, Err(FsError::TooLarge))
        } else {
            match self.dir_entries(dir) {
                Err(e) => (self, Err(e)),
                Ok(es) => self.with_links(dir, links(es).push((ino, name))),
            }
        }
    }

    /// The inode that `name` names in directory `dir`.
    pub open spec fn lookup(self, dir: u32, name: Seq<u8>) -> Result<u32, FsError> {
        match self.dir_entries(dir) {
            Err(e) => Err(e),
            Ok(es) => match find(es, name) {
                Some(ino) => Ok(ino),
                None => Err(FsError::NotFound),
            },
        }
    }

    /// Take the entries called `name` out of directory `dir`.
    pub open spec fn dir_remove(self, dir: u32, name: Seq<u8>) -> (Volume, Result<(), FsError>) {
        match self.dir_entries(dir) {
            Err(e) => (self, Err(e)),
            Ok(es) => if find(es, name) is None {
                (self, Err(FsError::NotFound))
            } else {
                self.with_links(dir, links(without(es, name)))
            },
        }
    }

    /// The inode reached from directory `ino` along `comps`.
    pub open spec fn walk(self, ino: u32, comps: Seq<Seq<u8>>) -> Result<u32, FsError>
        decreases comps.len(),
    {
        if comps.len() == 0 {
            Ok(ino)
        } else {
            match self.lookup(ino, comps[0]) {
                Err(e) => Err(e),
                Ok(next) => self.walk(next, comps.drop_first()),
            }
        }
    }

    /// The inode that `path` names.
    pub open spec fn resolve(self, path: Seq<u8>) -> Result<u32, FsError> {
        self.walk(ROOT_INODE, components(path))
    }

    /// The directory that should hold the last part of `path`, and that part.
    pub open spec fn resolve_parent(self, path: Seq<u8>) -> Result<(u32, Seq<u8>), FsError> {
        let comps = components(path);
        if comps.len() == 0 {
            Err(FsError::NotFound)
        } else {
            match self.walk(ROOT_INODE, comps.drop_last()) {
                Err(e) => Err(e),
                Ok(parent) => Ok((parent, comps.last())),
            }
        }
    }

    /// Create an empty inode of `kind` called `name` in directory `parent`.
    pub open spec fn create(self, parent: u32, name: Seq<u8>, kind: u32) -> (
        Volume,
        Result<u32, FsError>,
    ) {
        match self.free_inode_from(1) {
            Err(e) => (self, Err(e)),
            Ok(ino) => {
                let (v1, r1) = self.with_inode(ino, empty_node(kind));
                match r1 {
                    Err(e) => (v1, Err(e)),
                    Ok(_) => {
                        let (v2, r2) = v1.dir_add(parent, ino, name);
                        match r2 {
                            Err(e) => (v2, Err(e)),
                            Ok(_) => (v2, Ok(ino)),
                        }
                    },
                }
            },
        }
    }

    /// Create a directory.
    pub open spec fn mkdir(self, path: Seq<u8>) -> (Volume, Result<u32, FsError>) {
        match self.resolve_parent(path) {
            Err(e) => (self, Err(e)),
            Ok((parent, name)) => if self.lookup(parent, name) is Ok {
                (self, Err(FsError::Exists))
            } else {
                self.create(parent, name, KIND_DIR)
            },
        }
    }

    /// Replace the contents of the file with inode `ino`.
    pub open spec fn overwrite(self, ino: u32, data: Seq<u8>) -> (Volume, Result<u32, FsError>) {
        match self.inode(ino) {
            Err(e) => (self, Err(e)),
            Ok(node) => if node.kind != KIND_FILE {
                (self, Err(FsError::WrongKind))
            } else {
                let (v, r) = self.write_data(ino, node, data);
                match r {
                    Err(e) => (v, Err(e)),
                    Ok(_) => (v, Ok(ino)),
                }
            },
        }
    }

    /// Write `data` to the file at `path`, creating it if it is not there.
    pub open spec fn write_file(self, path: Seq<u8>, data: Seq<u8>) -> (
        Volume,
        Result<u32, FsError>,
    ) {
        match self.resolve_parent(path) {
            Err(e) => (self, Err(e)),
            Ok((parent, name)) => match self.lookup(parent, name) {
                Ok(ino) => self.overwrite(ino, data),
                Err(FsError::NotFound) => {
                    let (v, r) = self.create(parent, name, KIND_FILE);
                    match r {
                        Err(e) => (v, Err(e)),
                        Ok(ino) => v.overwrite(ino, data),
                    }
                },
                Err(e) => (self, Err(e)),
            },
        }
    }

    /// The contents of the file at `path`.
    pub open spec fn read_file(self, path: Seq<u8>) -> Result<Seq<u8>, FsError> {
        match self.resolve(path) {
            Err(e) => Err(e),
            Ok(ino) => match self.inode(ino) {
                Err(e) => Err(e),
                Ok(node) => if node.kind != KIND_FILE {
                    Err(FsError::WrongKind)
                } else {
                    self.data_from(node, 0)
                },
            },
        }
    }

    /// The entries of the directory at `path`.
    pub open spec fn list_dir(self, path: Seq<u8>) -> Result<Seq<Entry>, FsError> {
        match self.resolve(path) {
            Err(e) => Err(e),
            Ok(ino) => self.dir_entries(ino),
        }
    }

    /// Give back the blocks of `node` from its `k`-th on.
    pub open spec fn free_data(self, node: Node, k: int) -> (Volume, Result<(), FsError>)
        decreases 6 - k,
    {
        if k >= blocks_for(node.size as int) || k >= 6 {
            (self, Ok(()))
        } else if node.direct[k] == 0 {
            self.free_data(node, k + 1)
        } else {
            let (v, r) = self.free_block(node.direct[k]);
            match r {
                Err(e) => (v, Err(e)),
                Ok(_) => v.free_data(node, k + 1),
            }
        }
    }

    /// Remove the file with inode `ino`, called `name` in directory `parent`.
    pub open spec fn unlink(self, parent: u32, name: Seq<u8>, ino: u32) -> (
        Volume,
        Result<(), FsError>,
    ) {
        match self.inode(ino) {
            Err(e) => (self, Err(e)),
            Ok(node) => if node.kind != KIND_FILE {
                (self, Err(FsError::WrongKind))
            } else {
                let (v1, r1) = self.free_data(node, 0);
                if r1 is Err {
                    (v1, r1)
                } else {
                    let (v2, r2) = v1.with_inode(ino, empty_node(KIND_FREE));
                    if r2 is Err {
                        (v2, r2)
                    } else {
                        v2.dir_remove(parent, name)
                    }
                }
            },
        }
    }

    /// Remove the file at `path`. The root is a directory, and not removed.
    pub open spec fn remove_file(self, path: Seq<u8>) -> (Volume, Result<(), FsError>) {
        if components(path).len() == 0 {
            (self, Err(FsError::WrongKind))
        } else {
            match self.resolve_parent(path) {
                Err(e) => (self, Err(e)),
                Ok((parent, name)) => match self.lookup(parent, name) {
                    Err(e) => (self, Err(e)),
                    Ok(ino) => self.unlink(parent, name, ino),
                },
            }
        }
    }
}

/// How a device is divided. The superblock, the bitmap, the inodes and the data follow one
/// another and fill it; the bitmap has a bit for every data block, the table a record of an
/// eighth of a block for every inode and no block more than that takes. A device is not
/// divided exactly where no block would be left for data.
pub proof fn layout_fills_the_device(total: u64, inode_count: u32)
    ensures
        layout(total as int, inode_count) is None <==> total <= 2 + (inode_count + 7) / 8,
        layout(total as int, inode_count) matches Some(sb) ==> {
            &&& sb.total_blocks == total
            &&& sb.inode_count == inode_count
            &&& sb.bitmap_start == 1
            &&& sb.inode_start == sb.bitmap_start + sb.bitmap_blocks
            &&& (sb.data_start - sb.inode_start) * 8 >= inode_count
            &&& (sb.data_start - sb.inode_start) * 8 < inode_count + 8
            &&& sb.data_start + sb.data_blocks == total
            &&& sb.data_blocks >= 1
            &&& sb.bitmap_blocks * 4096 >= sb.data_blocks
            &&& sb.bitmap_blocks >= 1
            &&& (sb.bitmap_blocks - 1) * 4096 < total
        },
{
}

/// Where the records of a volume are found: inode `ino` in the block of the table that holds
/// eight at a time; the bit of data block `i` in the bitmap block that holds 4096 at a time,
/// the bit of the least value of a byte first.
pub proof fn records_are_found_in_place(v: Volume, ino: u32, i: int)
    requires
        ino < v.sb.inode_count,
        v.sb.inode_start + ino / 8 < v.blocks.len() <= u64::MAX,
        v.blocks[v.sb.inode_start + ino / 8].len() == 512,
        0 <= i,
        v.sb.bitmap_start + i / 4096 < v.blocks.len(),
    ensures
        ({
            let b = v.blocks[v.sb.inode_start + ino as int / 8];
            let at = 64 * (ino as int % 8);
            &&& v.inode(ino) is Ok
            &&& v.inode(ino)->Ok_0.kind == half_le(b, at)
            &&& v.inode(ino)->Ok_0.size == word_le(b, at + 8)
            &&& v.inode(ino)->Ok_0.direct[0] == word_le(b, at + 16)
        }),
        v.bit(i) == Ok::<bool, FsError>(
            (v.blocks[v.sb.bitmap_start + i / 4096][(i % 4096) / 8] as int / place(i % 8)) % 2 == 1,
        ),
{
    let b = v.blocks[v.sb.inode_start + ino as int / 8];
    let at = 64 * (ino as int % 8);
    let rec = b.subrange(at, at + 64);
    inode_layout(rec, 0);
    assert((i / 8) % 512 == (i % 4096) / 8);
    lemma_bit_place(v.blocks[v.sb.bitmap_start + i / 4096][(i % 4096) / 8], i % 8);
}

/// What bit `k` of a byte counts.
pub open spec fn place(k: int) -> int {
    if k == 0 {
        1
    } else if k == 1 {
        2
    } else if k == 2 {
        4
    } else if k == 3 {
        8
    } else if k == 4 {
        16
    } else if k == 5 {
        32
    } else if k == 6 {
        64
    } else {
        128
    }
}

proof fn lemma_bit_place(x: u8, k: int)
    requires
        0 <= k < 8,
    ensures
        bit_of(x, k) <==> (x as int / place(k)) % 2 == 1,
{
    assert((x & (1u8 << 0u8) != 0) == ((x / 1) % 2 == 1) && (x & (1u8 << 1u8) != 0) == ((x / 2) % 2
        == 1) && (x & (1u8 << 2u8) != 0) == ((x / 4) % 2 == 1) && (x & (1u8 << 3u8) != 0) == ((x
        / 8) % 2 == 1) && (x & (1u8 << 4u8) != 0) == ((x / 16) % 2 == 1) && (x & (1u8 << 5u8) != 0)
        == ((x / 32) % 2 == 1) && (x & (1u8 << 6u8) != 0) == ((x / 64) % 2 == 1) && (x & (1u8
        << 7u8) != 0) == ((x / 128) % 2 == 1)) by (bit_vector);
}

/// The blocks of contents, one after the other, are the contents: byte `j` stands in block
/// `j / 512` at place `j % 512`, and what is left of the last block is zero.
pub proof fn blocks_hold_the_contents(data: Seq<u8>, i: int, j: int)
    requires
        0 <= i,
        0 <= j < 512,
    ensures
        padded_block(data, i).len() == 512,
        512 * i + j < data.len() ==> padded_block(data, i)[j] == data[512 * i + j],
        512 * i + j >= data.len() ==> padded_block(data, i)[j] == 0,
{
}

} // verus!

//! The on-disk records of the filesystem: superblock, inode and directory slot.
use vstd::prelude::*;
use vstd::slice::slice_to_vec;
use crate::kernel::block::BlockError;
use crate::kernel::bytes::{
    get_le32, get_le64, half_le, le32_at, le32_bytes, le32_is_little_endian, le64_at, le64_bytes,
    le64_is_little_endian, lemma_le32, lemma_le64, push_le32, push_le64, put_bytes, splice, word_le,
    zeros,
};

verus! {

/// Filesystem magic: ASCII `"CIBOSFS1"`, little-endian.
pub const FS_MAGIC: u64 = 0x3153_4653_4F42_4943;

/// Filesystem version.
pub const FS_VERSION: u32 = 1;

/// Bytes per inode on disk: kind(4) + reserved(4) + size(8) + 6 pointers (48).
pub const INODE_SIZE: usize = 64;

/// Direct block pointers per inode.
pub const DIRECT_BLOCKS: usize = 6;

/// Maximum file/dir size in bytes (direct blocks only).
pub const MAX_FILE_SIZE: u64 = 3072;

/// Maximum directory-entry name length.
pub const NAME_MAX: usize = 23;

/// Bytes per directory entry on disk: inode(4) + name_len(1) + name(23) + pad(4).
pub const DIR_ENTRY_SIZE: usize = 32;

/// Inode number of the root directory.
pub const ROOT_INODE: u32 = 0;

/// Inode kind tag of a free slot.
pub const KIND_FREE: u32 = 0;

/// Inode kind tag of a regular file.
pub const KIND_FILE: u32 = 1;

/// Inode kind tag of a directory.
pub const KIND_DIR: u32 = 2;

/// A filesystem error.
#[derive(Debug, Clone, Copy, PartialEq, Eq, Structural)]
pub enum FsError {
    /// Underlying block device error.
    Block(BlockError),
    /// Superblock magic/version mismatch (not a CIBOSFS volume).
    BadSuperblock,
    /// On-disk structure failed to decode.
    Corrupt,
    /// No free inode / no free data block.
    NoSpace,
    /// A path component was not found.
    NotFound,
    /// A name already exists in the directory.
    Exists,
    /// The inode is not of the expected kind (e.g. not a directory).
    WrongKind,
    /// A name exceeded [`NAME_MAX`], or a write exceeded [`MAX_FILE_SIZE`].
    TooLarge,
}

impl From<BlockError> for FsError {
    fn from(e: BlockError) -> (r: FsError) {
        FsError::Block(e)
    }
}

impl vstd::std_specs::convert::FromSpecImpl<BlockError> for FsError {
    open spec fn obeys_from_spec() -> bool {
        true
    }

    open spec fn from_spec(e: BlockError) -> FsError {
        FsError::Block(e)
    }
}

/// In-memory copy of the superblock.
#[derive(Debug, Clone, Copy, PartialEq, Eq, Structural)]
pub struct Superblock {
    /// Total blocks on the volume.
    pub total_blocks: u64,
    /// First block of the allocation bitmap.
    pub bitmap_start: u64,
    /// Number of bitmap blocks.
    pub bitmap_blocks: u64,
    /// First block of the inode table.
    pub inode_start: u64,
    /// Number of inodes.
    pub inode_count: u32,
    /// First data block.
    pub data_start: u64,
    /// Number of data blocks (bitmap covers exactly these).
    pub data_blocks: u64,
}

/// The superblock record, 64 bytes.
pub open spec fn superblock_bytes(sb: Superblock) -> Seq<u8> {
    le64_bytes(FS_MAGIC) + le32_bytes(FS_VERSION) + le32_bytes(
        sb.inode_count,
    ) + le64_bytes(sb.total_blocks) + le64_bytes(sb.bitmap_start)
        + le64_bytes(sb.bitmap_blocks) + le64_bytes(sb.inode_start)
        + le64_bytes(sb.data_start) + le64_bytes(sb.data_blocks)
}

/// What a block that should hold a superblock decodes to.
pub open spec fn superblock_of(s: Seq<u8>) -> Result<Superblock, FsError> {
    if s.len() < 12 {
        Err(FsError::Corrupt)
    } else if le64_at(s, 0) != FS_MAGIC || le32_at(s, 8) != FS_VERSION {
        Err(FsError::BadSuperblock)
    } else if s.len() < 64 {
        Err(FsError::Corrupt)
    } else {
        Ok(
            Superblock {
                inode_count: le32_at(s, 12),
                total_blocks: le64_at(s, 16),
                bitmap_start: le64_at(s, 24),
                bitmap_blocks: le64_at(s, 32),
                inode_start: le64_at(s, 40),
                data_start: le64_at(s, 48),
                data_blocks: le64_at(s, 56),
            },
        )
    }
}

impl Superblock {
    /// Write the record at the start of `buf`.
    pub fn write_to(&self, buf: &mut Vec<u8>)
        requires
            old(buf)@.len() >= 64,
        ensures
            final(buf)@ == splice(old(buf)@, 0, superblock_bytes(*self)),
    {
        proof {
            lemma_le64(FS_MAGIC);
            lemma_le32(FS_VERSION);
            lemma_le32(self.inode_count);
            lemma_le64(self.total_blocks);
            lemma_le64(self.bitmap_start);
            lemma_le64(self.bitmap_blocks);
            lemma_le64(self.inode_start);
            lemma_le64(self.data_start);
            lemma_le64(self.data_blocks);
        }
        let mut rec: Vec<u8> = Vec::new();
        push_le64(&mut rec, FS_MAGIC);
        push_le32(&mut rec, FS_VERSION);
        push_le32(&mut rec, self.inode_count);
        push_le64(&mut rec, self.total_blocks);
        push_le64(&mut rec, self.bitmap_start);
        push_le64(&mut rec, self.bitmap_blocks);
        push_le64(&mut rec, self.inode_start);
        push_le64(&mut rec, self.data_start);
        push_le64(&mut rec, self.data_blocks);
        assert(rec@ =~= superblock_bytes(*self));
        put_bytes(buf, 0, &rec);
    }

    /// Decode the record at the start of `buf`.
    pub fn read_from(buf: &[u8]) -> (r: Result<Superblock, FsError>)
        ensures
            r == superblock_of(buf@),
    {
        if buf.len() < 12 {
            return Err(FsError::Corrupt);
        }
        if get_le64(buf, 0) != FS_MAGIC || get_le32(buf, 8) != FS_VERSION {
            return Err(FsError::BadSuperblock);
        }
        if buf.len() < 64 {
            return Err(FsError::Corrupt);
        }
        Ok(
            Superblock {
                inode_count: get_le32(buf, 12),
                total_blocks: get_le64(buf, 16),
                bitmap_start: get_le64(buf, 24),
                bitmap_blocks: get_le64(buf, 32),
                inode_start: get_le64(buf, 40),
                data_start: get_le64(buf, 48),
                data_blocks: get_le64(buf, 56),
            },
        )
    }
}

/// A superblock written over any block of at least 64 bytes decodes to itself.
pub proof fn superblock_round_trips(sb: Superblock, s: Seq<u8>)
    requires
        s.len() >= 64,
    ensures
        superblock_of(splice(s, 0, superblock_bytes(sb))) == Ok::<Superblock, FsError>(sb),
{
    lemma_le64(FS_MAGIC);
    lemma_le32(FS_VERSION);
    lemma_le32(sb.inode_count);
    lemma_le64(sb.total_blocks);
    lemma_le64(sb.bitmap_start);
    lemma_le64(sb.bitmap_blocks);
    lemma_le64(sb.inode_start);
    lemma_le64(sb.data_start);
    lemma_le64(sb.data_blocks);
    let t = splice(s, 0, superblock_bytes(sb));
    assert(superblock_bytes(sb).len() == 64);
    assert(t.subrange(0, 8) =~= le64_bytes(FS_MAGIC));
    assert(t.subrange(8, 12) =~= le32_bytes(FS_VERSION));
    assert(t.subrange(12, 16) =~= le32_bytes(sb.inode_count));
    assert(t.subrange(16, 24) =~= le64_bytes(sb.total_blocks));
    assert(t.subrange(24, 32) =~= le64_bytes(sb.bitmap_start));
    assert(t.subrange(32, 40) =~= le64_bytes(sb.bitmap_blocks));
    assert(t.subrange(40, 48) =~= le64_bytes(sb.inode_start));
    assert(t.subrange(48, 56) =~= le64_bytes(sb.data_start));
    assert(t.subrange(56, 64) =~= le64_bytes(sb.data_blocks));
}

/// An inode (file or directory).
#[derive(Debug, Clone, Copy, PartialEq, Eq)]
pub struct Inode {
    pub kind: u32,
    pub size: u64,
    pub direct: [u64; DIRECT_BLOCKS],
}

/// An inode as a mathematical value.
pub ghost struct Node {
    pub kind: u32,
    pub size: u64,
    pub direct: Seq<u64>,
}

impl View for Inode {
    type V = Node;

    open spec fn view(&self) -> Node {
        Node { kind: self.kind, size: self.size, direct: self.direct@ }
    }
}

/// The inode record, 64 bytes.
pub open spec fn node_bytes(n: Node) -> Seq<u8> {
    le32_bytes(n.kind) + le32_bytes(0) + le64_bytes(n.size)
        + le64_bytes(n.direct[0]) + le64_bytes(n.direct[1])
        + le64_bytes(n.direct[2]) + le64_bytes(n.direct[3])
        + le64_bytes(n.direct[4]) + le64_bytes(n.direct[5])
}

/// The inode that a 64-byte record stands for.
pub open spec fn node_of(s: Seq<u8>) -> Node {
    Node {
        kind: le32_at(s, 0),
        size: le64_at(s, 8),
        direct: Seq::new(6, |k: int| le64_at(s, 16 + 8 * k)),
    }
}

/// How many data blocks `size` bytes take.
pub open spec fn blocks_for(size: int) -> int {
    (size + 511) / 512
}

/// An inode record decodes to the inode it was made from.
pub proof fn inode_round_trips(n: Node)
    requires
        n.direct.len() == 6,
    ensures
        node_bytes(n).len() == 64,
        node_of(node_bytes(n)) == n,
{
    lemma_le32(n.kind);
    lemma_le32(0);
    lemma_le64(n.size);
    lemma_le64(n.direct[0]);
    lemma_le64(n.direct[1]);
    lemma_le64(n.direct[2]);
    lemma_le64(n.direct[3]);
    lemma_le64(n.direct[4]);
    lemma_le64(n.direct[5]);
    let t = node_bytes(n);
    assert(t.len() == 64);
    assert(t.subrange(0, 4) =~= le32_bytes(n.kind));
    assert(t.subrange(8, 16) =~= le64_bytes(n.size));
    assert forall|k: int| 0 <= k < 6 implies le64_at(t, 16 + 8 * k) == #[trigger] n.direct[k] by {
        if k == 0 {
            assert(t.subrange(16, 24) =~= le64_bytes(n.direct[0]));
        } else if k == 1 {
            assert(t.subrange(24, 32) =~= le64_bytes(n.direct[1]));
        } else if k == 2 {
            assert(t.subrange(32, 40) =~= le64_bytes(n.direct[2]));
        } else if k == 3 {
            assert(t.subrange(40, 48) =~= le64_bytes(n.direct[3]));
        } else if k == 4 {
            assert(t.subrange(48, 56) =~= le64_bytes(n.direct[4]));
        } else {
            assert(t.subrange(56, 64) =~= le64_bytes(n.direct[5]));
        }
    }
    assert(node_of(t).direct =~= n.direct);
}

impl Inode {
    /// An inode of `kind` with no data.
    pub fn empty(kind: u32) -> (n: Inode)
        ensures
            n@ == empty_node(kind),
    {
        let n = Inode { kind, size: 0, direct: [0u64;DIRECT_BLOCKS] };
        assert(n@.direct =~= Seq::new(6, |k: int| 0u64));
        n
    }

    /// Write the record into `buf` at `off`.
    pub fn write_to(&self, buf: &mut Vec<u8>, off: usize)
        requires
            off + 64 <= old(buf)@.len(),
        ensures
            final(buf)@ == splice(old(buf)@, off as int, node_bytes(self@)),
    {
        proof {
            lemma_le32(self@.kind);
            lemma_le32(0);
            lemma_le64(self@.size);
            lemma_le64(self@.direct[0]);
            lemma_le64(self@.direct[1]);
            lemma_le64(self@.direct[2]);
            lemma_le64(self@.direct[3]);
            lemma_le64(self@.direct[4]);
            lemma_le64(self@.direct[5]);
        }
        let mut rec: Vec<u8> = Vec::new();
        push_le32(&mut rec, self.kind);
        push_le32(&mut rec, 0);
        push_le64(&mut rec, self.size);
        push_le64(&mut rec, self.direct[0]);
        push_le64(&mut rec, self.direct[1]);
        push_le64(&mut rec, self.direct[2]);
        push_le64(&mut rec, self.direct[3]);
        push_le64(&mut rec, self.direct[4]);
        push_le64(&mut rec, self.direct[5]);
        assert(rec@ =~= node_bytes(self@));
        put_bytes(buf, off, &rec);
    }

    /// Decode a 64-byte record.
    pub fn read_from(buf: &[u8]) -> (n: Inode)
        requires
            buf@.len() == 64,
        ensures
            n@ == node_of(buf@),
    {
        let direct: [u64; DIRECT_BLOCKS] = [
            get_le64(buf, 16),
            get_le64(buf, 24),
            get_le64(buf, 32),
            get_le64(buf, 40),
            get_le64(buf, 48),
            get_le64(buf, 56),
        ];
        let n = Inode { kind: get_le32(buf, 0), size: get_le64(buf, 8), direct };
        assert(n@.direct =~= node_of(buf@).direct);
        n
    }

    /// How many data blocks the contents take.
    pub fn blocks_used(&self) -> (n: u64)
        ensures
            n == blocks_for(self.size as int),
    {
        self.size / 512 + if self.size % 512 == 0 {
            0
        } else {
            1
        }
    }
}

/// The inode of `kind` with no data.
pub open spec fn empty_node(kind: u32) -> Node {
    Node { kind, size: 0, direct: Seq::new(6, |k: int| 0u64) }
}

/// A directory slot, 32 bytes: the inode number, the name's length, the name
/// padded to 23 bytes, 4 bytes of padding.
pub open spec fn slot_bytes(ino: u32, name: Seq<u8>) -> Seq<u8> {
    le32_bytes(ino) + seq![name.len() as u8] + name + zeros((27 - name.len()) as nat)
}

/// The inode number in a slot.
pub open spec fn slot_ino(s: Seq<u8>) -> u32 {
    le32_at(s, 0)
}

/// The name in a slot.
pub open spec fn slot_name(s: Seq<u8>) -> Seq<u8> {
    s.subrange(5, 5 + s[4] as int)
}

/// Whether a slot holds an entry.
pub open spec fn slot_used(s: Seq<u8>) -> bool {
    slot_ino(s) != 0 && s[4] <= 23
}

/// A directory slot decodes to the entry it was made from.
pub proof fn slot_round_trips(ino: u32, name: Seq<u8>)
    requires
        name.len() <= 23,
    ensures
        slot_bytes(ino, name).len() == 32,
        slot_ino(slot_bytes(ino, name)) == ino,
        slot_name(slot_bytes(ino, name)) == name,
        slot_bytes(ino, name)[4] <= 23,
{
    lemma_le32(ino);
    let s = slot_bytes(ino, name);
    assert(s.len() == 32);
    assert(s.subrange(0, 4) =~= le32_bytes(ino));
    assert(s[4] == name.len() as u8);
    assert(slot_name(s) =~= name);
}

/// Encode a directory slot.
pub fn encode_slot(ino: u32, name: &[u8]) -> (s: Vec<u8>)
    requires
        name@.len() <= 23,
    ensures
        s@ == slot_bytes(ino, name@),
{
    let mut out: Vec<u8> = Vec::new();
    push_le32(&mut out, ino);
    out.push(name.len() as u8);
    let mut n: Vec<u8> = slice_to_vec(name);
    out.append(&mut n);
    let rest: usize = 27 - name.len();
    let mut pad: Vec<u8> = vec![0u8;rest];
    out.append(&mut pad);
    assert(out@ =~= slot_bytes(ino, name@));
    out
}

/// Where the fields of a superblock stand in its block: the letters CIBOSFS1, the version 1,
/// the number of inodes, and then, as words of eight bytes, the number of blocks, where the
/// bitmap starts and how many blocks it has, where the inodes start, where the data starts
/// and how many blocks that has. All numbers are little-endian. A block that does not start
/// so is no superblock.
pub proof fn superblock_layout(s: Seq<u8>)
    requires
        s.len() >= 64,
    ensures
        superblock_of(s) is Ok <==> s[0] == 0x43 && s[1] == 0x49 && s[2] == 0x42 && s[3] == 0x4f
            && s[4] == 0x53 && s[5] == 0x46 && s[6] == 0x53 && s[7] == 0x31 && half_le(s, 8) == 1,
        superblock_of(s) matches Err(e) ==> e is BadSuperblock,
        superblock_of(s) matches Ok(sb) ==> {
            &&& sb.inode_count == half_le(s, 12)
            &&& sb.total_blocks == word_le(s, 16)
            &&& sb.bitmap_start == word_le(s, 24)
            &&& sb.bitmap_blocks == word_le(s, 32)
            &&& sb.inode_start == word_le(s, 40)
            &&& sb.data_start == word_le(s, 48)
            &&& sb.data_blocks == word_le(s, 56)
        },
{
    le64_is_little_endian(s, 0);
    lemma_magic(s[0], s[1], s[2], s[3], s[4], s[5], s[6], s[7]);
    assert(word_le(s, 0) == le64_at(s, 0));
    le32_is_little_endian(s, 8);
    le32_is_little_endian(s, 12);
    le64_is_little_endian(s, 16);
    le64_is_little_endian(s, 24);
    le64_is_little_endian(s, 32);
    le64_is_little_endian(s, 40);
    le64_is_little_endian(s, 48);
    le64_is_little_endian(s, 56);
}

/// A low byte and what stands above it are told apart.
proof fn lemma_low_byte(a: int, x: int, b: int, y: int)
    requires
        0 <= a < 256,
        0 <= b < 256,
    ensures
        a + 256 * x == b + 256 * y <==> a == b && x == y,
{
}

/// The eight letters are the magic number.
proof fn lemma_magic(a: u8, b: u8, c: u8, d: u8, e: u8, f: u8, g: u8, h: u8)
    ensures
        a as int + b as int * 0x100 + c as int * 0x1_0000 + d as int * 0x100_0000 + e as int
            * 0x1_0000_0000 + f as int * 0x100_0000_0000 + g as int * 0x1_0000_0000_0000 + h as int
            * 0x100_0000_0000_0000 == FS_MAGIC <==> a == 0x43 && b == 0x49 && c == 0x42 && d == 0x4f
            && e == 0x53 && f == 0x46 && g == 0x53 && h == 0x31,
{
    let x7 = h as int;
    let x6 = g + 256 * x7;
    let x5 = f + 256 * x6;
    let x4 = e + 256 * x5;
    let x3 = d + 256 * x4;
    let x2 = c + 256 * x3;
    let x1 = b + 256 * x2;
    lemma_low_byte(g as int, x7, 0x53, 0x31);
    lemma_low_byte(f as int, x6, 0x46, 0x3153);
    lemma_low_byte(e as int, x5, 0x53, 0x31_5346);
    lemma_low_byte(d as int, x4, 0x4f, 0x3153_4653);
    lemma_low_byte(c as int, x3, 0x42, 0x31_5346_534f);
    lemma_low_byte(b as int, x2, 0x49, 0x3153_4653_4f42);
    lemma_low_byte(a as int, x1, 0x43, 0x31_5346_534f_4249);
}

/// Where the fields of an inode stand in its record: the kind in bytes 0 to 3, 0 for a free
/// one, 1 for a file and 2 for a directory; the size in bytes 8 to 15; and the six block
/// numbers behind it. All are little-endian.
pub proof fn inode_layout(s: Seq<u8>, k: int)
    requires
        s.len() == 64,
        0 <= k < 6,
    ensures
        node_of(s).kind == half_le(s, 0),
        node_of(s).size == word_le(s, 8),
        node_of(s).direct.len() == 6,
        node_of(s).direct[k] == word_le(s, 16 + 8 * k),
        KIND_FREE == 0 && KIND_FILE == 1 && KIND_DIR == 2,
{
    le32_is_little_endian(s, 0);
    le64_is_little_endian(s, 8);
    le64_is_little_endian(s, 16 + 8 * k);
}

/// Where the fields of a directory slot stand: the inode number in bytes 0 to 3,
/// little-endian, the length of the name in byte 4, the name from byte 5 on; the rest is
/// zero. A slot with inode number 0 is unused.
pub proof fn slot_layout(ino: u32, name: Seq<u8>)
    requires
        name.len() <= 23,
    ensures
        slot_bytes(ino, name).len() == 32,
        half_le(slot_bytes(ino, name), 0) == ino,
        slot_bytes(ino, name)[4] == name.len(),
        forall|i: int| 0 <= i < name.len() ==> #[trigger] slot_bytes(ino, name)[5 + i] == name[i],
        forall|i: int| 5 + name.len() <= i < 32 ==> #[trigger] slot_bytes(ino, name)[i] == 0,
        slot_used(slot_bytes(ino, name)) <==> ino != 0,
{
    slot_round_trips(ino, name);
    lemma_le32(ino);
    let s = slot_bytes(ino, name);
    le32_is_little_endian(s, 0);
    assert(slot_ino(s) == ino);
}

/// As many blocks are taken as hold the contents, and not one more.
pub proof fn blocks_are_just_enough(size: int)
    requires
        0 <= size,
    ensures
        blocks_for(size) * 512 >= size,
        size > 0 ==> (blocks_for(size) - 1) * 512 < size,
        blocks_for(0) == 0,
        blocks_for(3072) == 6,
{
}

} // verus!

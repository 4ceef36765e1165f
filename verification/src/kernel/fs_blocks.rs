//! How the inode table, the bitmap and the data region of a volume lie apart, and
//! what each primitive write leaves alone.
use vstd::prelude::*;
use crate::kernel::bytes::splice;
use crate::kernel::fs_format::{
    inode_round_trips, node_bytes, superblock_of, FsError, Node, Superblock,
};
use crate::kernel::fs_model::{with_bit_of, Volume};

verus! {

/// The regions of the volume lie one after the other within the device, the
/// bitmap covers the data region, block 0 records all of this, and the device
/// takes writes.
pub open spec fn laid_out(v: Volume) -> bool {
    &&& !v.locked
    &&& forall|b: int| 0 <= b < v.blocks.len() ==> (#[trigger] v.blocks[b]).len() == 512
    &&& v.sb.inode_count >= 1
    &&& 1 <= v.sb.bitmap_start
    &&& v.sb.bitmap_start + v.sb.bitmap_blocks <= v.sb.inode_start
    &&& v.sb.inode_start + (v.sb.inode_count + 7) / 8 <= v.sb.data_start
    &&& v.sb.data_start + v.sb.data_blocks <= v.blocks.len()
    &&& v.blocks.len() <= u64::MAX
    &&& v.sb.data_blocks <= v.sb.bitmap_blocks * 4096
    &&& superblock_of(v.blocks[0]) == Ok::<Superblock, FsError>(v.sb)
}

/// Inode `i` of a laid-out volume.
pub open spec fn node(v: Volume, i: int) -> Node {
    v.inode(i as u32)->Ok_0
}

/// Whether data block `j` of a laid-out volume is marked as taken.
pub open spec fn taken(v: Volume, j: int) -> bool {
    v.bit(j)->Ok_0
}

/// `lba` is a data block.
pub open spec fn in_data(sb: Superblock, lba: int) -> bool {
    sb.data_start <= lba < sb.data_start + sb.data_blocks
}

/// `i` is an inode number of the volume.
pub open spec fn is_ino(v: Volume, i: int) -> bool {
    0 <= i < v.sb.inode_count
}

/// Inodes are the same on both volumes, but for `except`.
pub open spec fn same_nodes(a: Volume, b: Volume, except: int) -> bool {
    forall|i: int| is_ino(a, i) && i != except ==> #[trigger] node(b, i) == node(a, i)
}

/// The bitmap is the same on both volumes, but for bit `except`.
pub open spec fn same_bits(a: Volume, b: Volume, except: int) -> bool {
    forall|j: int|
        0 <= j < a.sb.data_blocks && j != except ==> #[trigger] taken(b, j) == taken(a, j)
}

/// The data region is the same on both volumes, but for block `except`.
pub open spec fn same_data(a: Volume, b: Volume, except: int) -> bool {
    forall|lba: int|
        in_data(a.sb, lba) && lba != except ==> #[trigger] b.blocks[lba] == a.blocks[lba]
}

proof fn lemma_bits(x: u8, k: u8, l: u8)
    requires
        k < 8,
        l < 8,
    ensures
        x & (1u8 << l) != 0 || x & (1u8 << l) == 0,
        (x | (1u8 << k)) & (1u8 << k) != 0,
        (x & !(1u8 << k)) & (1u8 << k) == 0,
        k != l ==> (x | (1u8 << k)) & (1u8 << l) == x & (1u8 << l),
        k != l ==> (x & !(1u8 << k)) & (1u8 << l) == x & (1u8 << l),
{
    assert((x | (1u8 << k)) & (1u8 << k) != 0) by (bit_vector)
        requires
            k < 8,
    ;
    assert((x & !(1u8 << k)) & (1u8 << k) == 0) by (bit_vector);
    if k != l {
        assert((x | (1u8 << k)) & (1u8 << l) == x & (1u8 << l)) by (bit_vector)
            requires
                k < 8,
                l < 8,
                k != l,
        ;
        assert((x & !(1u8 << k)) & (1u8 << l) == x & (1u8 << l)) by (bit_vector)
            requires
                k < 8,
                l < 8,
                k != l,
        ;
    }
}

/// Reading an inode of a laid-out volume succeeds.
pub proof fn lemma_inode_ok(v: Volume, i: int)
    requires
        laid_out(v),
        is_ino(v, i),
    ensures
        v.inode(i as u32) == Ok::<Node, FsError>(node(v, i)),
        node(v, i).direct.len() == 6,
{
}

/// Reading a bitmap bit of a laid-out volume succeeds.
pub proof fn lemma_bit_ok(v: Volume, j: int)
    requires
        laid_out(v),
        0 <= j < v.sb.data_blocks,
    ensures
        v.bit(j) == Ok::<bool, FsError>(taken(v, j)),
{
}

/// Replacing an inode changes that inode and nothing else.
pub proof fn lemma_with_inode(v: Volume, ino: int, n: Node)
    requires
        laid_out(v),
        is_ino(v, ino),
        n.direct.len() == 6,
    ensures
        v.with_inode(ino as u32, n).1 is Ok,
        ({
            let w = v.with_inode(ino as u32, n).0;
            &&& laid_out(w)
            &&& w.sb == v.sb
            &&& w.blocks.len() == v.blocks.len()
            &&& node(w, ino) == n
            &&& same_nodes(v, w, ino)
            &&& same_bits(v, w, -1)
            &&& same_data(v, w, -1)
        }),
{
    let w = v.with_inode(ino as u32, n).0;
    let blk = v.sb.inode_start + ino / 8;
    let off = 64 * (ino % 8);
    inode_round_trips(n);
    assert(w.blocks == v.blocks.update(blk, splice(v.blocks[blk], off, node_bytes(n))));
    assert(w.blocks[blk].subrange(off, off + 64) =~= node_bytes(n));
    assert forall|i: int| is_ino(v, i) && i != ino implies #[trigger] node(w, i) == node(v, i) by {
        let b = v.sb.inode_start + i / 8;
        let o = 64 * (i % 8);
        if b == blk {
            assert(i % 8 != ino % 8);
            assert(w.blocks[b].subrange(o, o + 64) =~= v.blocks[b].subrange(o, o + 64));
        }
    }
    assert forall|j: int| 0 <= j < v.sb.data_blocks implies #[trigger] taken(w, j) == taken(v, j) by {
        assert(v.sb.bitmap_start + j / 4096 < v.sb.inode_start);
    }
}

/// Changing a bitmap bit changes that bit and nothing else.
pub proof fn lemma_with_bit(v: Volume, j: int, value: bool)
    requires
        laid_out(v),
        0 <= j < v.sb.data_blocks,
    ensures
        v.with_bit(j, value).1 is Ok,
        ({
            let w = v.with_bit(j, value).0;
            &&& laid_out(w)
            &&& w.sb == v.sb
            &&& w.blocks.len() == v.blocks.len()
            &&& taken(w, j) == value
            &&& same_nodes(v, w, -1)
            &&& same_bits(v, w, j)
            &&& same_data(v, w, -1)
        }),
{
    let w = v.with_bit(j, value).0;
    let blk = v.sb.bitmap_start + j / 4096;
    let off = (j / 8) % 512;
    let x = v.blocks[blk][off];
    assert(blk < v.sb.inode_start);
    assert(w.blocks == v.blocks.update(
        blk,
        v.blocks[blk].update(off, with_bit_of(x, j % 8, value)),
    ));
    lemma_bits(x, (j % 8) as u8, (j % 8) as u8);
    assert forall|i: int| is_ino(v, i) implies #[trigger] node(w, i) == node(v, i) by {
        assert(v.sb.inode_start + i / 8 != blk);
    }
    assert forall|i: int| 0 <= i < v.sb.data_blocks && i != j implies #[trigger] taken(w, i)
        == taken(v, i) by {
        let b = v.sb.bitmap_start + i / 4096;
        let o = (i / 8) % 512;
        if b == blk && o == off {
            assert(i / 8 == j / 8);
            assert(i % 8 != j % 8);
            lemma_bits(x, (j % 8) as u8, (i % 8) as u8);
        }
    }
}

/// Writing a data block changes that block and nothing else.
pub proof fn lemma_store_data(v: Volume, lba: int, b: Seq<u8>)
    requires
        laid_out(v),
        in_data(v.sb, lba),
        b.len() == 512,
    ensures
        v.store(lba, b).1 is Ok,
        ({
            let w = v.store(lba, b).0;
            &&& laid_out(w)
            &&& w.sb == v.sb
            &&& w.blocks.len() == v.blocks.len()
            &&& w.blocks[lba] == b
            &&& same_nodes(v, w, -1)
            &&& same_bits(v, w, -1)
            &&& same_data(v, w, lba)
        }),
{
    let w = v.store(lba, b).0;
    assert forall|i: int| is_ino(v, i) implies #[trigger] node(w, i) == node(v, i) by {
        assert(v.sb.inode_start + i / 8 != lba);
    }
    assert forall|j: int| 0 <= j < v.sb.data_blocks implies #[trigger] taken(w, j) == taken(v, j) by {
        assert(v.sb.bitmap_start + j / 4096 < v.sb.inode_start);
    }
}

} // verus!

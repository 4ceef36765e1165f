//! What a filesystem on a device that refuses writes promises: it reads as on one
//! that takes them, never changes, and refuses what would have succeeded.
use vstd::prelude::*;
use crate::kernel::block::BlockError;
use crate::kernel::fs_blocks::{
    in_data, is_ino, lemma_bit_ok, lemma_inode_ok, lemma_with_bit, lemma_with_inode, node, taken,
};
use crate::kernel::fs_format::{
    blocks_for, empty_node, FsError, Node, KIND_DIR, KIND_FILE, KIND_FREE, ROOT_INODE,
};
use crate::kernel::fs_laws::lemma_free_inode;
use crate::kernel::fs_model::{components, Volume};
use crate::kernel::fs_owned::{held, holds, lemma_write_data, owned};
use crate::kernel::fs_tree::{lemma_walk_last, lemma_walk_used, sane};

verus! {

/// The same volume on a device that takes writes.
pub open spec fn unlocked(v: Volume) -> Volume {
    Volume { locked: false, ..v }
}

/// The answer to a write that the device refuses.
pub open spec fn read_only<T>() -> Result<T, FsError> {
    Err(FsError::Block(BlockError::ReadOnly))
}

proof fn lemma_inode_same(v: Volume, ino: u32)
    ensures
        unlocked(v).inode(ino) == v.inode(ino),
{
}

proof fn lemma_data_same(v: Volume, n: Node, k: int)
    ensures
        unlocked(v).data_from(n, k) == v.data_from(n, k),
    decreases 6 - k,
{
    if !(k >= blocks_for(n.size as int) || k >= 6) {
        lemma_data_same(v, n, k + 1);
    }
}

proof fn lemma_entries_same(v: Volume, data: Seq<u8>, off: int)
    requires
        0 <= off,
    ensures
        unlocked(v).entries_from(data, off) == v.entries_from(data, off),
    decreases data.len() - off,
{
    if off + 32 <= data.len() {
        lemma_entries_same(v, data, off + 32);
    }
}

proof fn lemma_dir_same(v: Volume, d: u32)
    ensures
        unlocked(v).dir_entries(d) == v.dir_entries(d),
{
    lemma_inode_same(v, d);
    if let Ok(n) = v.inode(d) {
        lemma_data_same(v, n, 0);
        if let Ok(data) = v.data_from(n, 0) {
            lemma_entries_same(v, data, 0);
        }
    }
}

proof fn lemma_walk_unlocked(v: Volume, ino: u32, q: Seq<Seq<u8>>)
    ensures
        unlocked(v).walk(ino, q) == v.walk(ino, q),
    decreases q.len(),
{
    if q.len() > 0 {
        lemma_dir_same(v, ino);
        if let Ok(next) = v.lookup(ino, q[0]) {
            lemma_walk_unlocked(v, next, q.drop_first());
        }
    }
}

/// A volume reads the same on a device that refuses writes as on one that takes
/// them.
pub proof fn locked_volume_reads_the_same(v: Volume, path: Seq<u8>)
    ensures
        unlocked(v).resolve(path) == v.resolve(path),
        unlocked(v).resolve_parent(path) == v.resolve_parent(path),
        unlocked(v).read_file(path) == v.read_file(path),
        unlocked(v).list_dir(path) == v.list_dir(path),
{
    let p = components(path);
    lemma_walk_unlocked(v, ROOT_INODE, p);
    if p.len() > 0 {
        lemma_walk_unlocked(v, ROOT_INODE, p.drop_last());
    }
    if let Ok(ino) = v.resolve(path) {
        lemma_inode_same(v, ino);
        lemma_dir_same(v, ino);
        if let Ok(n) = v.inode(ino) {
            lemma_data_same(v, n, 0);
        }
    }
}

proof fn lemma_alloc_locked(v: Volume, i: int)
    requires
        v.locked,
    ensures
        v.alloc_block_from(i).0 == v,
        v.alloc_block_from(i).1 is Err,
    decreases v.sb.data_blocks - i,
{
    if i < v.sb.data_blocks {
        lemma_alloc_locked(v, i + 1);
    }
}

proof fn lemma_shrink_locked(v: Volume, n: Node, from: int, to: int)
    requires
        v.locked,
    ensures
        v.shrink(n, from, to).0 == v,
    decreases to - from,
{
    if from < to && n.direct[from] == 0 {
        lemma_shrink_locked(v, n, from + 1, to);
    }
}

proof fn lemma_write_data_locked(v: Volume, ino: u32, n: Node, data: Seq<u8>)
    requires
        v.locked,
    ensures
        v.write_data(ino, n, data).0 == v,
        v.write_data(ino, n, data).1 is Err,
{
    let from = blocks_for(n.size as int);
    let to = blocks_for(data.len() as int);
    lemma_alloc_locked(v, 0);
    assert(v.grow(n, from, to).0 == v);
    let (v1, n1, r1) = v.grow(n, from, to);
    lemma_shrink_locked(v, n1, to, from);
    let n2 = v.shrink(n1, to, from).1;
    assert(v.put_data(n2, data, 0).0 == v);
}

proof fn lemma_free_data_locked(v: Volume, n: Node, k: int)
    requires
        v.locked,
    ensures
        v.free_data(n, k).0 == v,
    decreases 6 - k,
{
    if k < 6 {
        lemma_free_data_locked(v, n, k + 1);
    }
}

proof fn lemma_create_locked(v: Volume, parent: u32, name: Seq<u8>, kind: u32)
    requires
        v.locked,
    ensures
        v.create(parent, name, kind).0 == v,
        v.create(parent, name, kind).1 is Err,
{
}

/// On a device that refuses writes nothing ever changes, and nothing that would
/// change something succeeds.
pub proof fn locked_volume_never_changes(v: Volume, path: Seq<u8>, data: Seq<u8>)
    requires
        v.locked,
    ensures
        v.mkdir(path).0 == v,
        v.mkdir(path).1 is Err,
        v.write_file(path, data).0 == v,
        v.write_file(path, data).1 is Err,
        v.remove_file(path).0 == v,
        v.remove_file(path).1 is Err,
{
    if let Ok((parent, name)) = v.resolve_parent(path) {
        lemma_create_locked(v, parent, name, KIND_DIR);
        lemma_create_locked(v, parent, name, KIND_FILE);
        if let Ok(ino) = v.lookup(parent, name) {
            if let Ok(n) = v.inode(ino) {
                lemma_write_data_locked(v, ino, n, data);
                lemma_free_data_locked(v, n, 0);
            }
        }
    }
}

/// The first free block is refused.
proof fn lemma_alloc_refused(v: Volume, i: int)
    requires
        v.locked,
        owned(unlocked(v)),
        0 <= i,
        unlocked(v).alloc_block_from(i).1 is Ok,
    ensures
        v.alloc_block_from(i).1 == read_only::<u64>(),
    decreases v.sb.data_blocks - i,
{
    let u = unlocked(v);
    if i < v.sb.data_blocks {
        lemma_bit_ok(u, i);
        assert(v.bit(i) == u.bit(i));
        if taken(u, i) {
            lemma_alloc_refused(v, i + 1);
        } else {
            lemma_with_bit(u, i, true);
            assert(v.with_bit(i, true).1 == read_only::<()>());
        }
    }
}

/// Contents that could be replaced are refused.
proof fn lemma_write_data_refused(v: Volume, ino: int, data: Seq<u8>)
    requires
        v.locked,
        owned(unlocked(v)),
        is_ino(v, ino),
        unlocked(v).write_data(ino as u32, node(v, ino), data).1 is Ok,
    ensures
        v.write_data(ino as u32, node(v, ino), data).1 == read_only::<()>(),
{
    let u = unlocked(v);
    lemma_inode_same(v, ino as u32);
    let n = node(u, ino);
    assert(n == node(v, ino));
    lemma_inode_ok(u, ino);
    lemma_write_data(u, ino, data);
    let from = blocks_for(n.size as int);
    let to = blocks_for(data.len() as int);
    if from < to {
        assert(u.alloc_block_from(0).1 is Ok);
        lemma_alloc_refused(v, 0);
        assert(v.grow(n, from, to).2 == read_only::<()>());
    } else if to < from {
        assert(holds(u, ino, to));
        assert(in_data(u.sb, held(u, ino, to)));
        let j = n.direct[to] - u.sb.data_start;
        lemma_with_bit(u, j, false);
        assert(v.with_bit(j, false).1 == read_only::<()>());
        assert(v.shrink(n, to, from).2 == read_only::<()>());
    } else if to > 0 {
        assert(holds(u, ino, 0));
        assert(in_data(u.sb, held(u, ino, 0)));
        assert(v.grow(n, from, to) == (v, n, Ok::<(), FsError>(())));
        assert(v.shrink(n, to, from) == (v, n, Ok::<(), FsError>(())));
        assert(v.put_data(n, data, 0).1 == read_only::<()>());
    } else {
        assert(v.grow(n, from, to) == (v, n, Ok::<(), FsError>(())));
        assert(v.shrink(n, to, from) == (v, n, Ok::<(), FsError>(())));
        assert(v.put_data(n, data, 0) == (v, Ok::<(), FsError>(())));
        let n3 = Node { size: data.len() as u64, ..n };
        lemma_with_inode(u, ino, n3);
        assert(v.with_inode(ino as u32, n3).1 == read_only::<()>());
    }
}

proof fn lemma_free_inode_same(v: Volume, from: int)
    requires
        0 <= from,
    ensures
        unlocked(v).free_inode_from(from) == v.free_inode_from(from),
    decreases v.sb.inode_count - from,
{
    if from < v.sb.inode_count {
        lemma_inode_same(v, from as u32);
        lemma_free_inode_same(v, from + 1);
    }
}

/// An inode that could be created is refused.
proof fn lemma_create_refused(v: Volume, parent: u32, name: Seq<u8>, kind: u32)
    requires
        v.locked,
        sane(unlocked(v)),
        unlocked(v).create(parent, name, kind).1 is Ok,
    ensures
        v.create(parent, name, kind).1 == read_only::<u32>(),
{
    let u = unlocked(v);
    lemma_free_inode_same(v, 1);
    lemma_free_inode(u, 1);
    let ino = u.free_inode_from(1)->Ok_0;
    lemma_with_inode(u, ino as int, empty_node(kind));
    assert(v.with_inode(ino, empty_node(kind)).1 == read_only::<()>());
}

/// What would succeed on a device that takes writes is refused as read-only on one
/// that does not.
pub proof fn locked_volume_refuses(v: Volume, path: Seq<u8>, data: Seq<u8>)
    requires
        v.locked,
        sane(unlocked(v)),
    ensures
        unlocked(v).mkdir(path).1 is Ok ==> v.mkdir(path).1 == read_only::<u32>(),
        unlocked(v).write_file(path, data).1 is Ok ==> v.write_file(path, data).1 == read_only::<
            u32,
        >(),
        unlocked(v).remove_file(path).1 is Ok ==> v.remove_file(path).1 == read_only::<()>(),
{
    let u = unlocked(v);
    let p = components(path);
    locked_volume_reads_the_same(v, path);
    if let Ok((parent, name)) = u.resolve_parent(path) {
        lemma_dir_same(v, parent);
        assert(v.lookup(parent, name) == u.lookup(parent, name));
        lemma_walk_last(u, ROOT_INODE, p);
        if u.mkdir(path).1 is Ok {
            lemma_create_refused(v, parent, name, KIND_DIR);
        }
        match u.lookup(parent, name) {
            Ok(ino) => {
                lemma_walk_used(u, p);
                lemma_inode_ok(u, ino as int);
                lemma_inode_same(v, ino);
                if u.write_file(path, data).1 is Ok {
                    lemma_write_data_refused(v, ino as int, data);
                }
                if u.remove_file(path).1 is Ok {
                    lemma_unlink_refused(v, parent, name, ino);
                }
            },
            Err(FsError::NotFound) => {
                if u.write_file(path, data).1 is Ok {
                    lemma_create_refused(v, parent, name, KIND_FILE);
                }
            },
            Err(_) => {},
        }
    }
}

/// A file that could be removed is not.
proof fn lemma_unlink_refused(v: Volume, parent: u32, name: Seq<u8>, ino: u32)
    requires
        v.locked,
        sane(unlocked(v)),
        is_ino(v, ino as int),
        node(unlocked(v), ino as int).kind == KIND_FILE,
    ensures
        v.unlink(parent, name, ino).1 == read_only::<()>(),
{
    let u = unlocked(v);
    let i = ino as int;
    lemma_inode_ok(u, i);
    lemma_inode_same(v, ino);
    let n = node(u, i);
    if blocks_for(n.size as int) > 0 {
        assert(holds(u, i, 0));
        assert(in_data(u.sb, held(u, i, 0)));
        let j = n.direct[0] - u.sb.data_start;
        lemma_with_bit(u, j, false);
        assert(v.with_bit(j, false).1 == read_only::<()>());
        assert(v.free_data(n, 0).1 == read_only::<()>());
    } else {
        assert(v.free_data(n, 0) == (v, Ok::<(), FsError>(())));
        lemma_with_inode(u, i, empty_node(KIND_FREE));
        assert(v.with_inode(ino, empty_node(KIND_FREE)).1 == read_only::<()>());
    }
}

} // verus!

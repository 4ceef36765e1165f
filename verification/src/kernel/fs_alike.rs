//! Volumes that no caller can tell apart, and the operations that undo each other
//! up to that.
use vstd::prelude::*;
use crate::kernel::fs_blocks::{is_ino, lemma_inode_ok, node, same_bits, taken};
use crate::kernel::fs_format::{blocks_for, FsError, KIND_DIR, KIND_FILE, ROOT_INODE};
use crate::kernel::fs_laws::{
    lemma_create, lemma_create_at, lemma_overwrite, lemma_overwrite_at, lemma_unlink,
    lemma_walk_same, refusal,
};
use crate::kernel::fs_model::{components, Entry, Volume};
use crate::kernel::fs_owned::{
    all_taken, among, contents, lemma_among_alike, lemma_contents, lemma_grow_alike,
    lemma_rebooked_alike, lemma_write_data, rebooked, same_record, same_shape,
};
use crate::kernel::fs_tree::{
    entries, entry, has_entry, in_use, is_dir, lemma_components, lemma_walk_last, lemma_walk_used,
    plain, sane,
};

verus! {

/// The two volumes have the same data blocks taken, the same inodes in use, each for
/// the same blocks, and the same files and directories. They may differ in what
/// free blocks and free inodes hold, which no operation reads.
pub open spec fn alike(v: Volume, x: Volume) -> bool {
    &&& same_shape(v, x)
    &&& same_bits(v, x, -1)
    &&& forall|i: int| is_ino(v, i) ==> (#[trigger] node(x, i)).kind == node(v, i).kind
    &&& forall|i: int|
        is_ino(v, i) && in_use(node(v, i).kind) ==> same_record(node(v, i), #[trigger] node(x, i))
    &&& forall|i: int|
        is_ino(v, i) && node(v, i).kind == KIND_FILE ==> #[trigger] contents(x, i) == contents(v, i)
    &&& forall|d: u32| #[trigger] x.dir_entries(d) == v.dir_entries(d)
}

/// On volumes alike every path leads to the same inode, reads and lists the same.
pub proof fn alike_volumes_read_alike(v: Volume, x: Volume, path: Seq<u8>)
    requires
        sane(v),
        sane(x),
        alike(v, x),
    ensures
        x.resolve(path) == v.resolve(path),
        x.resolve_parent(path) == v.resolve_parent(path),
        x.read_file(path) == v.read_file(path),
        x.list_dir(path) == v.list_dir(path),
{
    let p = components(path);
    lemma_lookups_alike(v, x);
    lemma_walk_same(v, x, ROOT_INODE, p);
    if p.len() > 0 {
        lemma_walk_same(v, x, ROOT_INODE, p.drop_last());
    }
    if let Ok(i) = v.resolve(path) {
        lemma_walk_used(v, p);
        lemma_inode_ok(v, i as int);
        lemma_inode_ok(x, i as int);
        lemma_contents(v, v, i as int);
        lemma_contents(x, x, i as int);
        assert(node(x, i as int).kind == node(v, i as int).kind);
        if node(v, i as int).kind == KIND_FILE {
            assert(contents(x, i as int) == contents(v, i as int));
        }
    }
}

/// On volumes alike every lookup finds the same.
proof fn lemma_lookups_alike(v: Volume, x: Volume)
    requires
        alike(v, x),
    ensures
        forall|d: u32, name: Seq<u8>| #[trigger] x.lookup(d, name) == v.lookup(d, name),
{
    assert forall|d: u32, name: Seq<u8>| #[trigger] x.lookup(d, name) == v.lookup(d, name) by {
        assert(x.dir_entries(d) == v.dir_entries(d));
    }
}

/// On volumes alike the same inode is the first free one.
proof fn lemma_free_inode_alike(v: Volume, x: Volume, from: int)
    requires
        sane(v),
        sane(x),
        alike(v, x),
        1 <= from,
    ensures
        x.free_inode_from(from) == v.free_inode_from(from),
    decreases v.sb.inode_count - from,
{
    if from < v.sb.inode_count {
        lemma_inode_ok(v, from);
        lemma_inode_ok(x, from);
        assert(node(x, from).kind == node(v, from).kind);
        lemma_free_inode_alike(v, x, from + 1);
    }
}

/// On volumes alike the same inodes are refused, for the same reason.
proof fn lemma_refusal_alike(v: Volume, x: Volume, parent: u32, name: Seq<u8>)
    requires
        sane(v),
        sane(x),
        alike(v, x),
    ensures
        refusal(x, parent, name) == refusal(v, parent, name),
{
    lemma_free_inode_alike(v, x, 1);
    if is_ino(v, parent as int) {
        assert(node(x, parent as int).kind == node(v, parent as int).kind);
    }
    assert(x.dir_entries(parent) == v.dir_entries(parent));
    if all_taken(x) {
        assert forall|j: int| 0 <= j < v.sb.data_blocks implies #[trigger] taken(v, j) by {
            assert(taken(x, j));
        }
    }
    if all_taken(v) {
        assert forall|j: int| 0 <= j < x.sb.data_blocks implies #[trigger] taken(x, j) by {
            assert(taken(v, j));
        }
    }
}

/// Volumes on which every block is taken have the same blocks taken.
proof fn lemma_full_alike(w: Volume, y: Volume)
    requires
        same_shape(w, y),
        all_taken(w),
        all_taken(y),
    ensures
        same_bits(w, y, -1),
{
    assert forall|j: int| 0 <= j < w.sb.data_blocks implies #[trigger] taken(y, j) == taken(
        w,
        j,
    ) by {
        assert(taken(w, j));
    }
}

/// Volumes alike stay alike when an inode is created on both.
#[verifier::rlimit(60)]
proof fn lemma_create_alike(v: Volume, x: Volume, parent: u32, name: Seq<u8>, kind: u32)
    requires
        sane(v),
        sane(x),
        alike(v, x),
        is_ino(v, parent as int),
        in_use(node(v, parent as int).kind),
        v.lookup(parent, name) is Err,
        plain(name),
        kind == KIND_FILE || kind == KIND_DIR,
    ensures
        x.create(parent, name, kind).1 == v.create(parent, name, kind).1,
        alike(v.create(parent, name, kind).0, x.create(parent, name, kind).0),
{
    let p = parent as int;
    lemma_lookups_alike(v, x);
    assert(node(x, p).kind == node(v, p).kind);
    lemma_create(v, parent, name, kind);
    lemma_create(x, parent, name, kind);
    lemma_refusal_alike(v, x, parent, name);
    lemma_free_inode_alike(v, x, 1);
    let (w, r) = v.create(parent, name, kind);
    let (y, s) = x.create(parent, name, kind);
    if let Ok(ino) = v.free_inode_from(1) {
        let i = ino as int;
        assert(x.dir_entries(parent) == v.dir_entries(parent));
        match r {
            Ok(_) => {
                lemma_contents(w, w, p);
                lemma_contents(y, y, p);
                assert(contents(w, p).len() == 32 * entries(w, p).len());
                assert(contents(y, p).len() == 32 * entries(y, p).len());
                lemma_rebooked_alike(v, x, w, y, p);
            },
            Err(e) => {
                if e is NoSpace {
                    lemma_full_alike(w, y);
                } else {
                    assert forall|j: int| 0 <= j < w.sb.data_blocks implies #[trigger] taken(y, j)
                        == taken(w, j) by {
                        assert(taken(x, j) == taken(v, j));
                        assert(taken(w, j) == taken(v, j));
                    }
                }
            },
        }
        lemma_contents(w, w, i);
        lemma_contents(y, y, i);
        assert(contents(y, i) =~= contents(w, i));
        assert forall|k: int| is_ino(w, k) implies (#[trigger] node(y, k)).kind == node(w, k).kind
            && (in_use(node(w, k).kind) ==> same_record(node(w, k), node(y, k))) by {
            if k != i && k != p {
                assert(node(w, k) == node(v, k));
                assert(node(y, k) == node(x, k));
            }
        }
        assert forall|k: int| is_ino(w, k) && node(w, k).kind == KIND_FILE implies
            #[trigger] contents(y, k) == contents(w, k) by {
            if k != i && k != p {
                assert(node(w, k) == node(v, k));
                assert(node(y, k) == node(x, k));
                assert(contents(x, k) == contents(v, k));
            } else if k == p {
                assert(contents(x, k) == contents(v, k));
            }
        }
        assert forall|d: u32| #[trigger] y.dir_entries(d) == w.dir_entries(d) by {
            if d != ino && d != parent {
                assert(w.dir_entries(d) == v.dir_entries(d));
                assert(y.dir_entries(d) == x.dir_entries(d));
            }
        }
    }
}

/// Volumes alike stay alike when a file is overwritten on both.
#[verifier::rlimit(60)]
proof fn lemma_overwrite_alike(v: Volume, x: Volume, ino: u32, data: Seq<u8>)
    requires
        sane(v),
        sane(x),
        alike(v, x),
        is_ino(v, ino as int),
    ensures
        x.overwrite(ino, data).1 == v.overwrite(ino, data).1,
        alike(v.overwrite(ino, data).0, x.overwrite(ino, data).0),
{
    let i = ino as int;
    lemma_inode_ok(v, i);
    lemma_inode_ok(x, i);
    assert(node(x, i).kind == node(v, i).kind);
    if node(v, i).kind == KIND_FILE {
        lemma_overwrite(v, i, data);
        lemma_overwrite(x, i, data);
        let (w, r) = v.overwrite(ino, data);
        let (y, s) = x.overwrite(ino, data);
        if data.len() <= 3072 {
            lemma_write_data(v, i, data);
            lemma_write_data(x, i, data);
            let from = blocks_for(node(v, i).size as int);
            let to = blocks_for(data.len() as int);
            lemma_grow_alike(v, x, node(v, i), node(x, i), from, to);
            assert(s is Ok <==> r is Ok);
            if r is Ok {
                lemma_contents(w, w, i);
                lemma_contents(y, y, i);
                lemma_rebooked_alike(v, x, w, y, i);
            } else {
                lemma_full_alike(w, y);
            }
        }
        assert forall|k: int| is_ino(w, k) implies (#[trigger] node(y, k)).kind == node(w, k).kind
            && (in_use(node(w, k).kind) ==> same_record(node(w, k), node(y, k))) by {
            if k != i {
                assert(node(w, k) == node(v, k));
                assert(node(y, k) == node(x, k));
            }
        }
        assert forall|k: int| is_ino(w, k) && node(w, k).kind == KIND_FILE implies
            #[trigger] contents(y, k) == contents(w, k) by {
            assert(contents(x, k) == contents(v, k) || node(v, k).kind != KIND_FILE);
            if k != i {
                assert(node(w, k) == node(v, k));
            }
        }
        assert forall|d: u32| #[trigger] y.dir_entries(d) == w.dir_entries(d) by {
            assert(w.dir_entries(d) == v.dir_entries(d));
            assert(y.dir_entries(d) == x.dir_entries(d));
        }
    }
}

/// Volumes alike stay alike when a file is removed on both.
#[verifier::rlimit(60)]
proof fn lemma_unlink_alike(v: Volume, x: Volume, parent: u32, name: Seq<u8>, ino: u32)
    requires
        sane(v),
        sane(x),
        alike(v, x),
        v.lookup(parent, name) == Ok::<u32, FsError>(ino),
        is_ino(v, ino as int),
    ensures
        x.unlink(parent, name, ino).1 == v.unlink(parent, name, ino).1,
        alike(v.unlink(parent, name, ino).0, x.unlink(parent, name, ino).0),
{
    let i = ino as int;
    let p = parent as int;
    lemma_lookups_alike(v, x);
    lemma_inode_ok(v, i);
    lemma_inode_ok(x, i);
    assert(node(x, i).kind == node(v, i).kind);
    if node(v, i).kind == KIND_FILE {
        let a = lemma_unlink(v, parent, name, ino);
        let b = lemma_unlink(x, parent, name, ino);
        let (w, r) = v.unlink(parent, name, ino);
        let (y, s) = x.unlink(parent, name, ino);
        assert(x.dir_entries(parent) == v.dir_entries(parent));
        assert(has_entry(v, p, b)) by {
            assert(node(x, p).kind == node(v, p).kind);
        }
        assert(a == b) by {
            assert(entry(v, p, b) == entry(x, p, b));
            if a != b {
                assert(entry(v, p, a).name != entry(v, p, b).name);
            }
        }
        lemma_contents(w, w, p);
        lemma_contents(y, y, p);
        assert(contents(w, p).len() == 32 * entries(w, p).len());
        assert(contents(y, p).len() == 32 * entries(y, p).len());
        lemma_contents(v, v, p);
        assert(contents(v, p).len() == 32 * entries(v, p).len());
        let m = blocks_for(node(v, i).size as int);
        let to = blocks_for(node(w, p).size as int);
        let from = blocks_for(node(v, p).size as int);
        assert(same_record(node(v, i), node(x, i)));
        assert(same_record(node(v, p), node(x, p)));
        assert(same_record(node(w, p), node(y, p))) by {
            assert forall|k: int| 0 <= k < to implies #[trigger] node(y, p).direct[k] == node(
                w,
                p,
            ).direct[k] by {
                assert(node(w, p).direct[k] == node(v, p).direct[k]);
                assert(node(y, p).direct[k] == node(x, p).direct[k]);
            }
        }
        assert forall|j: int| 0 <= j < w.sb.data_blocks implies #[trigger] taken(y, j) == taken(
            w,
            j,
        ) by {
            assert(taken(x, j) == taken(v, j));
            lemma_among_alike(v, x, node(v, i), node(x, i), 0, m, j);
            lemma_among_alike(v, x, node(v, p), node(x, p), to, from, j);
            assert(taken(w, j) == (taken(v, j) && !among(v, node(v, i), 0, m, j) && !among(
                v,
                node(v, p),
                to,
                from,
                j,
            )));
        }
        assert forall|k: int| is_ino(w, k) implies (#[trigger] node(y, k)).kind == node(w, k).kind
            && (in_use(node(w, k).kind) ==> same_record(node(w, k), node(y, k))) by {
            if k != i && k != p {
                assert(node(w, k) == node(v, k));
                assert(node(y, k) == node(x, k));
            }
        }
        assert forall|k: int| is_ino(w, k) && node(w, k).kind == KIND_FILE implies
            #[trigger] contents(y, k) == contents(w, k) by {
            if k != i && k != p {
                assert(node(w, k) == node(v, k));
                assert(node(y, k) == node(x, k));
                assert(contents(x, k) == contents(v, k));
            }
        }
        assert forall|d: u32| #[trigger] y.dir_entries(d) == w.dir_entries(d) by {
            if d != parent {
                assert(w.dir_entries(d) == v.dir_entries(d));
                assert(y.dir_entries(d) == x.dir_entries(d));
            }
        }
    }
}

/// On volumes alike a write answers the same and leaves volumes alike.
pub proof fn alike_volumes_write_alike(v: Volume, x: Volume, path: Seq<u8>, data: Seq<u8>)
    requires
        sane(v),
        sane(x),
        alike(v, x),
    ensures
        x.write_file(path, data).1 == v.write_file(path, data).1,
        alike(v.write_file(path, data).0, x.write_file(path, data).0),
{
    let p = components(path);
    alike_volumes_read_alike(v, x, path);
    lemma_lookups_alike(v, x);
    if let Ok((parent, name)) = v.resolve_parent(path) {
        lemma_walk_used(v, p.drop_last());
        lemma_walk_last(v, ROOT_INODE, p);
        lemma_components(path);
        match v.lookup(parent, name) {
            Ok(ino) => {
                lemma_walk_used(v, p);
                lemma_overwrite_alike(v, x, ino, data);
            },
            Err(FsError::NotFound) => {
                lemma_create_alike(v, x, parent, name, KIND_FILE);
                lemma_create(v, parent, name, KIND_FILE);
                lemma_create(x, parent, name, KIND_FILE);
                let (w, r) = v.create(parent, name, KIND_FILE);
                if let Ok(ino) = r {
                    lemma_overwrite_alike(w, x.create(parent, name, KIND_FILE).0, ino, data);
                }
            },
            Err(_) => {},
        }
    }
}

/// On volumes alike `mkdir` answers the same and leaves volumes alike.
pub proof fn alike_volumes_mkdir_alike(v: Volume, x: Volume, path: Seq<u8>)
    requires
        sane(v),
        sane(x),
        alike(v, x),
    ensures
        x.mkdir(path).1 == v.mkdir(path).1,
        alike(v.mkdir(path).0, x.mkdir(path).0),
{
    let p = components(path);
    alike_volumes_read_alike(v, x, path);
    lemma_lookups_alike(v, x);
    if let Ok((parent, name)) = v.resolve_parent(path) {
        lemma_walk_used(v, p.drop_last());
        lemma_components(path);
        if v.lookup(parent, name) is Err {
            lemma_create_alike(v, x, parent, name, KIND_DIR);
        }
    }
}

/// On volumes alike a removal answers the same and leaves volumes alike.
pub proof fn alike_volumes_remove_alike(v: Volume, x: Volume, path: Seq<u8>)
    requires
        sane(v),
        sane(x),
        alike(v, x),
    ensures
        x.remove_file(path).1 == v.remove_file(path).1,
        alike(v.remove_file(path).0, x.remove_file(path).0),
{
    let p = components(path);
    alike_volumes_read_alike(v, x, path);
    lemma_lookups_alike(v, x);
    if p.len() > 0 {
        if let Ok((parent, name)) = v.resolve_parent(path) {
            lemma_walk_last(v, ROOT_INODE, p);
            if let Ok(ino) = v.lookup(parent, name) {
                lemma_walk_used(v, p);
                lemma_unlink_alike(v, x, parent, name, ino);
            }
        }
    }
}

/// A file that is created and then removed leaves no trace that a caller could find:
/// the volume is alike to the one before, so that by the laws above every later
/// call, and every one after it, answers as if neither had been made.
#[verifier::rlimit(80)]
pub proof fn created_and_removed_is_as_before(v: Volume, path: Seq<u8>, data: Seq<u8>)
    requires
        sane(v),
        v.resolve(path) is Err,
        v.write_file(path, data).1 is Ok,
    ensures
        ({
            let u = v.write_file(path, data).0;
            let (x, r) = u.remove_file(path);
            &&& r is Ok
            &&& sane(x)
            &&& alike(v, x)
        }),
{
    let p = components(path);
    let (parent, name) = v.resolve_parent(path)->Ok_0;
    let q = parent as int;
    lemma_walk_last(v, ROOT_INODE, p);
    lemma_walk_used(v, p.drop_last());
    lemma_components(path);
    lemma_inode_ok(v, q);
    lemma_create(v, parent, name, KIND_FILE);
    lemma_create_at(v, path, KIND_FILE);
    let (c, made) = v.create(parent, name, KIND_FILE);
    let ino = made->Ok_0;
    let i = ino as int;
    lemma_overwrite_at(c, path, ino, data);
    lemma_overwrite(c, i, data);
    let u = v.write_file(path, data).0;
    assert(u == c.overwrite(ino, data).0);
    assert(u.dir_entries(parent) == c.dir_entries(parent));
    assert(u.lookup(parent, name) == Ok::<u32, FsError>(ino));
    lemma_walk_last(u, ROOT_INODE, p);
    assert(u.resolve_parent(path) == v.resolve_parent(path)) by {
        assert(!p.is_prefix_of(p.drop_last()));
        lemma_walk_same(c, u, ROOT_INODE, p.drop_last());
    }
    let a = lemma_unlink(u, parent, name, ino);
    let x = u.unlink(parent, name, ino).0;
    assert(u.remove_file(path) == u.unlink(parent, name, ino));
    // The directory that holds the file reads as before.
    let es = entries(v, q);
    let new = Entry { ino, is_dir: false, name };
    assert(v.dir_entries(q as u32) is Ok);
    assert(entries(u, q) == es.push(new));
    assert(a == es.len()) by {
        let last = es.len() as int;
        assert(has_entry(u, q, last) && entry(u, q, last) == new);
        if a != last {
            assert(entry(u, q, a).name != entry(u, q, last).name);
        }
    }
    assert(es.push(new).remove(a) =~= es);
    assert forall|d: u32| #[trigger] x.dir_entries(d) == v.dir_entries(d) by {
        if d != parent {
            assert(x.dir_entries(d) == u.dir_entries(d));
            assert(u.dir_entries(d) == c.dir_entries(d));
            if d == ino {
                lemma_inode_ok(v, i);
            }
        }
    }
    // The sizes of that directory on the way.
    lemma_contents(v, v, q);
    lemma_contents(x, x, q);
    assert(contents(v, q).len() == 32 * es.len());
    assert(contents(x, q).len() == 32 * es.len());
    assert(node(u, q) == node(c, q));
    let from = blocks_for(node(v, q).size as int);
    let to = blocks_for(node(c, q).size as int);
    let m = blocks_for(node(u, i).size as int);
    assert(blocks_for(node(x, q).size as int) == from);
    lemma_contents(c, c, q);
    assert(contents(c, q).len() == 32 * (es.len() + 1));
    assert(from <= to);
    assert(same_record(node(v, q), node(x, q))) by {
        assert forall|k: int| 0 <= k < from implies #[trigger] node(x, q).direct[k] == node(
            v,
            q,
        ).direct[k] by {
            assert(node(x, q).direct[k] == node(u, q).direct[k]);
            assert(node(c, q).direct[k] == node(v, q).direct[k]);
        }
    }
    // Every block taken on the way is given back.
    assert(blocks_for(node(c, i).size as int) == 0);
    assert forall|j: int| 0 <= j < v.sb.data_blocks implies #[trigger] taken(x, j) == taken(
        v,
        j,
    ) by {
        let mine = among(u, node(u, i), 0, m, j);
        let grown = among(u, node(u, q), from, to, j);
        assert(taken(x, j) == (taken(u, j) && !mine && !grown));
        assert(taken(u, j) == (taken(c, j) || mine)) by {
            assert(rebooked(c, u, i));
            lemma_among_alike(c, u, node(u, i), node(u, i), 0, m, j);
            assert(!among(c, node(c, i), m, 0, j));
        }
        assert(taken(c, j) == (taken(v, j) || grown)) by {
            assert(rebooked(v, c, q));
            lemma_among_alike(v, u, node(c, q), node(u, q), from, to, j);
            assert(!among(v, node(v, q), to, from, j));
        }
        if mine {
            let k = choose|k: int|
                0 <= k < m && #[trigger] node(u, i).direct[k] == u.sb.data_start + j;
            assert(!taken(c, node(u, i).direct[k] - c.sb.data_start));
            assert(!taken(c, j));
        }
        if grown {
            let k = choose|k: int|
                from <= k < to && #[trigger] node(u, q).direct[k] == u.sb.data_start + j;
            assert(node(c, q).direct[k] == u.sb.data_start + j);
            assert(!taken(v, node(c, q).direct[k] - v.sb.data_start));
        }
    }
    assert forall|k: int| is_ino(v, k) && k != i && k != q implies #[trigger] node(x, k) == node(
        v,
        k,
    ) && contents(x, k) == contents(v, k) by {
        assert(node(c, k) == node(v, k));
        assert(node(u, k) == node(c, k));
    }
    assert forall|k: int| is_ino(v, k) && node(v, k).kind == KIND_FILE implies
        #[trigger] contents(x, k) == contents(v, k) by {
        assert(node(x, k) == node(v, k));
    }
}

} // verus!

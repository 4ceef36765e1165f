//! What the filesystem promises: what was written reads back, other files stay
//! as they were, a removed file is gone, and every operation keeps the volume in
//! order.
use vstd::prelude::*;
use crate::kernel::bytes::{lemma_le_zero, zeros};
use crate::kernel::fs_blocks::{
    in_data, is_ino, laid_out, lemma_inode_ok, lemma_with_bit, lemma_with_inode, node, same_bits,
    same_data, same_nodes, taken,
};
use crate::kernel::fs_format::{
    blocks_for, empty_node, node_of, superblock_of, superblock_round_trips, FsError, Node, Superblock, KIND_DIR, KIND_FILE, KIND_FREE, ROOT_INODE,
};
use crate::kernel::fs_model::{
    cleared, components, dir_bytes, find, layout, lemma_find_push, links, without, Entry, Volume,
};
use crate::kernel::fs_owned::{
    all_taken, among, contents, held, holds, in_either, lemma_alloc, lemma_contents, lemma_grow_alike, lemma_owned_split,
    lemma_write_data, loose, loose_parts, owned, owned_except, rebooked, same_files, same_shape,
};
use crate::kernel::fs_tree::{
    decoded, entries, entry, has_entry, in_use, is_dir, lemma_components, lemma_decode_dir,
    lemma_dir_bytes, lemma_dir_entries,
    lemma_entries_frame, lemma_entries_from, lemma_entry, lemma_find, lemma_lookup_ok,
    lemma_walk_last, lemma_walk_unique, lemma_walk_used, plain, sane, tree,
};

verus! {

/// Taking one entry out changes what is found only for its name.
proof fn lemma_find_remove(es: Seq<Entry>, a: int, name: Seq<u8>)
    requires
        0 <= a < es.len(),
        es[a].name != name,
    ensures
        find(es.remove(a), name) == find(es, name),
    decreases es.len(),
{
    if a == 0 {
        assert(es.remove(0) =~= es.drop_first());
    } else {
        assert(es.remove(a)[0] == es[0]);
        assert(es.remove(a).drop_first() =~= es.drop_first().remove(a - 1));
        lemma_find_remove(es.drop_first(), a - 1, name);
    }
}

proof fn lemma_without_absent(es: Seq<Entry>, name: Seq<u8>)
    requires
        forall|a: int| 0 <= a < es.len() ==> (#[trigger] es[a]).name != name,
    ensures
        without(es, name) == es,
    decreases es.len(),
{
    if es.len() > 0 {
        let init = es.drop_last();
        assert forall|a: int| 0 <= a < init.len() implies (#[trigger] init[a]).name != name by {
            assert(init[a] == es[a]);
        }
        assert(es.last() == es[es.len() - 1]);
        lemma_without_absent(init, name);
        assert(init.push(es.last()) =~= es);
    } else {
        assert(without(es, name) =~= es);
    }
}

/// Where one entry has the name, taking the name out takes that entry out.
proof fn lemma_without_one(es: Seq<Entry>, name: Seq<u8>, a: int)
    requires
        0 <= a < es.len(),
        es[a].name == name,
        forall|b: int| 0 <= b < es.len() && b != a ==> (#[trigger] es[b]).name != name,
    ensures
        without(es, name) == es.remove(a),
    decreases es.len(),
{
    let init = es.drop_last();
    assert(es.last() == es[es.len() - 1]);
    if a == es.len() - 1 {
        assert forall|b: int| 0 <= b < init.len() implies (#[trigger] init[b]).name != name by {
            assert(init[b] == es[b]);
        }
        lemma_without_absent(init, name);
        assert(init =~= es.remove(a));
    } else {
        assert forall|b: int| 0 <= b < init.len() && b != a implies (#[trigger] init[b]).name
            != name by {
            assert(init[b] == es[b]);
        }
        assert(init[a] == es[a]);
        lemma_without_one(init, name, a);
        assert(init.remove(a).push(es.last()) =~= es.remove(a));
    }
}

/// What can be read of a directory stays, where its contents stay and the inodes
/// it names stay directories or not.
proof fn lemma_dir_kept(v: Volume, w: Volume, d: int)
    requires
        sane(v),
        owned(w),
        same_shape(v, w),
        is_dir(v, d),
        is_dir(w, d),
        contents(w, d) == contents(v, d),
        forall|a: int|
            has_entry(v, d, a) ==> (node(w, (#[trigger] entry(v, d, a)).ino as int).kind
                == KIND_DIR) == (node(v, entry(v, d, a).ino as int).kind == KIND_DIR),
    ensures
        w.dir_entries(d as u32) == v.dir_entries(d as u32),
{
    lemma_dir_entries(v, d);
    lemma_dir_entries(w, d);
    assert(v.dir_entries(d as u32) is Ok);
    lemma_entries_from(v, contents(v, d), 0);
    let es = v.entries_from(contents(v, d), 0)->Ok_0;
    assert forall|a: int| 0 <= a < es.len() implies (node(w, (#[trigger] es[a]).ino as int).kind
        == KIND_DIR) == es[a].is_dir by {
        assert(has_entry(v, d, a));
        assert(entry(v, d, a) == es[a]);
    }
    lemma_entries_frame(v, w, contents(v, d), 0);
}

/// The directories read the same on both volumes, but for `except`.
pub open spec fn same_dirs(v: Volume, w: Volume, except: int) -> bool {
    forall|d: u32| d != except ==> #[trigger] w.dir_entries(d) == v.dir_entries(d)
}

/// A tree stays a tree where one inode that nothing names becomes empty, and all
/// other inodes keep their kinds, and directories their contents.
#[verifier::rlimit(60)]
proof fn lemma_tree_kept(v: Volume, w: Volume, fresh: int)
    requires
        sane(v),
        owned(w),
        same_shape(v, w),
        fresh != 0,
        is_ino(v, fresh) ==> node(v, fresh).kind == KIND_FREE && node(w, fresh).size == 0,
        forall|i: int|
            is_ino(v, i) && i != fresh ==> (#[trigger] node(w, i)).kind == node(v, i).kind,
        forall|d: int|
            is_dir(v, d) && d != fresh ==> #[trigger] contents(w, d) == contents(v, d),
    ensures
        sane(w),
        same_dirs(v, w, fresh),
        is_dir(w, fresh) ==> w.dir_entries(fresh as u32) == Ok::<Seq<Entry>, FsError>(Seq::empty()),
{
    lemma_inode_ok(v, 0);
    assert forall|d: int, a: int| has_entry(v, d, a) implies (#[trigger] entry(v, d, a)).ino
        != fresh by {
        lemma_entry(v, d, a);
    }
    assert forall|d: u32| d != fresh implies #[trigger] w.dir_entries(d) == v.dir_entries(d) by {
        if is_ino(v, d as int) {
            assert(node(w, d as int).kind == node(v, d as int).kind);
            lemma_inode_ok(v, d as int);
            lemma_inode_ok(w, d as int);
            if is_dir(v, d as int) {
                assert(contents(w, d as int) == contents(v, d as int));
                assert forall|a: int| has_entry(v, d as int, a) implies (node(
                    w,
                    (#[trigger] entry(v, d as int, a)).ino as int,
                ).kind == KIND_DIR) == (node(v, entry(v, d as int, a).ino as int).kind
                    == KIND_DIR) by {
                    lemma_entry(v, d as int, a);
                }
                lemma_dir_kept(v, w, d as int);
            }
        }
    }
    if is_dir(w, fresh) {
        lemma_dir_entries(w, fresh);
        lemma_contents(w, w, fresh);
        assert(w.entries_from(contents(w, fresh), 0) == Ok::<Seq<Entry>, FsError>(Seq::empty()));
    }
    assert(node(w, 0).kind == node(v, 0).kind);
    assert forall|d: int| is_dir(w, d) implies (#[trigger] w.dir_entries(d as u32)) is Ok by {
        if d != fresh {
            assert(node(w, d).kind == node(v, d).kind);
            assert(v.dir_entries(d as u32) is Ok);
        }
    }
    assert forall|d: int, a: int| has_entry(w, d, a) implies has_entry(v, d, a) && #[trigger] entry(
        w,
        d,
        a,
    ) == entry(v, d, a) && d != fresh by {
        if d != fresh {
            assert(node(w, d).kind == node(v, d).kind);
            assert(w.dir_entries(d as u32) == v.dir_entries(d as u32));
        }
    }
    assert forall|d: int| is_dir(w, d) implies #[trigger] contents(w, d).len() == 32 * entries(
        w,
        d,
    ).len() by {
        if d != fresh {
            assert(node(w, d).kind == node(v, d).kind);
            assert(w.dir_entries(d as u32) == v.dir_entries(d as u32));
            assert(contents(w, d) == contents(v, d));
        }
    }
    assert forall|d: int, a: int| has_entry(w, d, a) implies plain(
        (#[trigger] entry(w, d, a)).name,
    ) by {
        assert(has_entry(v, d, a) && entry(w, d, a) == entry(v, d, a));
    }
    assert forall|d: int, a: int| has_entry(w, d, a) implies in_use(
        node(w, (#[trigger] entry(w, d, a)).ino as int).kind,
    ) by {
        assert(has_entry(v, d, a) && entry(w, d, a) == entry(v, d, a));
        lemma_entry(v, d, a);
    }
    assert forall|d: int, a: int, b: int| has_entry(w, d, a) && has_entry(w, d, b) && a != b implies
        (#[trigger] entry(w, d, a)).name != (#[trigger] entry(w, d, b)).name by {
        assert(entry(w, d, a) == entry(v, d, a) && entry(w, d, b) == entry(v, d, b));
    }
    assert forall|d: int, a: int, e: int, b: int|
        has_entry(w, d, a) && has_entry(w, e, b) && (d != e || a != b) implies (#[trigger] entry(
        w,
        d,
        a,
    )).ino != (#[trigger] entry(w, e, b)).ino by {
        assert(entry(w, d, a) == entry(v, d, a) && entry(w, e, b) == entry(v, e, b));
    }
}

/// Replacing the contents of a file keeps the tree.
pub proof fn lemma_overwrite(v: Volume, ino: int, data: Seq<u8>)
    requires
        sane(v),
        is_ino(v, ino),
        node(v, ino).kind == KIND_FILE,
    ensures
        ({
            let (w, r) = v.overwrite(ino as u32, data);
            &&& sane(w)
            &&& same_shape(v, w)
            &&& same_dirs(v, w, -1)
            &&& same_files(v, w, ino)
            &&& node(w, ino).kind == KIND_FILE
            &&& match r {
                Ok(i) => i == ino && data.len() <= 3072 && contents(w, ino) == data && rebooked(
                    v,
                    w,
                    ino,
                ),
                Err(e) => {
                    &&& e is TooLarge ==> w == v
                    &&& data.len() > 3072 <==> e is TooLarge
                    &&& data.len() <= 3072 ==> e is NoSpace && all_taken(w)
                    &&& node(w, ino) == node(v, ino)
                    &&& contents(w, ino) == contents(v, ino)
                },
            }
        }),
{
    lemma_inode_ok(v, ino);
    lemma_write_data(v, ino, data);
    let w = v.overwrite(ino as u32, data).0;
    assert forall|i: int| is_ino(v, i) && i != -1 implies (#[trigger] node(w, i)).kind == node(
        v,
        i,
    ).kind by {}
    lemma_tree_kept(v, w, -1);
}

/// The first free inode.
pub proof fn lemma_free_inode(v: Volume, from: int)
    requires
        laid_out(v),
        1 <= from,
    ensures
        match v.free_inode_from(from) {
            Ok(i) => is_ino(v, i as int) && i >= from && node(v, i as int).kind == KIND_FREE,
            Err(e) => e is NoSpace && forall|i: int|
                is_ino(v, i) && i >= from ==> (#[trigger] node(v, i)).kind != KIND_FREE,
        },
    decreases v.sb.inode_count - from,
{
    if from < v.sb.inode_count {
        lemma_inode_ok(v, from);
        lemma_free_inode(v, from + 1);
    }
}

/// Replacing an inode that holds nothing by an empty one keeps blocks in order.
proof fn lemma_reset_inode(v: Volume, ino: int, kind: u32)
    requires
        owned_except(v, ino),
        is_ino(v, ino),
    ensures
        v.with_inode(ino as u32, empty_node(kind)).1 is Ok,
        ({
            let w = v.with_inode(ino as u32, empty_node(kind)).0;
            &&& owned(w)
            &&& same_shape(v, w)
            &&& node(w, ino) == empty_node(kind)
            &&& same_nodes(v, w, ino)
            &&& same_bits(v, w, -1)
            &&& same_data(v, w, -1)
        }),
{
    let n = empty_node(kind);
    lemma_with_inode(v, ino, n);
    let w = v.with_inode(ino as u32, n).0;
    assert forall|i: int| is_ino(w, i) implies (#[trigger] node(w, i)).size <= 3072 by {
        if i != ino {
            assert(node(v, i).size <= 3072);
        }
    }
    assert forall|i: int, k: int| i != -1 && holds(w, i, k) implies in_data(
        w.sb,
        #[trigger] held(w, i, k),
    ) && taken(w, held(w, i, k) - w.sb.data_start) by {
        assert(i != ino);
        assert(node(w, i) == node(v, i));
        assert(holds(v, i, k));
        assert(held(v, i, k) == held(w, i, k));
        assert(taken(v, held(v, i, k) - v.sb.data_start));
    }
    assert forall|i: int, k: int, j: int, l: int|
        i != -1 && j != -1 && holds(w, i, k) && holds(w, j, l) && (i != j || k != l) implies
        #[trigger] held(w, i, k) != #[trigger] held(w, j, l) by {
        assert(i != ino && j != ino);
        assert(node(w, i) == node(v, i) && node(w, j) == node(v, j));
        assert(held(v, i, k) != held(v, j, l));
    }
}

/// Why directory `parent` of `v` takes no new inode called `name`: no inode is
/// free, the name is too long, it is no directory, it is full, or it needs a block
/// more and none is left.
pub open spec fn refusal(v: Volume, parent: u32, name: Seq<u8>) -> Option<FsError> {
    if v.free_inode_from(1) is Err {
        Some(FsError::NoSpace)
    } else if name.len() > 23 {
        Some(FsError::TooLarge)
    } else if !is_dir(v, parent as int) {
        Some(FsError::WrongKind)
    } else if entries(v, parent as int).len() >= 96 {
        Some(FsError::TooLarge)
    } else if entries(v, parent as int).len() % 16 == 0 && all_taken(v) {
        Some(FsError::NoSpace)
    } else {
        None
    }
}

/// Growing by one block fails where none is left, and only there.
proof fn lemma_grow_one(v: Volume, n: Node, from: int, to: int)
    requires
        laid_out(v),
        to <= from + 1,
    ensures
        v.grow(n, from, to).2 is Err <==> from < to && all_taken(v),
{
    reveal_with_fuel(Volume::grow, 2);
    lemma_alloc(v, 0);
}

/// What creating an inode does.
#[verifier::rlimit(60)]
pub proof fn lemma_create(v: Volume, parent: u32, name: Seq<u8>, kind: u32)
    requires
        sane(v),
        is_ino(v, parent as int),
        node(v, parent as int).kind != KIND_FREE,
        v.lookup(parent, name) is Err,
        plain(name),
        kind == KIND_FILE || kind == KIND_DIR,
    ensures
        ({
            let (w, r) = v.create(parent, name, kind);
            match refusal(v, parent, name) {
                Some(e) => r == Err::<u32, FsError>(e),
                None => r is Ok,
            }
        }),
        ({
            let (w, r) = v.create(parent, name, kind);
            let fresh = v.free_inode_from(1);
            &&& sane(w)
            &&& same_shape(v, w)
            &&& match fresh {
                Err(e) => w == v && r == Err::<u32, FsError>(e) && e is NoSpace,
                Ok(ino) => {
                    &&& ino != 0
                    &&& is_ino(v, ino as int)
                    &&& ino != parent
                    &&& node(v, ino as int).kind == KIND_FREE
                    &&& node(w, ino as int) == empty_node(kind)
                    &&& node(w, parent as int).kind == node(v, parent as int).kind
                    &&& forall|i: int|
                        is_ino(v, i) && i != ino && i != parent ==> #[trigger] node(w, i) == node(
                            v,
                            i,
                        ) && contents(w, i) == contents(v, i)
                    &&& forall|d: u32|
                        d != ino && d != parent ==> #[trigger] w.dir_entries(d) == v.dir_entries(d)
                    &&& kind == KIND_DIR ==> w.dir_entries(ino) == Ok::<Seq<Entry>, FsError>(
                        Seq::empty(),
                    )
                    &&& kind == KIND_FILE ==> w.dir_entries(ino) == Err::<Seq<Entry>, FsError>(
                        FsError::WrongKind,
                    )
                    &&& match r {
                        Ok(i) => {
                            &&& i == ino
                            &&& is_dir(v, parent as int)
                            &&& rebooked(v, w, parent as int)
                            &&& w.dir_entries(parent) == Ok::<Seq<Entry>, FsError>(
                                entries(v, parent as int).push(
                                    Entry { ino, is_dir: kind == KIND_DIR, name },
                                ),
                            )
                        },
                        Err(e) => {
                            &&& w.dir_entries(parent) == v.dir_entries(parent)
                            &&& contents(w, parent as int) == contents(v, parent as int)
                            &&& node(w, parent as int) == node(v, parent as int)
                            &&& e is NoSpace ==> all_taken(w)
                            &&& !(e is NoSpace) ==> same_bits(v, w, -1)
                        },
                    }
                },
            }
        }),
{
    lemma_free_inode(v, 1);
    if let Ok(ino) = v.free_inode_from(1) {
        let i = ino as int;
        let p = parent as int;
        lemma_owned_split(v, i);
        lemma_reset_inode(v, i, kind);
        let v1 = v.with_inode(ino, empty_node(kind)).0;
        assert forall|j: int| is_ino(v, j) && j != i implies #[trigger] node(v1, j) == node(v, j)
            && contents(v1, j) == contents(v, j) by {
            lemma_contents(v, v1, j);
        }
        lemma_tree_kept(v, v1, i);
        lemma_inode_ok(v1, i);
        assert(v1.dir_entries(parent) == v.dir_entries(parent));
        let (w, r) = v.create(parent, name, kind);
        if name.len() <= 23 && v1.dir_entries(parent) is Ok {
            lemma_inode_ok(v1, p);
            assert(is_dir(v1, p));
            let es = entries(v1, p);
            let ls = links(es).push((ino, name));
            lemma_write_data(v1, p, dir_bytes(ls));
            lemma_room(v, v1, p, ino, name);
            if r is Err {
                lemma_tree_kept(v1, w, -1);
                assert forall|j: int| is_ino(v, j) && j != ino && j != parent implies
                    #[trigger] node(w, j) == node(v, j) && contents(w, j) == contents(v, j) by {
                    assert(node(v1, j) == node(v, j));
                }
                assert forall|d: u32| d != ino && d != parent implies #[trigger] w.dir_entries(d)
                    == v.dir_entries(d) by {
                    assert(v1.dir_entries(d) == v.dir_entries(d));
                }
                assert(v1.dir_entries(ino) == w.dir_entries(ino));
                assert(node(w, p) == node(v1, p));
            } else {
                assert forall|d: int, a: int| has_entry(v1, d, a) implies (#[trigger] entry(
                    v1,
                    d,
                    a,
                )).ino != ino by {
                    if d != i {
                        assert(v1.dir_entries(d as u32) == v.dir_entries(d as u32));
                        assert(node(v1, d) == node(v, d));
                        assert(has_entry(v, d, a) && entry(v, d, a) == entry(v1, d, a));
                    }
                }
                lemma_link(v1, w, p, ino, name);
                assert(rebooked(v, w, p)) by {
                    assert(node(v1, p) == node(v, p));
                    lemma_rebooked_from(v, v1, w, p);
                }
                assert(node(w, i) == node(v1, i));
                assert forall|j: int| is_ino(v, j) && j != ino && j != parent implies
                    #[trigger] node(w, j) == node(v, j) && contents(w, j) == contents(v, j) by {
                    assert(node(v1, j) == node(v, j));
                }
                assert forall|d: u32| d != ino && d != parent implies #[trigger] w.dir_entries(d)
                    == v.dir_entries(d) by {
                    assert(v1.dir_entries(d) == v.dir_entries(d));
                }
                assert(v1.dir_entries(ino) == w.dir_entries(ino));
            }
        } else {
            assert(w == v1);
        }
    }
}

/// Where only inodes changed before, the blocks taken and given back are the same.
proof fn lemma_rebooked_from(v: Volume, v1: Volume, w: Volume, p: int)
    requires
        laid_out(v),
        laid_out(v1),
        same_shape(v, v1),
        same_bits(v, v1, -1),
        node(v1, p) == node(v, p),
        rebooked(v1, w, p),
        owned(w),
        same_shape(v1, w),
        is_ino(v, p),
    ensures
        rebooked(v, w, p),
{
    let n = node(v, p);
    let m = node(w, p);
    let from = blocks_for(n.size as int);
    let to = blocks_for(m.size as int);
    lemma_inode_ok(v, p);
    assert(m.size <= 3072);
    lemma_grow_alike(v, v1, n, n, from, to);
    assert forall|k: int| from <= k < to implies !taken(
        v,
        #[trigger] m.direct[k] - v.sb.data_start,
    ) by {
        assert(holds(w, p, k));
        assert(in_data(w.sb, held(w, p, k)));
        assert(!taken(v1, m.direct[k] - v.sb.data_start));
    }
    assert forall|j: int| 0 <= j < v.sb.data_blocks implies #[trigger] taken(w, j) == ((taken(v, j)
        && !among(v, n, to, from, j)) || among(v, m, from, to, j)) by {
        assert(taken(v1, j) == taken(v, j));
        assert(among(v1, n, to, from, j) == among(v, n, to, from, j));
        assert(among(v1, m, from, to, j) == among(v, m, from, to, j));
    }
}

/// When a directory has room for one entry more. `w` is `v` with an inode taken.
proof fn lemma_room(v: Volume, w: Volume, p: int, ino: u32, name: Seq<u8>)
    requires
        sane(w),
        same_shape(v, w),
        is_dir(w, p),
        same_bits(v, w, -1),
        name.len() <= 23,
    ensures
        ({
            let data = dir_bytes(links(entries(w, p)).push((ino, name)));
            let from = blocks_for(node(w, p).size as int);
            let to = blocks_for(data.len() as int);
            &&& data.len() > 3072 <==> entries(w, p).len() >= 96
            &&& data.len() <= 3072 ==> (w.grow(node(w, p), from, to).2 is Err <==> entries(
                w,
                p,
            ).len() % 16 == 0 && all_taken(v))
        }),
{
    let es = entries(w, p);
    let ls = links(es).push((ino, name));
    assert forall|a: int| 0 <= a < ls.len() implies (#[trigger] ls[a]).1.len() <= 23 by {
        if a < es.len() {
            assert(has_entry(w, p, a));
            lemma_entry(w, p, a);
        }
    }
    lemma_dir_bytes(ls);
    lemma_contents(w, w, p);
    assert(contents(w, p).len() == 32 * es.len());
    let from = blocks_for(node(w, p).size as int);
    let to = blocks_for(dir_bytes(ls).len() as int);
    lemma_grow_one(w, node(w, p), from, to);
    if all_taken(w) {
        assert forall|j: int| 0 <= j < v.sb.data_blocks implies #[trigger] taken(v, j) by {
            assert(taken(w, j));
        }
    }
}

/// What adding an entry for an inode that nothing names does to the tree.
#[verifier::rlimit(60)]
proof fn lemma_link(v: Volume, w: Volume, p: int, ino: u32, name: Seq<u8>)
    requires
        sane(v),
        owned(w),
        same_shape(v, w),
        is_dir(v, p),
        ino != 0,
        ino != p,
        is_ino(v, ino as int),
        in_use(node(v, ino as int).kind),
        forall|d: int, a: int| has_entry(v, d, a) ==> (#[trigger] entry(v, d, a)).ino != ino,
        name.len() <= 23,
        plain(name),
        find(entries(v, p), name) is None,
        same_files(v, w, p),
        node(w, p).kind == KIND_DIR,
        contents(w, p) == dir_bytes(links(entries(v, p)).push((ino, name))),
    ensures
        sane(w),
        same_dirs(v, w, p),
        w.dir_entries(p as u32) == Ok::<Seq<Entry>, FsError>(
            entries(v, p).push(
                Entry { ino, is_dir: node(v, ino as int).kind == KIND_DIR, name },
            ),
        ),
{
    let es = entries(v, p);
    let ls = links(es).push((ino, name));
    let new = Entry { ino, is_dir: node(v, ino as int).kind == KIND_DIR, name };
    assert forall|i: int| is_ino(v, i) implies (#[trigger] node(w, i)).kind == node(v, i).kind by {}
    assert forall|a: int| 0 <= a < ls.len() implies (#[trigger] ls[a]).1.len() <= 23 && ls[a].0 != 0
        && is_ino(w, ls[a].0 as int) by {
        if a < es.len() {
            assert(has_entry(v, p, a));
            lemma_entry(v, p, a);
            assert(entry(v, p, a) == es[a]);
        }
    }
    lemma_decode_dir(w, ls, 0);
    lemma_dir_bytes(ls);
    let ds = decoded(w, ls);
    assert(ds.subrange(0, ls.len() as int) =~= ds);
    assert forall|a: int| 0 <= a < ls.len() implies ds[a] == es.push(new)[a] by {
        if a < es.len() {
            assert(has_entry(v, p, a));
            lemma_entry(v, p, a);
            assert(entry(v, p, a) == es[a]);
            assert(node(w, es[a].ino as int).kind == node(v, es[a].ino as int).kind);
        } else {
            assert(node(w, ino as int).kind == node(v, ino as int).kind);
        }
    }
    assert(ds =~= es.push(new));
    lemma_dir_entries(w, p);
    assert forall|d: u32| d != p implies #[trigger] w.dir_entries(d) == v.dir_entries(d) by {
        if is_ino(v, d as int) {
            assert(node(w, d as int) == node(v, d as int));
            lemma_inode_ok(v, d as int);
            lemma_inode_ok(w, d as int);
            if is_dir(v, d as int) {
                assert forall|a: int| has_entry(v, d as int, a) implies (node(
                    w,
                    (#[trigger] entry(v, d as int, a)).ino as int,
                ).kind == KIND_DIR) == (node(v, entry(v, d as int, a).ino as int).kind
                    == KIND_DIR) by {
                    lemma_entry(v, d as int, a);
                }
                assert(contents(w, d as int) == contents(v, d as int));
                lemma_dir_kept(v, w, d as int);
            }
        }
    }
    // Every entry of the new tree is one of the old tree, or the new one.
    assert forall|d: int, a: int| has_entry(w, d, a) implies (if d == p && a == es.len() {
        #[trigger] entry(w, d, a) == new
    } else {
        has_entry(v, d, a) && entry(w, d, a) == entry(v, d, a)
    }) by {
        assert(node(w, d).kind == node(v, d).kind);
        if d != p {
            assert(w.dir_entries(d as u32) == v.dir_entries(d as u32));
        }
    }
    assert(node(w, 0).kind == node(v, 0).kind) by {
        lemma_inode_ok(v, 0);
    }
    assert forall|d: int| is_dir(w, d) implies (#[trigger] w.dir_entries(d as u32)) is Ok by {
        assert(node(w, d).kind == node(v, d).kind);
        assert(v.dir_entries(d as u32) is Ok);
    }
    assert forall|d: int| is_dir(w, d) implies #[trigger] contents(w, d).len() == 32 * entries(
        w,
        d,
    ).len() by {
        if d != p {
            assert(node(w, d).kind == node(v, d).kind);
            assert(w.dir_entries(d as u32) == v.dir_entries(d as u32));
            assert(contents(w, d) == contents(v, d));
        }
    }
    assert forall|d: int, a: int| has_entry(w, d, a) implies plain(
        (#[trigger] entry(w, d, a)).name,
    ) by {
        if !(d == p && a == es.len()) {
            assert(has_entry(v, d, a) && entry(w, d, a) == entry(v, d, a));
        }
    }
    assert forall|d: int, a: int| has_entry(w, d, a) implies in_use(
        node(w, (#[trigger] entry(w, d, a)).ino as int).kind,
    ) by {
        if !(d == p && a == es.len()) {
            lemma_entry(v, d, a);
        }
    }
    assert forall|d: int, a: int, b: int| has_entry(w, d, a) && has_entry(w, d, b) && a != b implies
        (#[trigger] entry(w, d, a)).name != (#[trigger] entry(w, d, b)).name by {
        lemma_find(es, name);
        if d == p && a == es.len() {
            assert(es[b].name != name);
        } else if d == p && b == es.len() {
            assert(es[a].name != name);
        } else {
            assert(entry(v, d, a).name != entry(v, d, b).name);
        }
    }
    assert forall|d: int, a: int, e: int, b: int|
        has_entry(w, d, a) && has_entry(w, e, b) && (d != e || a != b) implies (#[trigger] entry(
        w,
        d,
        a,
    )).ino != (#[trigger] entry(w, e, b)).ino by {
        if d == p && a == es.len() {
            assert(entry(v, e, b).ino != ino);
        } else if e == p && b == es.len() {
            assert(entry(v, d, a).ino != ino);
        } else {
            assert(entry(v, d, a).ino != entry(v, e, b).ino);
        }
    }
}

/// What giving back all blocks of an inode does.
proof fn lemma_free_data(v: Volume, ino: int, n: Node, k: int)
    requires
        owned_except(v, ino),
        n.size <= 3072,
        0 <= k,
        loose_parts(v, ino, n, 0, k, blocks_for(n.size as int)),
    ensures
        ({
            let (w, r) = v.free_data(n, k);
            &&& r is Ok
            &&& owned_except(w, ino)
            &&& same_shape(v, w)
            &&& same_nodes(v, w, -1)
            &&& same_data(v, w, -1)
            &&& forall|l: int|
                k <= l < blocks_for(n.size as int) ==> !taken(
                    w,
                    #[trigger] n.direct[l] - v.sb.data_start,
                )
            &&& forall|j: int|
                0 <= j < v.sb.data_blocks && !taken(v, j) ==> !(#[trigger] taken(w, j))
            &&& forall|j: int|
                0 <= j < v.sb.data_blocks ==> #[trigger] taken(w, j) == (taken(v, j) && !among(
                    v,
                    n,
                    k,
                    blocks_for(n.size as int),
                    j,
                ))
        }),
    decreases 6 - k,
{
    let m = blocks_for(n.size as int);
    if k < m {
        let lba = n.direct[k];
        assert(in_either(k, 0, k, m));
        assert(in_data(v.sb, lba as int));
        let j = lba - v.sb.data_start;
        lemma_with_bit(v, j, false);
        let v1 = v.with_bit(j, false).0;
        assert forall|i: int, l: int| i != ino && holds(v1, i, l) implies in_data(
            v1.sb,
            #[trigger] held(v1, i, l),
        ) && taken(v1, held(v1, i, l) - v1.sb.data_start) by {
            assert(node(v1, i) == node(v, i));
            assert(holds(v, i, l));
            assert(n.direct[k] != held(v, i, l));
        }
        assert forall|i: int, a: int, i2: int, b: int|
            i != ino && i2 != ino && holds(v1, i, a) && holds(v1, i2, b) && (i != i2 || a
                != b) implies #[trigger] held(v1, i, a) != #[trigger] held(v1, i2, b) by {
            assert(node(v1, i) == node(v, i));
            assert(node(v1, i2) == node(v, i2));
            assert(held(v, i, a) != held(v, i2, b));
        }
        assert forall|l: int| in_either(l, 0, k + 1, m) implies in_data(
            v1.sb,
            #[trigger] n.direct[l] as int,
        ) && taken(v1, n.direct[l] - v1.sb.data_start) by {
            assert(in_either(l, 0, k, m));
            assert(n.direct[l] != n.direct[k]);
        }
        assert forall|a: int, b: int|
            in_either(a, 0, k + 1, m) && in_either(b, 0, k + 1, m) && a != b implies
            #[trigger] n.direct[a] != #[trigger] n.direct[b] by {
            assert(in_either(a, 0, k, m) && in_either(b, 0, k, m));
        }
        assert forall|a: int, i: int, l: int|
            in_either(a, 0, k + 1, m) && i != ino && holds(v1, i, l) implies #[trigger] n.direct[a]
            != #[trigger] held(v1, i, l) by {
            assert(in_either(a, 0, k, m));
            assert(node(v1, i) == node(v, i));
            assert(holds(v, i, l));
            assert(n.direct[a] != held(v, i, l));
        }
        lemma_free_data(v1, ino, n, k + 1);
        let w = v1.free_data(n, k + 1).0;
        assert forall|i: int| is_ino(v, i) implies #[trigger] node(w, i) == node(v, i) by {
            assert(node(v1, i) == node(v, i));
        }
        assert forall|x: int| in_data(v.sb, x) implies #[trigger] w.blocks[x] == v.blocks[x] by {
            assert(v1.blocks[x] == v.blocks[x]);
        }
        assert(!taken(v1, j));
        assert(!taken(w, j));
        assert forall|l: int| 0 <= l < v.sb.data_blocks && !taken(v, l) implies !(#[trigger] taken(
            w,
            l,
        )) by {
            assert(!taken(v1, l));
        }
        assert forall|x: int| 0 <= x < v.sb.data_blocks implies #[trigger] taken(w, x) == (taken(
            v,
            x,
        ) && !among(v, n, k, m, x)) by {
            assert(taken(w, x) == (taken(v1, x) && !among(v1, n, k + 1, m, x)));
            if among(v, n, k, m, x) {
                let l = choose|l: int|
                    k <= l < m && #[trigger] n.direct[l] == v.sb.data_start + x;
                if l > k {
                    assert(among(v1, n, k + 1, m, x));
                }
            }
            if among(v1, n, k + 1, m, x) {
                let l = choose|l: int|
                    k + 1 <= l < m && #[trigger] n.direct[l] == v.sb.data_start + x;
                assert(k <= l < m);
            }
            if x == j {
                assert(n.direct[k] == v.sb.data_start + x);
            } else {
                assert(taken(v1, x) == taken(v, x));
            }
        }
    }
}

/// What taking the entry of an inode that is no longer in use out does to the
/// tree. `v` is the volume before the inode was freed.
#[verifier::rlimit(60)]
proof fn lemma_unlink_entry(v: Volume, v2: Volume, w: Volume, p: int, ino: u32, a0: int)
    requires
        sane(v),
        owned(v2),
        owned(w),
        same_shape(v, v2),
        same_shape(v2, w),
        has_entry(v, p, a0),
        entry(v, p, a0).ino == ino,
        node(v, ino as int).kind == KIND_FILE,
        node(v2, ino as int) == empty_node(KIND_FREE),
        same_files(v, v2, ino as int),
        same_files(v2, w, p),
        node(w, p).kind == KIND_DIR,
        contents(w, p) == dir_bytes(links(entries(v, p).remove(a0))),
    ensures
        sane(w),
        same_dirs(v, w, p),
        w.dir_entries(p as u32) == Ok::<Seq<Entry>, FsError>(entries(v, p).remove(a0)),
{
    let es = entries(v, p);
    let kept = es.remove(a0);
    let ls = links(kept);
    lemma_entry(v, p, a0);
    assert(ino != p);
    assert(node(w, ino as int) == node(v2, ino as int));
    assert forall|i: int| is_ino(v, i) && i != ino implies (#[trigger] node(w, i)).kind == node(
        v,
        i,
    ).kind by {
        assert(node(v2, i) == node(v, i));
    }
    assert forall|b: int| 0 <= b < kept.len() implies ({
        let a = if b < a0 {
            b
        } else {
            b + 1
        };
        &&& #[trigger] kept[b] == entry(v, p, a)
        &&& has_entry(v, p, a)
        &&& a != a0
    }) by {}
    assert forall|b: int| 0 <= b < ls.len() implies (#[trigger] ls[b]).1.len() <= 23 && ls[b].0 != 0
        && is_ino(w, ls[b].0 as int) && decoded(w, ls)[b] == kept[b] by {
        let a = if b < a0 {
            b
        } else {
            b + 1
        };
        assert(kept[b] == entry(v, p, a));
        lemma_entry(v, p, a);
        assert(entry(v, p, a).ino != entry(v, p, a0).ino);
        assert(node(w, kept[b].ino as int).kind == node(v, kept[b].ino as int).kind);
    }
    lemma_decode_dir(w, ls, 0);
    lemma_dir_bytes(ls);
    let ds = decoded(w, ls);
    assert(ds.subrange(0, ls.len() as int) =~= ds);
    assert(ds =~= kept);
    lemma_dir_entries(w, p);
    assert forall|d: u32| d != p implies #[trigger] w.dir_entries(d) == v.dir_entries(d) by {
        if is_ino(v, d as int) {
            lemma_inode_ok(v, d as int);
            lemma_inode_ok(w, d as int);
            if d != ino {
                assert(node(w, d as int) == node(v2, d as int));
                assert(node(v2, d as int) == node(v, d as int));
                if is_dir(v, d as int) {
                    assert forall|a: int| has_entry(v, d as int, a) implies (node(
                        w,
                        (#[trigger] entry(v, d as int, a)).ino as int,
                    ).kind == KIND_DIR) == (node(v, entry(v, d as int, a).ino as int).kind
                        == KIND_DIR) by {
                        lemma_entry(v, d as int, a);
                        assert(entry(v, d as int, a).ino != entry(v, p, a0).ino);
                    }
                    assert(contents(w, d as int) == contents(v2, d as int));
                    assert(contents(v2, d as int) == contents(v, d as int));
                    lemma_dir_kept(v, w, d as int);
                }
            }
        }
    }
    // Every entry of the new tree is one of the old tree, and not the removed one.
    assert forall|d: int, b: int| has_entry(w, d, b) implies ({
        let a = if d == p && b >= a0 {
            b + 1
        } else {
            b
        };
        &&& #[trigger] entry(w, d, b) == entry(v, d, a)
        &&& has_entry(v, d, a)
        &&& !(d == p && a == a0)
    }) by {
        assert(d != ino);
        assert(node(w, d).kind == node(v, d).kind);
        if d != p {
            assert(w.dir_entries(d as u32) == v.dir_entries(d as u32));
        } else {
            assert(entry(w, d, b) == kept[b]);
        }
    }
    assert(node(w, 0).kind == node(v, 0).kind) by {
        lemma_inode_ok(v, 0);
    }
    assert forall|d: int| is_dir(w, d) implies (#[trigger] w.dir_entries(d as u32)) is Ok by {
        assert(d != ino);
        assert(node(w, d).kind == node(v, d).kind);
        assert(v.dir_entries(d as u32) is Ok);
    }
    assert forall|d: int| is_dir(w, d) implies #[trigger] contents(w, d).len() == 32 * entries(
        w,
        d,
    ).len() by {
        if d != p {
            assert(d != ino);
            assert(node(w, d).kind == node(v, d).kind);
            assert(w.dir_entries(d as u32) == v.dir_entries(d as u32));
            assert(contents(w, d) == contents(v2, d));
            assert(contents(v2, d) == contents(v, d));
        }
    }
    assert forall|d: int, b: int| has_entry(w, d, b) implies plain(
        (#[trigger] entry(w, d, b)).name,
    ) by {
        let a = if d == p && b >= a0 {
            b + 1
        } else {
            b
        };
        assert(entry(w, d, b) == entry(v, d, a));
        assert(has_entry(v, d, a));
    }
    assert forall|d: int, b: int| has_entry(w, d, b) implies in_use(
        node(w, (#[trigger] entry(w, d, b)).ino as int).kind,
    ) by {
        let a = if d == p && b >= a0 {
            b + 1
        } else {
            b
        };
        assert(entry(w, d, b) == entry(v, d, a));
        lemma_entry(v, d, a);
        assert(entry(v, d, a).ino != entry(v, p, a0).ino);
    }
    assert forall|d: int, b: int, c: int| has_entry(w, d, b) && has_entry(w, d, c) && b != c implies
        (#[trigger] entry(w, d, b)).name != (#[trigger] entry(w, d, c)).name by {
        let a1 = if d == p && b >= a0 {
            b + 1
        } else {
            b
        };
        let a2 = if d == p && c >= a0 {
            c + 1
        } else {
            c
        };
        assert(entry(v, d, a1).name != entry(v, d, a2).name);
    }
    assert forall|d: int, b: int, e: int, c: int|
        has_entry(w, d, b) && has_entry(w, e, c) && (d != e || b != c) implies (#[trigger] entry(
        w,
        d,
        b,
    )).ino != (#[trigger] entry(w, e, c)).ino by {
        let a1 = if d == p && b >= a0 {
            b + 1
        } else {
            b
        };
        let a2 = if e == p && c >= a0 {
            c + 1
        } else {
            c
        };
        assert(entry(v, d, a1).ino != entry(v, e, a2).ino);
    }
}

/// What removing a file does.
#[verifier::rlimit(60)]
pub proof fn lemma_unlink(v: Volume, parent: u32, name: Seq<u8>, ino: u32) -> (a0: int)
    requires
        sane(v),
        v.lookup(parent, name) == Ok::<u32, FsError>(ino),
        node(v, ino as int).kind == KIND_FILE,
    ensures
        ({
            let (w, r) = v.unlink(parent, name, ino);
            &&& r is Ok
            &&& sane(w)
            &&& same_shape(v, w)
            &&& has_entry(v, parent as int, a0)
            &&& entry(v, parent as int, a0).name == name
            &&& entry(v, parent as int, a0).ino == ino
            &&& w.dir_entries(parent) == Ok::<Seq<Entry>, FsError>(
                entries(v, parent as int).remove(a0),
            )
            &&& same_dirs(v, w, parent as int)
            &&& node(w, ino as int).kind == KIND_FREE
            &&& node(w, parent as int).kind == KIND_DIR
            &&& forall|k: int|
                0 <= k < blocks_for(node(w, parent as int).size as int)
                    ==> #[trigger] node(w, parent as int).direct[k] == node(
                    v,
                    parent as int,
                ).direct[k]
            &&& forall|j: int|
                0 <= j < v.sb.data_blocks ==> #[trigger] taken(w, j) == (taken(v, j) && !among(
                    v,
                    node(v, ino as int),
                    0,
                    blocks_for(node(v, ino as int).size as int),
                    j,
                ) && !among(
                    v,
                    node(v, parent as int),
                    blocks_for(node(w, parent as int).size as int),
                    blocks_for(node(v, parent as int).size as int),
                    j,
                ))
            &&& forall|k: int|
                holds(v, ino as int, k) ==> !taken(
                    w,
                    #[trigger] held(v, ino as int, k) - v.sb.data_start,
                )
            &&& forall|i: int|
                is_ino(v, i) && i != ino && i != parent ==> #[trigger] node(w, i) == node(v, i)
                    && contents(w, i) == contents(v, i)
        }),
{
    let p = parent as int;
    let i = ino as int;
    let a0 = lemma_lookup_ok(v, parent, name);
    lemma_entry(v, p, a0);
    let es = entries(v, p);
    let n = node(v, i);
    lemma_inode_ok(v, i);
    lemma_owned_split(v, i);
    let m = blocks_for(n.size as int);
    assert(loose(v, i, n, m));
    assert(loose_parts(v, i, n, 0, 0, m));
    lemma_free_data(v, i, n, 0);
    let v1 = v.free_data(n, 0).0;
    lemma_reset_inode(v1, i, KIND_FREE);
    let v2 = v1.with_inode(ino, empty_node(KIND_FREE)).0;
    assert forall|j: int| is_ino(v, j) && j != i implies #[trigger] node(v2, j) == node(v, j)
        && contents(v2, j) == contents(v, j) by {
        assert(node(v1, j) == node(v, j));
        assert forall|k: int| holds(v, j, k) implies v2.blocks[#[trigger] held(v, j, k)]
            == v.blocks[held(v, j, k)] by {
            let x = held(v, j, k);
            assert(in_data(v.sb, x));
            assert(v1.blocks[x] == v.blocks[x]);
            assert(v2.blocks[x] == v1.blocks[x]);
        }
        lemma_contents(v, v2, j);
    }
    // The directory still reads as before: a freed inode is no directory either.
    lemma_dir_entries(v, p);
    lemma_inode_ok(v2, p);
    assert(i != p);
    assert(node(v2, p) == node(v, p));
    lemma_dir_entries(v2, p);
    let data = contents(v, p);
    lemma_entries_from(v, data, 0);
    assert forall|a: int| 0 <= a < es.len() implies (node(v2, (#[trigger] es[a]).ino as int).kind
        == KIND_DIR) == es[a].is_dir by {
        assert(has_entry(v, p, a) && entry(v, p, a) == es[a]);
        lemma_entry(v, p, a);
        if es[a].ino != ino {
            assert(node(v2, es[a].ino as int) == node(v, es[a].ino as int));
        }
    }
    lemma_entries_frame(v, v2, data, 0);
    assert forall|b: int| 0 <= b < es.len() && b != a0 implies (#[trigger] es[b]).name != name by {
        assert(entry(v, p, b).name != entry(v, p, a0).name);
    }
    lemma_without_one(es, name, a0);
    let ls = links(es.remove(a0));
    lemma_links_len(v, p, ls, a0);
    lemma_contents(v, v, p);
    lemma_write_data(v2, p, dir_bytes(ls));
    let w = v2.write_data(parent, node(v2, p), dir_bytes(ls)).0;
    lemma_unlink_entry(v, v2, w, p, ino, a0);
    assert(node(w, i) == node(v2, i));
    assert forall|j: int| is_ino(v, j) && j != ino && j != parent implies #[trigger] node(w, j)
        == node(v, j) && contents(w, j) == contents(v, j) by {
        assert(node(v2, j) == node(v, j));
    }
    assert forall|k: int| holds(v, i, k) implies !taken(
        w,
        #[trigger] held(v, i, k) - v.sb.data_start,
    ) by {
        let j = n.direct[k] - v.sb.data_start;
        assert(in_data(v.sb, held(v, i, k)));
        assert(!taken(v1, j));
        assert(!taken(v2, j));
    }
    let from = blocks_for(node(v, p).size as int);
    let to = blocks_for(node(w, p).size as int);
    assert(to <= from);
    assert forall|j: int| 0 <= j < v.sb.data_blocks implies #[trigger] taken(w, j) == (taken(v, j)
        && !among(v, n, 0, m, j) && !among(v, node(v, p), to, from, j)) by {
        assert(taken(v2, j) == taken(v1, j));
        assert(among(v2, node(v2, p), to, from, j) == among(v, node(v, p), to, from, j));
        assert(!among(v2, node(w, p), from, to, j));
    }
    a0
}

/// A directory with one entry fewer takes no more bytes.
proof fn lemma_links_len(v: Volume, p: int, ls: Seq<(u32, Seq<u8>)>, a0: int)
    requires
        sane(v),
        has_entry(v, p, a0),
        ls == links(entries(v, p).remove(a0)),
    ensures
        dir_bytes(ls).len() <= contents(v, p).len(),
{
    lemma_entry(v, p, a0);
    assert forall|b: int| 0 <= b < ls.len() implies (#[trigger] ls[b]).1.len() <= 23 by {
        let a = if b < a0 {
            b
        } else {
            b + 1
        };
        assert(ls[b].1 == entry(v, p, a).name);
        lemma_entry(v, p, a);
    }
    lemma_dir_bytes(ls);
}

/// A path that does not start with `p` leads where it led, where lookups changed
/// only for the last part of `p` in its directory, and in an inode that was free.
proof fn lemma_walk_frame(v: Volume, w: Volume, p: Seq<Seq<u8>>, fresh: int, q: Seq<Seq<u8>>)
    requires
        sane(v),
        p.len() > 0,
        v.walk(ROOT_INODE, p.drop_last()) is Ok,
        is_ino(v, fresh) ==> node(v, fresh).kind == KIND_FREE,
        forall|d: u32, name: Seq<u8>|
            d != fresh && !(d == v.walk(ROOT_INODE, p.drop_last())->Ok_0 && name == p.last())
                ==> #[trigger] w.lookup(d, name) == v.lookup(d, name),
        !p.is_prefix_of(q),
    ensures
        w.walk(ROOT_INODE, q) == v.walk(ROOT_INODE, q),
    decreases q.len(),
{
    if q.len() > 0 {
        let init = q.drop_last();
        assert(!p.is_prefix_of(init)) by {
            if p.is_prefix_of(init) {
                assert(q.subrange(0, p.len() as int) =~= init.subrange(0, p.len() as int));
            }
        }
        lemma_walk_frame(v, w, p, fresh, init);
        lemma_walk_last(v, ROOT_INODE, q);
        lemma_walk_last(w, ROOT_INODE, q);
        if let Ok(d) = v.walk(ROOT_INODE, init) {
            lemma_walk_used(v, init);
            if d == v.walk(ROOT_INODE, p.drop_last())->Ok_0 && q.last() == p.last() {
                lemma_walk_unique(v, init, p.drop_last());
                assert(q =~= init.push(q.last()));
                assert(p =~= p.drop_last().push(p.last()));
                assert(q.subrange(0, p.len() as int) =~= p);
            }
        }
    }
}

/// A path does not start with a longer one.
proof fn lemma_not_prefix(p: Seq<Seq<u8>>)
    requires
        p.len() > 0,
    ensures
        !p.is_prefix_of(p.drop_last()),
{
}

/// The effect of an operation on the files that paths name: a path that does not
/// start with `path` names the inode it named, with the contents it had, and
/// lists as it listed unless it is the directory that holds `path`.
pub open spec fn others_kept(v: Volume, w: Volume, path: Seq<u8>) -> bool {
    forall|other: Seq<u8>|
        #![trigger components(other)]
        !components(path).is_prefix_of(components(other)) ==> {
            &&& w.resolve(other) == v.resolve(other)
            &&& w.read_file(other) == v.read_file(other)
            &&& components(path).len() > 0 && components(other) != components(path).drop_last()
                ==> w.list_dir(other) == v.list_dir(other)
        }
}

/// Creating an inode for the last part of a path.
#[verifier::rlimit(60)]
pub proof fn lemma_create_at(v: Volume, path: Seq<u8>, kind: u32)
    requires
        sane(v),
        v.resolve_parent(path) is Ok,
        v.lookup(v.resolve_parent(path)->Ok_0.0, v.resolve_parent(path)->Ok_0.1) is Err,
        kind == KIND_FILE || kind == KIND_DIR,
    ensures
        ({
            let (parent, name) = v.resolve_parent(path)->Ok_0;
            let (w, r) = v.create(parent, name, kind);
            &&& match refusal(v, parent, name) {
                Some(e) => r == Err::<u32, FsError>(e),
                None => r is Ok,
            }
            &&& sane(w)
            &&& others_kept(v, w, path)
            &&& w.resolve_parent(path) == v.resolve_parent(path)
            &&& w.resolve(path) == w.lookup(parent, name)
            &&& r matches Ok(ino) ==> {
                &&& w.lookup(parent, name) == Ok::<u32, FsError>(ino)
                &&& is_ino(w, ino as int)
                &&& node(w, ino as int) == empty_node(kind)
                &&& w.dir_entries(parent) == Ok::<Seq<Entry>, FsError>(
                    entries(v, parent as int).push(Entry { ino, is_dir: kind == KIND_DIR, name }),
                )
                &&& is_dir(v, parent as int)
                &&& kind == KIND_DIR ==> w.dir_entries(ino) == Ok::<Seq<Entry>, FsError>(
                    Seq::empty(),
                )
            }
            &&& r is Err ==> w.lookup(parent, name) is Err
            &&& r matches Err(FsError::NoSpace) ==> v.free_inode_from(1) is Err || all_taken(w)
        }),
{
    let (parent, name) = v.resolve_parent(path)->Ok_0;
    let p = components(path);
    lemma_walk_used(v, p.drop_last());
    lemma_components(path);
    lemma_create(v, parent, name, kind);
    let (w, r) = v.create(parent, name, kind);
    let fresh: int = match v.free_inode_from(1) {
        Ok(ino) => ino as int,
        Err(_) => -1,
    };
    let es = entries(v, parent as int);
    assert forall|d: u32, nm: Seq<u8>| d != fresh && !(d == parent && nm == name) implies
        #[trigger] w.lookup(d, nm) == v.lookup(d, nm) by {
        if d == parent && r is Ok {
            lemma_find_push(es, Entry { ino: fresh as u32, is_dir: kind == KIND_DIR, name }, nm);
            lemma_inode_ok(v, d as int);
            assert(v.dir_entries(d) is Ok);
        }
    }
    if r is Ok {
        lemma_inode_ok(v, parent as int);
        assert(v.dir_entries(parent) is Ok);
        lemma_find_push(es, Entry { ino: fresh as u32, is_dir: kind == KIND_DIR, name }, name);
    }
    assert forall|other: Seq<u8>|
        #![trigger components(other)]
        !p.is_prefix_of(components(other)) implies {
        &&& w.resolve(other) == v.resolve(other)
        &&& w.read_file(other) == v.read_file(other)
        &&& components(other) != p.drop_last() ==> w.list_dir(other) == v.list_dir(other)
    } by {
        let q = components(other);
        lemma_walk_frame(v, w, p, fresh, q);
        if let Ok(x) = v.walk(ROOT_INODE, q) {
            lemma_walk_used(v, q);
            lemma_inode_ok(v, x as int);
            lemma_inode_ok(w, x as int);
            if x != parent {
                if fresh >= 0 {
                    assert(node(w, x as int) == node(v, x as int));
                    assert(w.dir_entries(x) == v.dir_entries(x));
                }
                lemma_contents(v, v, x as int);
                lemma_contents(w, w, x as int);
            } else {
                lemma_walk_unique(v, q, p.drop_last());
                if v.inode(x)->Ok_0.kind == KIND_FILE {
                    // A file takes no entry, so nothing was linked.
                    lemma_contents(v, v, x as int);
                    lemma_contents(w, w, x as int);
                }
            }
        }
    }
    lemma_not_prefix(p);
    lemma_walk_frame(v, w, p, fresh, p.drop_last());
    lemma_walk_last(w, ROOT_INODE, p);
}

/// Replacing the contents of the file that a path names.
#[verifier::rlimit(60)]
pub proof fn lemma_overwrite_at(v: Volume, path: Seq<u8>, ino: u32, data: Seq<u8>)
    requires
        sane(v),
        v.resolve(path) == Ok::<u32, FsError>(ino),
    ensures
        ({
            let (w, r) = v.overwrite(ino, data);
            &&& sane(w)
            &&& others_kept(v, w, path)
            &&& w.resolve(path) == v.resolve(path)
            &&& r is Ok ==> w.read_file(path) == Ok::<Seq<u8>, FsError>(data)
            &&& r is Err ==> w.read_file(path) == v.read_file(path)
            &&& forall|other: Seq<u8>|
                #![trigger components(other)]
                w.resolve(other) == v.resolve(other) && w.list_dir(other) == v.list_dir(other) && (
                components(other) != components(path) ==> w.read_file(other) == v.read_file(other))
            &&& same_dirs(v, w, -1)
            &&& r matches Err(FsError::NoSpace) ==> all_taken(w)
        }),
{
    let p = components(path);
    lemma_walk_used(v, p);
    lemma_inode_ok(v, ino as int);
    let (w, r) = v.overwrite(ino, data);
    if node(v, ino as int).kind == KIND_FILE {
        lemma_overwrite(v, ino as int, data);
        assert forall|d: u32, nm: Seq<u8>| #[trigger] w.lookup(d, nm) == v.lookup(d, nm) by {
            assert(w.dir_entries(d) == v.dir_entries(d));
        }
        assert forall|other: Seq<u8>|
            #![trigger components(other)]
            w.resolve(other) == v.resolve(other) && (components(other) != p ==> w.read_file(other)
                == v.read_file(other)) && w.list_dir(other) == v.list_dir(other) by {
            let q = components(other);
            lemma_walk_same(v, w, ROOT_INODE, q);
            if let Ok(x) = v.walk(ROOT_INODE, q) {
                lemma_walk_used(v, q);
                lemma_inode_ok(v, x as int);
                lemma_inode_ok(w, x as int);
                assert(w.dir_entries(x) == v.dir_entries(x));
                if x != ino {
                    assert(node(w, x as int) == node(v, x as int));
                    lemma_contents(v, v, x as int);
                    lemma_contents(w, w, x as int);
                } else {
                    lemma_walk_unique(v, q, p);
                }
            }
        }
        assert(p.is_prefix_of(p)) by {
            assert(p.subrange(0, p.len() as int) =~= p);
        }
        assert(w.resolve(path) == v.resolve(path));
        lemma_inode_ok(w, ino as int);
        lemma_contents(w, w, ino as int);
        lemma_contents(v, v, ino as int);
    }
}

/// Where every lookup is the same, every path leads to the same inode.
pub proof fn lemma_walk_same(v: Volume, w: Volume, ino: u32, q: Seq<Seq<u8>>)
    requires
        forall|d: u32, name: Seq<u8>| #[trigger] w.lookup(d, name) == v.lookup(d, name),
    ensures
        w.walk(ino, q) == v.walk(ino, q),
    decreases q.len(),
{
    if q.len() > 0 {
        assert(w.lookup(ino, q[0]) == v.lookup(ino, q[0]));
        if let Ok(next) = v.lookup(ino, q[0]) {
            lemma_walk_same(v, w, next, q.drop_first());
        }
    }
}

/// A freshly formatted volume is in order, and its root directory is empty.
pub proof fn format_gives_an_empty_volume(blocks: Seq<Seq<u8>>, inode_count: u32, sb: Superblock)
    requires
        blocks.len() <= u64::MAX,
        forall|b: int| 0 <= b < blocks.len() ==> (#[trigger] blocks[b]).len() == 512,
        inode_count > 0,
        layout(blocks.len() as int, inode_count) == Some(sb),
    ensures
        ({
            let start = Volume { blocks: cleared(blocks, sb), sb, locked: false };
            let (v, r) = start.with_inode(ROOT_INODE, empty_node(KIND_DIR));
            &&& r is Ok
            &&& sane(v)
            &&& forall|path: Seq<u8>|
                (#[trigger] components(path)).len() == 0 ==> v.list_dir(path) == Ok::<
                    Seq<Entry>,
                    FsError,
                >(Seq::empty())
        }),
{
    let start = Volume { blocks: cleared(blocks, sb), sb, locked: false };
    superblock_round_trips(sb, zeros(512));
    assert(start.blocks[0].len() == 512);
    assert(laid_out(start));
    assert forall|i: int| is_ino(start, i) implies (#[trigger] node(start, i)).size == 0 && node(
        start,
        i,
    ).kind == KIND_FREE by {
        lemma_inode_ok(start, i);
        let b = start.blocks[start.sb.inode_start + i / 8];
        assert(b == zeros(512));
        let rec = b.subrange(64 * (i % 8), 64 * (i % 8) + 64);
        lemma_zero_record(rec);
    }
    assert(owned_except(start, 0));
    lemma_reset_inode(start, 0, KIND_DIR);
    let v = start.with_inode(ROOT_INODE, empty_node(KIND_DIR)).0;
    lemma_dir_entries(v, 0);
    lemma_contents(v, v, 0);
    assert(v.entries_from(contents(v, 0), 0) == Ok::<Seq<Entry>, FsError>(Seq::empty()));
    assert forall|d: int| is_dir(v, d) implies d == 0 by {
        if d != 0 {
            assert(node(v, d) == node(start, d));
        }
    }
    assert forall|d: int, a: int| !has_entry(v, d, a) by {}
}

/// A record of zero bytes is a free inode.
proof fn lemma_zero_record(rec: Seq<u8>)
    requires
        rec.len() == 64,
        forall|i: int| 0 <= i < 64 ==> rec[i] == 0,
    ensures
        node_of(rec).kind == KIND_FREE,
        node_of(rec).size == 0,
{
    lemma_le_zero(rec.subrange(0, 4));
    lemma_le_zero(rec.subrange(8, 16));
}

/// A volume found in order is found the same by the next mount: what the device
/// holds says how it is laid out.
pub proof fn remount_finds_the_same_volume(v: Volume, sb: Superblock)
    requires
        sane(v),
        superblock_of(v.blocks[0]) == Ok::<Superblock, FsError>(sb),
    ensures
        (Volume { blocks: v.blocks, sb, locked: false }) == v,
{
}

/// What two operations on one path leave alone, both together leave alone.
proof fn lemma_others_kept_twice(v: Volume, w: Volume, x: Volume, path: Seq<u8>)
    requires
        others_kept(v, w, path),
        others_kept(w, x, path),
    ensures
        others_kept(v, x, path),
{
    assert forall|other: Seq<u8>|
        #![trigger components(other)]
        !components(path).is_prefix_of(components(other)) implies {
        &&& x.resolve(other) == v.resolve(other)
        &&& x.read_file(other) == v.read_file(other)
        &&& components(path).len() > 0 && components(other) != components(path).drop_last()
            ==> x.list_dir(other) == v.list_dir(other)
    } by {
        assert(w.resolve(other) == v.resolve(other));
    }
}

/// A lookup fails because a name is absent or an inode is no directory.
proof fn lemma_lookup_err(v: Volume, d: u32, name: Seq<u8>)
    requires
        sane(v),
        v.lookup(d, name) is Err,
    ensures
        v.lookup(d, name)->Err_0 is NotFound || v.lookup(d, name)->Err_0 is WrongKind,
{
    if is_ino(v, d as int) {
        lemma_inode_ok(v, d as int);
        if is_dir(v, d as int) {
            assert(v.dir_entries(d as int as u32) is Ok);
        }
    }
}

/// A path leads nowhere because a name is absent or an inode is no directory.
pub proof fn lemma_walk_err(v: Volume, ino: u32, q: Seq<Seq<u8>>)
    requires
        sane(v),
        v.walk(ino, q) is Err,
    ensures
        v.walk(ino, q)->Err_0 is NotFound || v.walk(ino, q)->Err_0 is WrongKind,
    decreases q.len(),
{
    if q.len() > 0 {
        match v.lookup(ino, q[0]) {
            Ok(next) => {
                lemma_walk_err(v, next, q.drop_first());
            },
            Err(e) => {
                lemma_lookup_err(v, ino, q[0]);
            },
        }
    }
}

/// What holds of every `write_file`.
#[verifier::rlimit(60)]
proof fn lemma_write_file(v: Volume, path: Seq<u8>, data: Seq<u8>)
    requires
        sane(v),
    ensures
        ({
            let (w, r) = v.write_file(path, data);
            &&& sane(w)
            &&& others_kept(v, w, path)
            &&& r is Ok ==> w.read_file(path) == Ok::<Seq<u8>, FsError>(data) && w.resolve(path)
                == r
            &&& r matches Err(FsError::NoSpace) ==> all_taken(w) || v.free_inode_from(1) is Err
        }),
{
    if let Ok((parent, name)) = v.resolve_parent(path) {
        lemma_walk_last(v, ROOT_INODE, components(path));
        match v.lookup(parent, name) {
            Ok(ino) => {
                lemma_overwrite_at(v, path, ino, data);
            },
            Err(FsError::NotFound) => {
                lemma_create_at(v, path, KIND_FILE);
                let (w, r) = v.create(parent, name, KIND_FILE);
                if let Ok(ino) = r {
                    lemma_overwrite_at(w, path, ino, data);
                    lemma_others_kept_twice(v, w, w.overwrite(ino, data).0, path);
                }
            },
            Err(e) => {
                lemma_lookup_err(v, parent, name);
            },
        }
    } else if components(path).len() > 0 {
        lemma_walk_err(v, ROOT_INODE, components(path).drop_last());
    }
}

/// What was written to a file reads back, whole.
pub proof fn written_file_reads_back(v: Volume, path: Seq<u8>, data: Seq<u8>)
    requires
        sane(v),
        v.write_file(path, data).1 is Ok,
    ensures
        v.write_file(path, data).0.read_file(path) == Ok::<Seq<u8>, FsError>(data),
        v.write_file(path, data).0.resolve(path) == v.write_file(path, data).1,
{
    lemma_write_file(v, path, data);
}

/// Writing a file, whether it succeeds or not, keeps the volume in order and
/// leaves every path that does not start with it as it was.
pub proof fn writing_leaves_other_files_alone(v: Volume, path: Seq<u8>, data: Seq<u8>)
    requires
        sane(v),
    ensures
        sane(v.write_file(path, data).0),
        others_kept(v, v.write_file(path, data).0, path),
{
    lemma_write_file(v, path, data);
}

/// A write that finds no space has found every inode in use or every data block
/// taken.
pub proof fn no_space_means_full(v: Volume, path: Seq<u8>, data: Seq<u8>)
    requires
        sane(v),
        v.write_file(path, data).1 == Err::<u32, FsError>(FsError::NoSpace),
    ensures
        all_taken(v.write_file(path, data).0) || v.free_inode_from(1) is Err,
{
    lemma_write_file(v, path, data);
}

/// A new directory lists as empty, is named by its path, and appears last in the
/// listing of the directory that holds it.
pub proof fn new_directory_is_empty(v: Volume, path: Seq<u8>)
    requires
        sane(v),
        v.mkdir(path).1 is Ok,
    ensures
        v.mkdir(path).0.list_dir(path) == Ok::<Seq<Entry>, FsError>(Seq::empty()),
        v.mkdir(path).0.resolve(path) == v.mkdir(path).1,
        v.resolve(path) is Err,
        ({
            let (parent, name) = v.resolve_parent(path)->Ok_0;
            v.mkdir(path).0.dir_entries(parent) == Ok::<Seq<Entry>, FsError>(
                v.dir_entries(parent)->Ok_0.push(
                    Entry { ino: v.mkdir(path).1->Ok_0, is_dir: true, name },
                ),
            )
        }),
{
    lemma_create_at(v, path, KIND_DIR);
    lemma_walk_last(v, ROOT_INODE, components(path));
}

/// Creating a directory, whether it succeeds or not, keeps the volume in order
/// and leaves every path that does not start with it as it was.
pub proof fn mkdir_leaves_other_files_alone(v: Volume, path: Seq<u8>)
    requires
        sane(v),
    ensures
        sane(v.mkdir(path).0),
        others_kept(v, v.mkdir(path).0, path),
{
    if let Ok((parent, name)) = v.resolve_parent(path) {
        if v.lookup(parent, name) is Err {
            lemma_create_at(v, path, KIND_DIR);
        }
    }
}

/// A directory cannot be created twice.
pub proof fn second_mkdir_is_refused(v: Volume, path: Seq<u8>)
    requires
        sane(v),
        v.mkdir(path).1 is Ok,
    ensures
        v.mkdir(path).0.mkdir(path) == (v.mkdir(path).0, Err::<u32, FsError>(FsError::Exists)),
{
    lemma_create_at(v, path, KIND_DIR);
}

/// Removing the file that a path names.
#[verifier::rlimit(60)]
pub proof fn lemma_unlink_at(v: Volume, path: Seq<u8>, parent: u32, name: Seq<u8>, ino: u32)
    requires
        sane(v),
        v.resolve_parent(path) == Ok::<(u32, Seq<u8>), FsError>((parent, name)),
        v.lookup(parent, name) == Ok::<u32, FsError>(ino),
        node(v, ino as int).kind == KIND_FILE,
    ensures
        ({
            let (w, r) = v.unlink(parent, name, ino);
            &&& r is Ok
            &&& sane(w)
            &&& others_kept(v, w, path)
            &&& w.resolve(path) == Err::<u32, FsError>(FsError::NotFound)
            &&& w.resolve_parent(path) == v.resolve_parent(path)
            &&& node(w, ino as int).kind == KIND_FREE
            &&& forall|k: int|
                holds(v, ino as int, k) ==> !taken(
                    w,
                    #[trigger] held(v, ino as int, k) - v.sb.data_start,
                )
        }),
{
    let p = components(path);
    let w = v.unlink(parent, name, ino).0;
    lemma_walk_last(v, ROOT_INODE, p);
    let a0 = lemma_unlink(v, parent, name, ino);
    let es = entries(v, parent as int);
    assert(v.dir_entries(parent) == Ok::<Seq<Entry>, FsError>(es));
    assert forall|d: u32, nm: Seq<u8>| !(d == parent && nm == name) implies #[trigger] w.lookup(
        d,
        nm,
    ) == v.lookup(d, nm) by {
        if d == parent {
            lemma_find_remove(es, a0, nm);
        } else {
            assert(w.dir_entries(d) == v.dir_entries(d));
        }
    }
    assert(find(es.remove(a0), name) is None) by {
        lemma_find(es.remove(a0), name);
        assert forall|b: int| 0 <= b < es.remove(a0).len() implies (#[trigger] es.remove(
            a0,
        )[b]).name != name by {
            let a = if b < a0 {
                b
            } else {
                b + 1
            };
            assert(es.remove(a0)[b] == entry(v, parent as int, a));
            assert(entry(v, parent as int, a).name != entry(v, parent as int, a0).name);
        }
    }
    assert forall|other: Seq<u8>|
        #![trigger components(other)]
        !p.is_prefix_of(components(other)) implies {
        &&& w.resolve(other) == v.resolve(other)
        &&& w.read_file(other) == v.read_file(other)
        &&& components(other) != p.drop_last() ==> w.list_dir(other) == v.list_dir(other)
    } by {
        lemma_unlink_other(v, w, p, parent, ino, other);
    }
    lemma_not_prefix(p);
    lemma_walk_frame(v, w, p, -1, p.drop_last());
    lemma_walk_last(w, ROOT_INODE, p);
}

/// What removing a file does to a path that does not start with the file's.
#[verifier::rlimit(60)]
proof fn lemma_unlink_other(
    v: Volume,
    w: Volume,
    p: Seq<Seq<u8>>,
    parent: u32,
    ino: u32,
    other: Seq<u8>,
)
    requires
        sane(v),
        sane(w),
        same_shape(v, w),
        p.len() > 0,
        v.walk(ROOT_INODE, p.drop_last()) == Ok::<u32, FsError>(parent),
        v.walk(ROOT_INODE, p) == Ok::<u32, FsError>(ino),
        is_dir(v, parent as int),
        is_dir(w, parent as int),
        forall|d: u32, nm: Seq<u8>|
            !(d == parent && nm == p.last()) ==> #[trigger] w.lookup(d, nm) == v.lookup(d, nm),
        same_dirs(v, w, parent as int),
        forall|i: int|
            is_ino(v, i) && i != ino && i != parent ==> #[trigger] node(w, i) == node(v, i)
                && contents(w, i) == contents(v, i),
        !p.is_prefix_of(components(other)),
    ensures
        w.resolve(other) == v.resolve(other),
        w.read_file(other) == v.read_file(other),
        components(other) != p.drop_last() ==> w.list_dir(other) == v.list_dir(other),
{
    let q = components(other);
    lemma_walk_frame(v, w, p, -1, q);
    if let Ok(x) = v.walk(ROOT_INODE, q) {
        lemma_walk_used(v, q);
        lemma_inode_ok(v, x as int);
        lemma_inode_ok(w, x as int);
        if x == parent {
            lemma_walk_unique(v, q, p.drop_last());
        } else if x == ino {
            lemma_walk_unique(v, q, p);
            assert(p.subrange(0, p.len() as int) =~= p);
        } else {
            assert(node(w, x as int) == node(v, x as int));
            assert(w.dir_entries(x) == v.dir_entries(x));
            lemma_contents(v, v, x as int);
            lemma_contents(w, w, x as int);
        }
    }
}

/// What holds of every `remove_file`.
proof fn lemma_remove_file(v: Volume, path: Seq<u8>)
    requires
        sane(v),
    ensures
        ({
            let (w, r) = v.remove_file(path);
            &&& sane(w)
            &&& others_kept(v, w, path)
            &&& r is Err ==> w == v
            &&& r is Ok <==> v.read_file(path) is Ok
            &&& r is Ok ==> {
                let ino = v.resolve(path)->Ok_0 as int;
                &&& v.resolve(path) is Ok
                &&& w.resolve(path) == Err::<u32, FsError>(FsError::NotFound)
                &&& node(w, ino).kind == KIND_FREE
                &&& forall|k: int|
                    holds(v, ino, k) ==> !taken(w, #[trigger] held(v, ino, k) - v.sb.data_start)
            }
        }),
{
    let p = components(path);
    if p.len() == 0 {
        // The path names the root, which is a directory.
        lemma_inode_ok(v, 0);
        assert(v.resolve(path) == Ok::<u32, FsError>(ROOT_INODE));
    } else {
        lemma_walk_last(v, ROOT_INODE, p);
        if let Ok((parent, name)) = v.resolve_parent(path) {
            if let Ok(ino) = v.lookup(parent, name) {
                lemma_walk_used(v, p);
                lemma_inode_ok(v, ino as int);
                lemma_contents(v, v, ino as int);
                if node(v, ino as int).kind == KIND_FILE {
                    lemma_unlink_at(v, path, parent, name, ino);
                }
            }
        }
    }
}

/// A file can be removed exactly when it can be read; its path then names
/// nothing.
pub proof fn removed_file_is_gone(v: Volume, path: Seq<u8>)
    requires
        sane(v),
    ensures
        v.remove_file(path).1 is Ok <==> v.read_file(path) is Ok,
        v.remove_file(path).1 is Ok ==> v.remove_file(path).0.resolve(path) == Err::<u32, FsError>(
            FsError::NotFound,
        ),
        v.remove_file(path).1 is Err ==> v.remove_file(path).0 == v,
{
    lemma_remove_file(v, path);
}

/// Removing a file gives its inode and every data block it held back.
pub proof fn removed_file_is_reclaimed(v: Volume, path: Seq<u8>)
    requires
        sane(v),
        v.remove_file(path).1 is Ok,
    ensures
        ({
            let ino = v.resolve(path)->Ok_0 as int;
            let w = v.remove_file(path).0;
            &&& node(w, ino).kind == KIND_FREE
            &&& forall|k: int|
                holds(v, ino, k) ==> !taken(w, #[trigger] held(v, ino, k) - v.sb.data_start)
        }),
{
    lemma_remove_file(v, path);
}

/// Removing a file, whether it succeeds or not, keeps the volume in order and
/// leaves every path that does not start with it as it was.
pub proof fn removing_leaves_other_files_alone(v: Volume, path: Seq<u8>)
    requires
        sane(v),
    ensures
        sane(v.remove_file(path).0),
        others_kept(v, v.remove_file(path).0, path),
{
    lemma_remove_file(v, path);
}

} // verus!

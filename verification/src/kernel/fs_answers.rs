//! What each filesystem operation answers, and how the listings change with it.
use vstd::prelude::*;
use crate::kernel::block::BlockDevice;
use crate::kernel::fs::{entry_views, DirEntry, Fs};
use crate::kernel::fs_blocks::{lemma_inode_ok, node};
use crate::kernel::fs_format::{FsError, KIND_DIR, KIND_FILE, ROOT_INODE};
use crate::kernel::fs_laws::{
    lemma_create_at, lemma_overwrite, lemma_overwrite_at, lemma_unlink, lemma_unlink_at,
    lemma_walk_err, new_directory_is_empty, refusal, removed_file_is_gone, written_file_reads_back,
    writing_leaves_other_files_alone,
};
use crate::kernel::fs_model::{components, word_len, Entry, Volume};
use crate::kernel::fs_owned::{all_taken, contents, lemma_contents};
use crate::kernel::fs_tree::{
    entries, entry, has_entry, is_dir, lemma_entry, lemma_find, lemma_lookup_ok, lemma_walk_last,
    lemma_walk_used, plain, sane,
};

verus! {

/// `dir` is the directory that holds `path`: its parts are those of `path` but the
/// last.
pub open spec fn holds_path(dir: Seq<u8>, path: Seq<u8>) -> bool {
    components(path).len() > 0 && components(dir) == components(path).drop_last()
}

/// What `mkdir` answers. Where a part before the last is missing it is `NotFound`,
/// as for the root; where the path is there already, `Exists`, and nothing changes;
/// otherwise the directory is created unless its parent takes no new inode of that
/// name, for the reason that [`refusal`] gives.
pub proof fn mkdir_answers(v: Volume, path: Seq<u8>)
    requires
        sane(v),
    ensures
        ({
            let (w, r) = v.mkdir(path);
            match v.resolve_parent(path) {
                Err(e) => {
                    &&& e is NotFound || e is WrongKind
                    &&& r == Err::<u32, FsError>(e)
                    &&& w == v
                },
                Ok((parent, name)) => {
                    &&& r == Err::<u32, FsError>(FsError::Exists) <==> v.resolve(path) is Ok
                    &&& v.resolve(path) is Ok ==> w == v
                    &&& v.resolve(path) is Err ==> match refusal(v, parent, name) {
                        Some(e) => r == Err::<u32, FsError>(e),
                        None => r is Ok,
                    }
                },
            }
        }),
        v.mkdir(path).1 == Err::<u32, FsError>(FsError::NotFound) <==> v.resolve_parent(path)
            == Err::<(u32, Seq<u8>), FsError>(FsError::NotFound),
{
    let p = components(path);
    if let Ok((parent, name)) = v.resolve_parent(path) {
        lemma_walk_last(v, ROOT_INODE, p);
        if v.lookup(parent, name) is Err {
            lemma_create_at(v, path, KIND_DIR);
        }
    } else if p.len() > 0 {
        lemma_walk_err(v, ROOT_INODE, p.drop_last());
    }
}

/// In a directory with a free inode, room for one entry and a block free, any name
/// of 1 to 23 bytes that is not there yet can become a directory; it is empty, and
/// the directory that holds it lists it last.
pub proof fn mkdir_succeeds(v: Volume, path: Seq<u8>, dir: Seq<u8>)
    requires
        sane(v),
        holds_path(dir, path),
        v.list_dir(dir) is Ok,
        v.resolve(path) is Err,
        components(path).last().len() <= 23,
        v.list_dir(dir)->Ok_0.len() < 96,
        v.free_inode_from(1) is Ok,
        !all_taken(v),
    ensures
        ({
            let (w, r) = v.mkdir(path);
            let new = Entry { ino: r->Ok_0, is_dir: true, name: components(path).last() };
            &&& r is Ok
            &&& w.resolve(path) == r
            &&& w.list_dir(path) == Ok::<Seq<Entry>, FsError>(Seq::empty())
            &&& w.list_dir(dir) == Ok::<Seq<Entry>, FsError>(v.list_dir(dir)->Ok_0.push(new))
        }),
{
    let p = components(path);
    lemma_walk_last(v, ROOT_INODE, p);
    let parent = v.resolve(dir)->Ok_0;
    lemma_walk_used(v, p.drop_last());
    lemma_inode_ok(v, parent as int);
    assert(v.resolve_parent(path) == Ok::<(u32, Seq<u8>), FsError>((parent, p.last())));
    lemma_create_at(v, path, KIND_DIR);
}

/// The directories that paths name after `mkdir` created one: the one that holds it
/// lists it last.
pub proof fn new_directory_is_listed(v: Volume, path: Seq<u8>, dir: Seq<u8>)
    requires
        sane(v),
        v.mkdir(path).1 is Ok,
        holds_path(dir, path),
    ensures
        ({
            let (w, r) = v.mkdir(path);
            let new = Entry { ino: r->Ok_0, is_dir: true, name: components(path).last() };
            &&& v.list_dir(dir) is Ok
            &&& w.list_dir(dir) == Ok::<Seq<Entry>, FsError>(v.list_dir(dir)->Ok_0.push(new))
        }),
{
    let p = components(path);
    lemma_walk_last(v, ROOT_INODE, p);
    lemma_create_at(v, path, KIND_DIR);
    let parent = v.resolve(dir)->Ok_0;
    assert(v.dir_entries(parent as int as u32) is Ok);
}

/// A path that goes on below another leads nowhere where that one does, and through
/// a file it meets what is no directory.
proof fn lemma_walk_below(v: Volume, p: Seq<Seq<u8>>, q: Seq<Seq<u8>>)
    requires
        sane(v),
        p.is_prefix_of(q),
        p != q,
    ensures
        match v.walk(ROOT_INODE, p) {
            Err(e) => v.walk(ROOT_INODE, q) == Err::<u32, FsError>(e),
            Ok(i) => node(v, i as int).kind == KIND_FILE ==> v.walk(ROOT_INODE, q) == Err::<
                u32,
                FsError,
            >(FsError::WrongKind),
        },
    decreases q.len(),
{
    let init = q.drop_last();
    assert(q.len() > p.len()) by {
        if q.len() == p.len() {
            assert(q =~= p);
        }
    }
    assert(p.is_prefix_of(init)) by {
        assert(init.subrange(0, p.len() as int) =~= q.subrange(0, p.len() as int));
    }
    lemma_walk_last(v, ROOT_INODE, q);
    if init != p {
        lemma_walk_below(v, p, init);
    } else if let Ok(i) = v.walk(ROOT_INODE, p) {
        lemma_walk_used(v, p);
        lemma_inode_ok(v, i as int);
    }
}

/// The one entry of a directory with a name that is found there.
proof fn lemma_only_entry(v: Volume, parent: u32, name: Seq<u8>, ino: u32) -> (a: int)
    requires
        sane(v),
        v.lookup(parent, name) == Ok::<u32, FsError>(ino),
    ensures
        has_entry(v, parent as int, a),
        entry(v, parent as int, a) == (Entry {
            ino,
            is_dir: node(v, ino as int).kind == KIND_DIR,
            name,
        }),
        forall|b: int|
            0 <= b < entries(v, parent as int).len() && (#[trigger] entries(
                v,
                parent as int,
            )[b]).name == name ==> b == a,
{
    let a = lemma_lookup_ok(v, parent, name);
    lemma_entry(v, parent as int, a);
    assert forall|b: int|
        0 <= b < entries(v, parent as int).len() && (#[trigger] entries(v, parent as int)[b]).name
            == name implies b == a by {
        assert(has_entry(v, parent as int, b));
        if b != a {
            assert(entry(v, parent as int, b).name != entry(v, parent as int, a).name);
        }
    }
    a
}

/// After a write, the directory that holds the file lists exactly one entry of that
/// name, a file with the inode that the write answered; a new file comes last, and
/// where the file was there already the listing is the same. The data was at most
/// six blocks long. Paths that go on below the file meet what is no directory, and
/// led nowhere before where the file is new.
pub proof fn written_file_is_listed(v: Volume, path: Seq<u8>, data: Seq<u8>, dir: Seq<u8>)
    requires
        sane(v),
        v.write_file(path, data).1 is Ok,
        holds_path(dir, path),
    ensures
        ({
            let (w, r) = v.write_file(path, data);
            let name = components(path).last();
            let new = Entry { ino: r->Ok_0, is_dir: false, name };
            let es = w.list_dir(dir)->Ok_0;
            &&& data.len() <= 3072
            &&& v.list_dir(dir) is Ok
            &&& w.list_dir(dir) == Ok::<Seq<Entry>, FsError>(
                if v.resolve(path) is Ok {
                    v.list_dir(dir)->Ok_0
                } else {
                    v.list_dir(dir)->Ok_0.push(new)
                },
            )
            &&& exists|a: int|
                0 <= a < es.len() && #[trigger] es[a] == new && forall|b: int|
                    0 <= b < es.len() && (#[trigger] es[b]).name == name ==> b == a
            &&& v.resolve(path) is Ok ==> v.resolve(path) == r
            &&& forall|other: Seq<u8>|
                #![trigger components(other)]
                components(path).is_prefix_of(components(other)) && components(path) != components(
                    other,
                ) ==> {
                    &&& w.resolve(other) == Err::<u32, FsError>(FsError::WrongKind)
                    &&& v.resolve(path) is Err ==> v.resolve(other) == Err::<u32, FsError>(
                        FsError::NotFound,
                    )
                }
        }),
{
    let p = components(path);
    let (w, r) = v.write_file(path, data);
    let (parent, name) = v.resolve_parent(path)->Ok_0;
    lemma_walk_last(v, ROOT_INODE, p);
    lemma_walk_used(v, p.drop_last());
    lemma_inode_ok(v, parent as int);
    let ino = r->Ok_0;
    match v.lookup(parent, name) {
        Ok(i) => {
            lemma_overwrite_at(v, path, i, data);
            lemma_walk_used(v, p);
            lemma_inode_ok(v, i as int);
            lemma_overwrite(v, i as int, data);
            let a = lemma_lookup_ok(v, parent, name);
            assert(v.dir_entries(parent) is Ok);
            assert(w.dir_entries(parent) == v.dir_entries(parent));
        },
        Err(_) => {
            lemma_create_at(v, path, KIND_FILE);
            let c = v.create(parent, name, KIND_FILE).0;
            lemma_overwrite_at(c, path, ino, data);
            lemma_overwrite(c, ino as int, data);
            assert(w.dir_entries(parent) == c.dir_entries(parent));
            assert(v.dir_entries(parent as int as u32) is Ok);
            assert(!p.is_prefix_of(p.drop_last()));
            assert(c.resolve(dir) == v.resolve(dir));
        },
    }
    assert(w.resolve(dir) == Ok::<u32, FsError>(parent));
    assert(w.resolve(path) == Ok::<u32, FsError>(ino));
    lemma_walk_last(w, ROOT_INODE, p);
    let a = lemma_only_entry(w, parent, name, ino);
    assert(w.list_dir(dir)->Ok_0 == entries(w, parent as int));
    assert(entries(w, parent as int)[a] == entry(w, parent as int, a));
    assert forall|other: Seq<u8>|
        #![trigger components(other)]
        p.is_prefix_of(components(other)) && p != components(other) implies {
        &&& w.resolve(other) == Err::<u32, FsError>(FsError::WrongKind)
        &&& v.resolve(path) is Err ==> v.resolve(other) == Err::<u32, FsError>(FsError::NotFound)
    } by {
        lemma_walk_below(w, p, components(other));
        lemma_walk_below(v, p, components(other));
    }
}

/// A write over a file that is there fails only because the data is too large, or
/// because every data block is taken. The file then keeps what it held, and every
/// path reads and lists as before.
pub proof fn failed_write_keeps_the_file(v: Volume, path: Seq<u8>, data: Seq<u8>)
    requires
        sane(v),
        v.read_file(path) is Ok,
        v.write_file(path, data).1 is Err,
    ensures
        ({
            let (w, r) = v.write_file(path, data);
            &&& r == Err::<u32, FsError>(
                if data.len() > 3072 {
                    FsError::TooLarge
                } else {
                    FsError::NoSpace
                },
            )
            &&& data.len() <= 3072 ==> all_taken(w)
            &&& sane(w)
            &&& forall|other: Seq<u8>|
                #![trigger components(other)]
                w.resolve(other) == v.resolve(other) && w.read_file(other) == v.read_file(other)
                    && w.list_dir(other) == v.list_dir(other)
        }),
{
    let p = components(path);
    let ino = v.resolve(path)->Ok_0;
    lemma_inode_ok(v, 0);
    if p.len() > 0 {
        lemma_walk_last(v, ROOT_INODE, p);
    }
    lemma_walk_used(v, p);
    lemma_inode_ok(v, ino as int);
    lemma_overwrite_at(v, path, ino, data);
    lemma_overwrite(v, ino as int, data);
    let w = v.write_file(path, data).0;
    assert forall|other: Seq<u8>|
        #![trigger components(other)]
        w.resolve(other) == v.resolve(other) && w.read_file(other) == v.read_file(other)
            && w.list_dir(other) == v.list_dir(other) by {
        if components(other) == p {
            assert(w.read_file(path) == v.read_file(path));
            assert(w.resolve(other) == w.resolve(path) && v.resolve(other) == v.resolve(path));
        }
    }
}

/// What a file that could be created but not written leaves: an empty file.
pub proof fn failed_first_write_leaves_an_empty_file(v: Volume, path: Seq<u8>, data: Seq<u8>)
    requires
        sane(v),
        v.resolve_parent(path) is Ok,
        v.resolve(path) == Err::<u32, FsError>(FsError::NotFound),
        refusal(v, v.resolve_parent(path)->Ok_0.0, v.resolve_parent(path)->Ok_0.1) is None,
        v.write_file(path, data).1 is Err,
    ensures
        ({
            let (w, r) = v.write_file(path, data);
            &&& r == Err::<u32, FsError>(
                if data.len() > 3072 {
                    FsError::TooLarge
                } else {
                    FsError::NoSpace
                },
            )
            &&& w.read_file(path) == Ok::<Seq<u8>, FsError>(Seq::empty())
        }),
{
    let p = components(path);
    let (parent, name) = v.resolve_parent(path)->Ok_0;
    lemma_walk_last(v, ROOT_INODE, p);
    lemma_create_at(v, path, KIND_FILE);
    let (c, made) = v.create(parent, name, KIND_FILE);
    let ino = made->Ok_0;
    lemma_overwrite_at(c, path, ino, data);
    lemma_overwrite(c, ino as int, data);
    lemma_inode_ok(c, ino as int);
    lemma_contents(c, c, ino as int);
    assert(c.read_file(path)->Ok_0 =~= Seq::<u8>::empty());
}

/// Removing a file takes its entry, and no other, out of the directory that holds
/// it; the other entries keep their order.
pub proof fn removed_file_is_unlisted(v: Volume, path: Seq<u8>, dir: Seq<u8>)
    requires
        sane(v),
        v.remove_file(path).1 is Ok,
        holds_path(dir, path),
    ensures
        ({
            let w = v.remove_file(path).0;
            let es = v.list_dir(dir)->Ok_0;
            let gone = Entry {
                ino: v.resolve(path)->Ok_0,
                is_dir: false,
                name: components(path).last(),
            };
            &&& v.list_dir(dir) is Ok
            &&& exists|a: int|
                0 <= a < es.len() && #[trigger] es[a] == gone && w.list_dir(dir) == Ok::<
                    Seq<Entry>,
                    FsError,
                >(es.remove(a))
        }),
{
    let p = components(path);
    let w = v.remove_file(path).0;
    let (parent, name) = v.resolve_parent(path)->Ok_0;
    lemma_walk_last(v, ROOT_INODE, p);
    let ino = v.resolve(path)->Ok_0;
    lemma_walk_used(v, p);
    lemma_inode_ok(v, ino as int);
    lemma_unlink_at(v, path, parent, name, ino);
    let a = lemma_unlink(v, parent, name, ino);
    lemma_entry(v, parent as int, a);
    let es = entries(v, parent as int);
    assert(v.dir_entries(parent as int as u32) is Ok);
    assert(es[a] == entry(v, parent as int, a));
}

/// Paths that went on below a removed file, and met what was no directory, lead
/// nowhere.
pub proof fn paths_below_a_removed_file(v: Volume, path: Seq<u8>, other: Seq<u8>)
    requires
        sane(v),
        v.remove_file(path).1 is Ok,
        components(path).is_prefix_of(components(other)),
        components(path) != components(other),
    ensures
        v.resolve(other) == Err::<u32, FsError>(FsError::WrongKind),
        v.remove_file(path).0.resolve(other) == Err::<u32, FsError>(FsError::NotFound),
{
    let p = components(path);
    let w = v.remove_file(path).0;
    let (parent, name) = v.resolve_parent(path)->Ok_0;
    lemma_walk_last(v, ROOT_INODE, p);
    let ino = v.resolve(path)->Ok_0;
    lemma_walk_used(v, p);
    lemma_inode_ok(v, ino as int);
    lemma_unlink_at(v, path, parent, name, ino);
    lemma_walk_below(v, p, components(other));
    lemma_walk_below(w, p, components(other));
}

/// Paths that go on below a new directory lead nowhere, as they did before.
pub proof fn paths_below_a_new_directory(v: Volume, path: Seq<u8>, other: Seq<u8>)
    requires
        sane(v),
        v.mkdir(path).1 is Ok,
        components(path).is_prefix_of(components(other)),
        components(path) != components(other),
    ensures
        v.resolve(other) == Err::<u32, FsError>(FsError::NotFound),
        v.mkdir(path).0.resolve(other) == Err::<u32, FsError>(FsError::NotFound),
{
    let p = components(path);
    let w = v.mkdir(path).0;
    lemma_walk_last(v, ROOT_INODE, p);
    lemma_create_at(v, path, KIND_DIR);
    let (parent, name) = v.resolve_parent(path)->Ok_0;
    assert(v.dir_entries(parent as int as u32) is Ok);
    lemma_walk_below(v, p, components(other));
    lemma_walk_empty(w, p, components(other));
}

/// Below an empty directory no path leads anywhere.
proof fn lemma_walk_empty(v: Volume, p: Seq<Seq<u8>>, q: Seq<Seq<u8>>)
    requires
        sane(v),
        p.is_prefix_of(q),
        p != q,
        v.walk(ROOT_INODE, p) matches Ok(d) && v.dir_entries(d) == Ok::<Seq<Entry>, FsError>(
            Seq::empty(),
        ),
    ensures
        v.walk(ROOT_INODE, q) == Err::<u32, FsError>(FsError::NotFound),
    decreases q.len(),
{
    let init = q.drop_last();
    assert(q.len() > p.len()) by {
        if q.len() == p.len() {
            assert(q =~= p);
        }
    }
    assert(p.is_prefix_of(init)) by {
        assert(init.subrange(0, p.len() as int) =~= q.subrange(0, p.len() as int));
    }
    lemma_walk_last(v, ROOT_INODE, q);
    if init != p {
        lemma_walk_empty(v, p, init);
    }
}

/// Why `remove_file` does not remove: the path leads nowhere, or to a directory; the
/// root is one.
pub proof fn remove_answers(v: Volume, path: Seq<u8>)
    requires
        sane(v),
    ensures
        ({
            let (w, r) = v.remove_file(path);
            &&& r is Ok <==> v.read_file(path) is Ok
            &&& r is Err ==> w == v && match v.resolve(path) {
                Err(e) => r == Err::<(), FsError>(e),
                Ok(_) => r == Err::<(), FsError>(FsError::WrongKind) && v.list_dir(path) is Ok,
            }
        }),
{
    let p = components(path);
    if p.len() == 0 {
        assert(v.resolve(path) == Ok::<u32, FsError>(ROOT_INODE));
        lemma_inode_ok(v, 0);
        assert(v.dir_entries(0int as u32) is Ok);
    } else {
        lemma_walk_last(v, ROOT_INODE, p);
        if let Ok((parent, name)) = v.resolve_parent(path) {
            if let Ok(ino) = v.lookup(parent, name) {
                lemma_walk_used(v, p);
                lemma_inode_ok(v, ino as int);
                lemma_contents(v, v, ino as int);
                if node(v, ino as int).kind == KIND_FILE {
                    lemma_unlink_at(v, path, parent, name, ino);
                } else {
                    assert(v.dir_entries(ino as int as u32) is Ok);
                }
            }
        }
    }
}

/// The parts of two paths joined by a `/` are those of both.
pub proof fn joined_paths_have_the_parts_of_both(a: Seq<u8>, b: Seq<u8>)
    ensures
        components(a + seq![0x2fu8] + b) == components(a) + components(b),
    decreases a.len(),
{
    let j = a + seq![0x2fu8] + b;
    if a.len() == 0 {
        assert(j.drop_first() =~= b);
        assert(components(a) + components(b) =~= components(b));
    } else if a[0] == 0x2f {
        assert(j.drop_first() =~= a.drop_first() + seq![0x2fu8] + b);
        joined_paths_have_the_parts_of_both(a.drop_first(), b);
    } else {
        lemma_word_joined(a, b);
        let n = word_len(a) as int;
        let rest = a.subrange(n, a.len() as int);
        assert(j.subrange(0, n) =~= a.subrange(0, n));
        assert(j.subrange(n, j.len() as int) =~= rest + seq![0x2fu8] + b);
        joined_paths_have_the_parts_of_both(rest, b);
        let first = seq![a.subrange(0, n)];
        assert(first + (components(rest) + components(b)) =~= (first + components(rest))
            + components(b));
    }
}

/// The first word of a path ends before a `/` that follows.
proof fn lemma_word_joined(a: Seq<u8>, b: Seq<u8>)
    ensures
        word_len(a + seq![0x2fu8] + b) == word_len(a),
        word_len(a) <= a.len(),
        a.len() > 0 && a[0] != 0x2f ==> word_len(a) > 0,
    decreases a.len(),
{
    let j = a + seq![0x2fu8] + b;
    if a.len() > 0 && a[0] != 0x2f {
        assert(j.drop_first() =~= a.drop_first() + seq![0x2fu8] + b);
        lemma_word_joined(a.drop_first(), b);
    }
}

/// A plain name is a path of one part.
pub proof fn plain_name_is_one_part(name: Seq<u8>)
    requires
        plain(name),
    ensures
        components(name) == seq![name],
{
    lemma_word_whole(name);
    let n = name.len() as int;
    assert(name.subrange(0, n) =~= name);
    assert(name.subrange(n, n) =~= Seq::<u8>::empty());
    assert(components(name.subrange(n, n)) == Seq::<Seq<u8>>::empty());
    assert(components(name) =~= seq![name]);
}

/// A name without a `/` is one word.
proof fn lemma_word_whole(name: Seq<u8>)
    requires
        forall|i: int| 0 <= i < name.len() ==> #[trigger] name[i] != 0x2f,
    ensures
        word_len(name) == name.len(),
    decreases name.len(),
{
    if name.len() > 0 {
        let rest = name.drop_first();
        assert forall|i: int| 0 <= i < rest.len() implies #[trigger] rest[i] != 0x2f by {
            assert(rest[i] == name[i + 1]);
        }
        lemma_word_whole(rest);
    }
}

/// What a listing holds: at most 96 entries; names of 1 to 23 bytes without a `/`, no
/// two alike; inodes other than the root's, no two alike.
pub proof fn listings_are_in_order(v: Volume, dir: Seq<u8>)
    requires
        sane(v),
        v.list_dir(dir) is Ok,
    ensures
        ({
            let es = v.list_dir(dir)->Ok_0;
            &&& es.len() <= 96
            &&& forall|a: int|
                0 <= a < es.len() ==> {
                    &&& plain((#[trigger] es[a]).name)
                    &&& es[a].name.len() <= 23
                    &&& es[a].ino != 0
                }
            &&& forall|a: int, b: int|
                0 <= a < es.len() && 0 <= b < es.len() && a != b ==> (#[trigger] es[a]).name != (
                #[trigger] es[b]).name && es[a].ino != es[b].ino
        }),
{
    let d = v.resolve(dir)->Ok_0;
    let es = entries(v, d as int);
    lemma_walk_used(v, components(dir));
    lemma_inode_ok(v, d as int);
    lemma_contents(v, v, d as int);
    assert(is_dir(v, d as int));
    assert(contents(v, d as int).len() == 32 * es.len());
    assert forall|a: int| 0 <= a < es.len() implies plain((#[trigger] es[a]).name)
        && es[a].name.len() <= 23 && es[a].ino != 0 by {
        assert(has_entry(v, d as int, a));
        lemma_entry(v, d as int, a);
    }
    assert forall|a: int, b: int| 0 <= a < es.len() && 0 <= b < es.len() && a != b implies (
    #[trigger] es[a]).name != (#[trigger] es[b]).name && es[a].ino != es[b].ino by {
        assert(has_entry(v, d as int, a) && has_entry(v, d as int, b));
        assert(entry(v, d as int, a).name != entry(v, d as int, b).name);
        assert(entry(v, d as int, a).ino != entry(v, d as int, b).ino);
    }
}

/// What a listing says of a name is what the path of that name in the directory
/// shows: it leads somewhere exactly where the name is listed, to the listed inode,
/// which can be listed if it is a directory and read if it is not.
pub proof fn listings_tell_what_paths_lead_to(v: Volume, dir: Seq<u8>, name: Seq<u8>)
    requires
        sane(v),
        v.list_dir(dir) is Ok,
        plain(name),
    ensures
        ({
            let es = v.list_dir(dir)->Ok_0;
            let path = dir + seq![0x2fu8] + name;
            &&& v.resolve(path) is Ok <==> exists|a: int|
                0 <= a < es.len() && (#[trigger] es[a]).name == name
            &&& forall|a: int|
                0 <= a < es.len() && (#[trigger] es[a]).name == name ==> {
                    &&& v.resolve(path) == Ok::<u32, FsError>(es[a].ino)
                    &&& v.list_dir(path) is Ok <==> es[a].is_dir
                    &&& v.read_file(path) is Ok <==> !es[a].is_dir
                }
        }),
{
    let path = dir + seq![0x2fu8] + name;
    let p = components(path);
    joined_paths_have_the_parts_of_both(dir, name);
    plain_name_is_one_part(name);
    assert(p.drop_last() =~= components(dir));
    assert(p.last() == name);
    lemma_walk_last(v, ROOT_INODE, p);
    let d = v.resolve(dir)->Ok_0;
    let es = entries(v, d as int);
    lemma_find(es, name);
    if let Ok(ino) = v.lookup(d, name) {
        let b = lemma_only_entry(v, d, name, ino);
        assert(es[b] == entry(v, d as int, b));
        lemma_walk_used(v, p);
        lemma_inode_ok(v, ino as int);
        lemma_contents(v, v, ino as int);
        if node(v, ino as int).kind == KIND_DIR {
            assert(v.dir_entries(ino as int as u32) is Ok);
        }
    }
}

/// What `write_file` answers where the path leads somewhere. A directory is of the wrong
/// kind. A file is written, unless the data is longer than six blocks or the data blocks run
/// out.
pub proof fn write_over_answers(v: Volume, path: Seq<u8>, data: Seq<u8>)
    requires
        sane(v),
        v.resolve(path) is Ok,
    ensures
        ({
            let (w, r) = v.write_file(path, data);
            &&& v.list_dir(path) is Ok && components(path).len() > 0 ==> r == Err::<u32, FsError>(
                FsError::WrongKind,
            ) && w == v
            &&& v.read_file(path) is Ok ==> if data.len() > 3072 {
                r == Err::<u32, FsError>(FsError::TooLarge)
            } else {
                r == v.resolve(path) || (r == Err::<u32, FsError>(FsError::NoSpace) && all_taken(w))
            }
        }),
{
    let p = components(path);
    let ino = v.resolve(path)->Ok_0;
    lemma_inode_ok(v, 0);
    if p.len() > 0 {
        lemma_walk_last(v, ROOT_INODE, p);
        lemma_walk_used(v, p);
        lemma_inode_ok(v, ino as int);
        lemma_contents(v, v, ino as int);
        if node(v, ino as int).kind == KIND_FILE {
            lemma_overwrite(v, ino as int, data);
        }
    }
}

/// What `write_file` answers where the path leads nowhere. Where a part before the last leads
/// nowhere either, that. Otherwise the file is written, unless its parent takes no new inode
/// of that name, the data is longer than six blocks, or the data blocks run out.
pub proof fn first_write_answers(v: Volume, path: Seq<u8>, data: Seq<u8>)
    requires
        sane(v),
        v.resolve(path) is Err,
    ensures
        ({
            let (w, r) = v.write_file(path, data);
            match v.resolve_parent(path) {
                Err(e) => r == Err::<u32, FsError>(e) && w == v,
                Ok((parent, name)) => {
                    &&& v.resolve(path) == Err::<u32, FsError>(FsError::NotFound) ==> match refusal(
                        v,
                        parent,
                        name,
                    ) {
                        Some(e) => r == Err::<u32, FsError>(e),
                        None => if data.len() > 3072 {
                            r == Err::<u32, FsError>(FsError::TooLarge)
                        } else {
                            r is Ok || (r == Err::<u32, FsError>(FsError::NoSpace) && all_taken(w))
                        },
                    }
                    &&& v.resolve(path) != Err::<u32, FsError>(FsError::NotFound) ==> r == v.resolve(
                        path,
                    ) && w == v
                },
            }
        }),
{
    let p = components(path);
    if let Ok((parent, name)) = v.resolve_parent(path) {
        lemma_walk_last(v, ROOT_INODE, p);
        if v.resolve(path) == Err::<u32, FsError>(FsError::NotFound) {
            lemma_create_at(v, path, KIND_FILE);
            let (c, made) = v.create(parent, name, KIND_FILE);
            if let Ok(ino) = made {
                lemma_overwrite(c, ino as int, data);
            }
        }
    }
}

/// What `read_file` and `list_dir` answer. A path that leads nowhere gives both why; one that
/// leads somewhere leads to a file, which is read and not listed, or to a directory, which is
/// listed and not read.
pub proof fn paths_lead_to_files_or_directories(v: Volume, path: Seq<u8>)
    requires
        sane(v),
    ensures
        match v.resolve(path) {
            Err(e) => {
                &&& e is NotFound || e is WrongKind
                &&& v.read_file(path) == Err::<Seq<u8>, FsError>(e)
                &&& v.list_dir(path) == Err::<Seq<Entry>, FsError>(e)
            },
            Ok(_) => {
                ||| v.read_file(path) is Ok && v.list_dir(path) == Err::<Seq<Entry>, FsError>(
                    FsError::WrongKind,
                )
                ||| v.list_dir(path) is Ok && v.read_file(path) == Err::<Seq<u8>, FsError>(
                    FsError::WrongKind,
                )
            },
        },
        components(path).len() == 0 ==> v.list_dir(path) is Ok,
{
    let p = components(path);
    lemma_inode_ok(v, 0);
    match v.resolve(path) {
        Err(_) => {
            lemma_walk_err(v, ROOT_INODE, p);
        },
        Ok(ino) => {
            lemma_walk_used(v, p);
            lemma_inode_ok(v, ino as int);
            lemma_contents(v, v, ino as int);
        },
    }
}

/// On a mounted volume in order, over a device whose hardware works, what `write_file` wrote
/// is there and `read_file` gives it back, every byte; other paths read as they did.
pub proof fn files_can_be_read_back<D: BlockDevice>(
    fs: &mut Fs<D>,
    path: &[u8],
    data: &[u8],
    r: Result<u32, FsError>,
    after: Fs<D>,
    got: Result<Vec<u8>, FsError>,
    there: bool,
    other: &[u8],
    was: Result<Vec<u8>, FsError>,
    now: Result<Vec<u8>, FsError>,
)
    requires
        sane(old(fs).volume()),
        old(fs).device().sound(),
        call_ensures(Fs::<D>::write_file, (fs, path, data), r),
        after == *final(fs),
        call_ensures(Fs::<D>::read_file, (&after, path), got),
        call_ensures(Fs::<D>::path_exists, (&after, path), there),
        !components(path@).is_prefix_of(components(other@)),
        call_ensures(Fs::<D>::read_file, (&*old(fs), other), was),
        call_ensures(Fs::<D>::read_file, (&after, other), now),
    ensures
        r is Ok ==> there && (got matches Ok(b) && b@ == data@),
        r is Ok ==> data@.len() <= 3072,
        r is Ok ==> (was is Ok <==> now is Ok) && (was matches Ok(b) ==> b@ == now->Ok_0@),
        r is Ok ==> (was matches Err(e) ==> now == Err::<Vec<u8>, FsError>(e)),
{
    let v = old(fs).volume();
    writing_leaves_other_files_alone(v, path@, data@);
    if v.resolve(path@) is Ok {
        write_over_answers(v, path@, data@);
        paths_lead_to_files_or_directories(v, path@);
    } else {
        first_write_answers(v, path@, data@);
        if r is Ok {
            lemma_walk_last(v, ROOT_INODE, components(path@));
        }
    }
    if r is Ok {
        written_file_reads_back(v, path@, data@);
    }
}

/// As [`files_can_be_read_back`], of directories and of what is removed. A new directory is
/// there and lists as empty; a file that was removed is there no more, and a file is removed
/// exactly where it could be read.
pub proof fn directories_come_and_files_go<D: BlockDevice>(
    a: &mut Fs<D>,
    path: &[u8],
    made: Result<u32, FsError>,
    after: Fs<D>,
    listed: Result<Vec<DirEntry>, FsError>,
    there: bool,
    b: &mut Fs<D>,
    read: Result<Vec<u8>, FsError>,
    removed: Result<(), FsError>,
    gone: Fs<D>,
    still: bool,
)
    requires
        sane(old(a).volume()),
        old(a).device().sound(),
        !old(a).device().write_protected(),
        call_ensures(Fs::<D>::mkdir, (a, path), made),
        after == *final(a),
        call_ensures(Fs::<D>::list_dir, (&after, path), listed),
        call_ensures(Fs::<D>::path_exists, (&after, path), there),
        *old(b) == *old(a),
        call_ensures(Fs::<D>::read_file, (&*old(a), path), read),
        call_ensures(Fs::<D>::remove_file, (b, path), removed),
        gone == *final(b),
        call_ensures(Fs::<D>::path_exists, (&gone, path), still),
    ensures
        made is Ok ==> there && (listed matches Ok(es) && es@.len() == 0),
        removed is Ok <==> read is Ok,
        removed is Ok ==> !still,
{
    let v = old(a).volume();
    if made is Ok {
        new_directory_is_empty(v, path@);
        assert(entry_views(listed->Ok_0@).len() == listed->Ok_0@.len());
    }
    remove_answers(v, path@);
    if removed is Ok {
        removed_file_is_gone(v, path@);
    }
}

} // verus!

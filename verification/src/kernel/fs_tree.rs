//! The tree that the directories of a sound volume form, and what each operation
//! does to the files that paths name.
use vstd::prelude::*;
use crate::kernel::fs_blocks::{is_ino, laid_out, lemma_inode_ok, node};
use crate::kernel::fs_format::{
    slot_bytes, slot_ino, slot_round_trips, slot_used, FsError, KIND_DIR, KIND_FILE, ROOT_INODE,
};
use crate::kernel::fs_model::{components, dir_bytes, find, links, word_len, Entry, Volume};
use crate::kernel::fs_owned::{contents, held, holds, lemma_contents, owned, same_shape};

verus! {

/// Inode `d` is a directory.
pub open spec fn is_dir(v: Volume, d: int) -> bool {
    is_ino(v, d) && node(v, d).kind == KIND_DIR
}

/// The entries of directory `d`.
pub open spec fn entries(v: Volume, d: int) -> Seq<Entry> {
    v.dir_entries(d as u32)->Ok_0
}

/// Directory `d` has an `a`-th entry.
pub open spec fn has_entry(v: Volume, d: int, a: int) -> bool {
    is_dir(v, d) && 0 <= a < entries(v, d).len()
}

/// The `a`-th entry of directory `d`.
pub open spec fn entry(v: Volume, d: int, a: int) -> Entry {
    entries(v, d)[a]
}

/// A name that a path can spell: not empty, and without a `/`.
pub open spec fn plain(name: Seq<u8>) -> bool {
    &&& name.len() > 0
    &&& forall|i: int| 0 <= i < name.len() ==> #[trigger] name[i] != 0x2f
}

/// The kind of an inode that is a file or a directory.
pub open spec fn in_use(kind: u32) -> bool {
    kind == KIND_FILE || kind == KIND_DIR
}

/// The directories can be read, hold nothing but their entries, name inodes in use,
/// name no inode twice, and hold no name twice and none that a path cannot spell.
/// The root is a directory.
pub open spec fn tree(v: Volume) -> bool {
    &&& node(v, 0).kind == KIND_DIR
    &&& forall|d: int| is_dir(v, d) ==> (#[trigger] v.dir_entries(d as u32)) is Ok
    &&& forall|d: int| is_dir(v, d) ==> #[trigger] contents(v, d).len() == 32 * entries(v, d).len()
    &&& forall|d: int, a: int| has_entry(v, d, a) ==> plain((#[trigger] entry(v, d, a)).name)
    &&& forall|d: int, a: int|
        has_entry(v, d, a) ==> in_use(node(v, (#[trigger] entry(v, d, a)).ino as int).kind)
    &&& forall|d: int, a: int, b: int|
        has_entry(v, d, a) && has_entry(v, d, b) && a != b ==> (#[trigger] entry(v, d, a)).name != (
        #[trigger] entry(v, d, b)).name
    &&& forall|d: int, a: int, e: int, b: int|
        has_entry(v, d, a) && has_entry(v, e, b) && (d != e || a != b) ==> (#[trigger] entry(
            v,
            d,
            a,
        )).ino != (#[trigger] entry(v, e, b)).ino
}

/// The volume is in order: regions apart, blocks held once, directories a tree.
pub open spec fn sane(v: Volume) -> bool {
    owned(v) && tree(v)
}

/// What links decode to.
pub open spec fn decoded(v: Volume, ls: Seq<(u32, Seq<u8>)>) -> Seq<Entry> {
    Seq::new(
        ls.len(),
        |a: int|
            Entry {
                ino: ls[a].0,
                is_dir: node(v, ls[a].0 as int).kind == KIND_DIR,
                name: ls[a].1,
            },
    )
}

/// What holds of every entry that was read.
pub proof fn lemma_entries_from(v: Volume, data: Seq<u8>, off: int)
    requires
        laid_out(v),
        0 <= off <= data.len(),
        v.entries_from(data, off) is Ok,
    ensures
        ({
            let es = v.entries_from(data, off)->Ok_0;
            &&& es.len() * 32 <= data.len() - off
            &&& forall|a: int|
                0 <= a < es.len() ==> {
                    &&& (#[trigger] es[a]).ino != 0
                    &&& is_ino(v, es[a].ino as int)
                    &&& es[a].name.len() <= 23
                    &&& es[a].is_dir == (node(v, es[a].ino as int).kind == KIND_DIR)
                }
        }),
    decreases data.len() - off,
{
    if off + 32 <= data.len() {
        let s = data.subrange(off, off + 32);
        lemma_entries_from(v, data, off + 32);
    }
}

/// Entries depend on the directory's contents and on which inodes they name are
/// directories.
pub proof fn lemma_entries_frame(v: Volume, w: Volume, data: Seq<u8>, off: int)
    requires
        laid_out(v),
        laid_out(w),
        same_shape(v, w),
        0 <= off <= data.len(),
        v.entries_from(data, off) is Ok,
        forall|a: int|
            0 <= a < v.entries_from(data, off)->Ok_0.len() ==> (node(
                w,
                (#[trigger] v.entries_from(data, off)->Ok_0[a]).ino as int,
            ).kind == KIND_DIR) == v.entries_from(data, off)->Ok_0[a].is_dir,
    ensures
        w.entries_from(data, off) == v.entries_from(data, off),
    decreases data.len() - off,
{
    if off + 32 <= data.len() {
        let s = data.subrange(off, off + 32);
        let rest = v.entries_from(data, off + 32)->Ok_0;
        let es = v.entries_from(data, off)->Ok_0;
        if slot_used(s) {
            assert(es.len() == rest.len() + 1);
            assert(es[0].ino == slot_ino(s));
            assert forall|a: int| 0 <= a < rest.len() implies (node(
                w,
                (#[trigger] rest[a]).ino as int,
            ).kind == KIND_DIR) == rest[a].is_dir by {
                assert(es[a + 1] == rest[a]);
            }
        }
        lemma_entries_frame(v, w, data, off + 32);
    }
}

/// Where the slots of an encoded directory stand.
pub proof fn lemma_dir_bytes(ls: Seq<(u32, Seq<u8>)>)
    requires
        forall|a: int| 0 <= a < ls.len() ==> (#[trigger] ls[a]).1.len() <= 23,
    ensures
        dir_bytes(ls).len() == 32 * ls.len(),
        forall|a: int|
            0 <= a < ls.len() ==> dir_bytes(ls).subrange(32 * a, 32 * a + 32) == slot_bytes(
                (#[trigger] ls[a]).0,
                ls[a].1,
            ),
    decreases ls.len(),
{
    if ls.len() > 0 {
        let init = ls.drop_last();
        assert forall|a: int| 0 <= a < init.len() implies (#[trigger] init[a]).1.len() <= 23 by {
            assert(init[a] == ls[a]);
        }
        lemma_dir_bytes(init);
        slot_round_trips(ls.last().0, ls.last().1);
        assert forall|a: int| 0 <= a < ls.len() implies dir_bytes(ls).subrange(32 * a, 32 * a + 32)
            == slot_bytes((#[trigger] ls[a]).0, ls[a].1) by {
            if a < init.len() {
                assert(init[a] == ls[a]);
                assert(dir_bytes(ls).subrange(32 * a, 32 * a + 32) =~= dir_bytes(init).subrange(
                    32 * a,
                    32 * a + 32,
                ));
            } else {
                assert(dir_bytes(ls).subrange(32 * a, 32 * a + 32) =~= slot_bytes(
                    ls.last().0,
                    ls.last().1,
                ));
            }
        }
    }
}

/// An encoded directory decodes to the entries it was made from.
pub proof fn lemma_decode_dir(v: Volume, ls: Seq<(u32, Seq<u8>)>, i: int)
    requires
        laid_out(v),
        0 <= i <= ls.len(),
        forall|a: int|
            0 <= a < ls.len() ==> (#[trigger] ls[a]).1.len() <= 23 && ls[a].0 != 0 && is_ino(
                v,
                ls[a].0 as int,
            ),
    ensures
        v.entries_from(dir_bytes(ls), 32 * i) == Ok::<Seq<Entry>, FsError>(
            decoded(v, ls).subrange(i, ls.len() as int),
        ),
    decreases ls.len() - i,
{
    lemma_dir_bytes(ls);
    let all = decoded(v, ls);
    if i < ls.len() {
        lemma_decode_dir(v, ls, i + 1);
        let s = dir_bytes(ls).subrange(32 * i, 32 * i + 32);
        slot_round_trips(ls[i].0, ls[i].1);
        assert(s == slot_bytes(ls[i].0, ls[i].1));
        lemma_inode_ok(v, ls[i].0 as int);
        assert(32 * (i + 1) == 32 * i + 32);
        assert(seq![all[i]] + all.subrange(i + 1, ls.len() as int) =~= all.subrange(
            i,
            ls.len() as int,
        ));
    } else {
        assert(all.subrange(i, ls.len() as int) =~= Seq::<Entry>::empty());
    }
}

/// Reading a directory of a volume with blocks in order.
pub proof fn lemma_dir_entries(v: Volume, d: int)
    requires
        owned(v),
        is_dir(v, d),
    ensures
        v.dir_entries(d as u32) == v.entries_from(contents(v, d), 0),
{
    lemma_inode_ok(v, d);
    lemma_contents(v, v, d);
}

/// What holds of every entry of a directory that can be read.
pub proof fn lemma_entry(v: Volume, d: int, a: int)
    requires
        owned(v),
        tree(v),
        has_entry(v, d, a),
    ensures
        entry(v, d, a).ino != 0,
        is_ino(v, entry(v, d, a).ino as int),
        entry(v, d, a).name.len() <= 23,
        plain(entry(v, d, a).name),
        entry(v, d, a).is_dir == (node(v, entry(v, d, a).ino as int).kind == KIND_DIR),
        in_use(node(v, entry(v, d, a).ino as int).kind),
        entries(v, d).len() * 32 <= contents(v, d).len(),
{
    lemma_dir_entries(v, d);
    lemma_entries_from(v, contents(v, d), 0);
}

/// A found name is that of an entry, and a name not found is none's.
pub proof fn lemma_find(es: Seq<Entry>, name: Seq<u8>)
    ensures
        match find(es, name) {
            Some(ino) => exists|a: int|
                0 <= a < es.len() && (#[trigger] es[a]).name == name && es[a].ino == ino,
            None => forall|a: int| 0 <= a < es.len() ==> (#[trigger] es[a]).name != name,
        },
    decreases es.len(),
{
    if es.len() > 0 && es[0].name != name {
        let rest = es.drop_first();
        lemma_find(rest, name);
        if let Some(ino) = find(rest, name) {
            let a = choose|a: int|
                0 <= a < rest.len() && (#[trigger] rest[a]).name == name && rest[a].ino == ino;
            assert(es[a + 1] == rest[a]);
        } else {
            assert forall|a: int| 0 <= a < es.len() implies (#[trigger] es[a]).name != name by {
                if a > 0 {
                    assert(es[a] == rest[a - 1]);
                }
            }
        }
    }
}

/// The entry that a successful lookup found.
pub proof fn lemma_lookup_ok(v: Volume, d: u32, name: Seq<u8>) -> (a: int)
    requires
        owned(v),
        tree(v),
        v.lookup(d, name) is Ok,
    ensures
        has_entry(v, d as int, a),
        entry(v, d as int, a).name == name,
        entry(v, d as int, a).ino == v.lookup(d, name)->Ok_0,
{
    let es = entries(v, d as int);
    lemma_find(es, name);
    let ino = v.lookup(d, name)->Ok_0;
    let a = choose|a: int| 0 <= a < es.len() && (#[trigger] es[a]).name == name && es[a].ino == ino;
    a
}

/// Walking a path takes its last step from where the rest of it leads.
pub proof fn lemma_walk_last(v: Volume, ino: u32, comps: Seq<Seq<u8>>)
    requires
        comps.len() > 0,
    ensures
        v.walk(ino, comps) == match v.walk(ino, comps.drop_last()) {
            Err(e) => Err(e),
            Ok(d) => v.lookup(d, comps.last()),
        },
    decreases comps.len(),
{
    if comps.len() == 1 {
        assert(comps.drop_last() =~= Seq::<Seq<u8>>::empty());
        assert(comps.drop_first() =~= Seq::<Seq<u8>>::empty());
        match v.lookup(ino, comps[0]) {
            Ok(next) => {
                assert(v.walk(next, comps.drop_first()) == Ok::<u32, FsError>(next));
            },
            Err(e) => {},
        }
    } else {
        let rest = comps.drop_first();
        assert(rest.drop_last() =~= comps.drop_last().drop_first());
        assert(rest.last() == comps.last());
        assert(comps.drop_last()[0] == comps[0]);
        if let Ok(next) = v.lookup(ino, comps[0]) {
            lemma_walk_last(v, next, rest);
        }
    }
}

/// A path from the root leads to the root or to an inode in use.
pub proof fn lemma_walk_used(v: Volume, comps: Seq<Seq<u8>>)
    requires
        owned(v),
        tree(v),
        v.walk(ROOT_INODE, comps) is Ok,
    ensures
        is_ino(v, v.walk(ROOT_INODE, comps)->Ok_0 as int),
        in_use(node(v, v.walk(ROOT_INODE, comps)->Ok_0 as int).kind),
        comps.len() > 0 ==> v.walk(ROOT_INODE, comps)->Ok_0 != 0,
{
    if comps.len() > 0 {
        lemma_walk_last(v, ROOT_INODE, comps);
        let d = v.walk(ROOT_INODE, comps.drop_last())->Ok_0;
        let a = lemma_lookup_ok(v, d, comps.last());
        lemma_entry(v, d as int, a);
    }
}

/// The first word of a path holds no `/`, and ends at one or at the end.
proof fn lemma_word(path: Seq<u8>)
    ensures
        word_len(path) <= path.len(),
        forall|i: int| 0 <= i < word_len(path) ==> #[trigger] path[i] != 0x2f,
        path.len() > 0 && path[0] != 0x2f ==> word_len(path) > 0,
        word_len(path) < path.len() ==> path[word_len(path) as int] == 0x2f,
    decreases path.len(),
{
    if path.len() > 0 && path[0] != 0x2f {
        let rest = path.drop_first();
        lemma_word(rest);
        assert forall|i: int| 0 <= i < word_len(path) implies #[trigger] path[i] != 0x2f by {
            if i > 0 {
                assert(path[i] == rest[i - 1]);
            }
        }
        if word_len(path) < path.len() {
            assert(path[word_len(path) as int] == rest[word_len(rest) as int]);
        }
    }
}

/// The parts of a path are plain names.
pub proof fn lemma_components(path: Seq<u8>)
    ensures
        forall|i: int| 0 <= i < components(path).len() ==> plain(#[trigger] components(path)[i]),
    decreases path.len(),
{
    if path.len() > 0 {
        if path[0] == 0x2f {
            lemma_components(path.drop_first());
            assert(components(path) == components(path.drop_first()));
        } else {
            lemma_word(path);
            let n = word_len(path) as int;
            let first = path.subrange(0, n);
            let rest = path.subrange(n, path.len() as int);
            lemma_components(rest);
            assert forall|i: int| 0 <= i < components(path).len() implies plain(
                #[trigger] components(path)[i],
            ) by {
                if i == 0 {
                    assert forall|j: int| 0 <= j < first.len() implies #[trigger] first[j]
                        != 0x2f by {
                        assert(first[j] == path[j]);
                    }
                    assert(components(path)[0] == first);
                } else {
                    assert(components(path)[i] == components(rest)[i - 1]);
                }
            }
        }
    }
}

/// Two paths that lead to one inode have the same components.
pub proof fn lemma_walk_unique(v: Volume, p: Seq<Seq<u8>>, q: Seq<Seq<u8>>)
    requires
        owned(v),
        tree(v),
        v.walk(ROOT_INODE, p) is Ok,
        v.walk(ROOT_INODE, p) == v.walk(ROOT_INODE, q),
    ensures
        p == q,
    decreases p.len(),
{
    if p.len() == 0 {
        if q.len() > 0 {
            lemma_walk_used(v, q);
        }
        assert(p =~= q);
    } else {
        lemma_walk_used(v, p);
        lemma_walk_last(v, ROOT_INODE, p);
        assert(q.len() > 0);
        lemma_walk_last(v, ROOT_INODE, q);
        let d = v.walk(ROOT_INODE, p.drop_last())->Ok_0;
        let e = v.walk(ROOT_INODE, q.drop_last())->Ok_0;
        let a = lemma_lookup_ok(v, d, p.last());
        let b = lemma_lookup_ok(v, e, q.last());
        assert(entry(v, d as int, a).ino == entry(v, e as int, b).ino);
        assert(d == e && a == b);
        lemma_walk_unique(v, p.drop_last(), q.drop_last());
        assert(p =~= p.drop_last().push(p.last()));
        assert(q =~= q.drop_last().push(q.last()));
    }
}

} // verus!

//! What the page tables promise: a mapped page translates, nothing else changes,
//! and two address spaces never share a table.
use vstd::prelude::*;
use vstd::arithmetic::div_mod::{
    lemma_div_denominator, lemma_fundamental_div_mod, lemma_fundamental_div_mod_converse,
};
use crate::kernel::frame::{free_frames_reachable, next_frame_is_free};
use crate::kernel::paging::{
    block_next, descend, descent_possible, entry_for, index_at, install, map_block, map_page,
    map_run, page_address, run_possible, span, tables_reachable, translate_from, Machine, MapFault,
    PageTableEncoder, Permissions,
};
use crate::kernel::phys_memory::{zero_words, Words};

verus! {

/// The tables of an address space, by base address, with the level each stands at.
pub type Levels = Map<u64, int>;

/// Slot `i` of the table at `a` points at a table of the next level.
pub open spec fn is_link<E: PageTableEncoder>(words: Words, levels: Levels, a: u64, i: int) -> bool {
    &&& levels.dom().contains(a)
    &&& 0 <= i < 512
    &&& levels[a] < 3
    &&& E::present(words[a][i])
    &&& !E::block(words[a][i], levels[a])
}

/// The table that slot `i` of the table at `a` points at.
pub open spec fn child_of<E: PageTableEncoder>(words: Words, a: u64, i: int) -> u64 {
    E::target(words[a][i])
}

/// A table of an address space: in memory, of 512 entries, aligned, and not free.
pub open spec fn is_table(m: Machine, levels: Levels, a: u64) -> bool {
    &&& m.words.dom().contains(a)
    &&& m.words[a].len() == 512
    &&& a % 4096 == 0
    &&& 0 <= levels[a] <= 3
    &&& !m.frames.free.contains(a as int / 4096)
}

/// `levels` are the tables of an address space, and they form a tree below the one
/// at `root`. Blocks stand one level above the pages only.
pub open spec fn is_tree<E: PageTableEncoder>(m: Machine, root: u64, levels: Levels) -> bool {
    &&& levels.dom().contains(root)
    &&& levels[root] == 0
    &&& forall|a: u64| #[trigger] levels.dom().contains(a) ==> is_table(m, levels, a)
    &&& forall|a: u64, i: int|
        is_link::<E>(m.words, levels, a, i) ==> levels.dom().contains(
            #[trigger] child_of::<E>(m.words, a, i),
        ) && levels[child_of::<E>(m.words, a, i)] == levels[a] + 1
    &&& forall|a: u64, i: int, b: u64, j: int|
        is_link::<E>(m.words, levels, a, i) && is_link::<E>(m.words, levels, b, j) && (a != b || i
            != j) ==> #[trigger] child_of::<E>(m.words, a, i) != #[trigger] child_of::<E>(
            m.words,
            b,
            j,
        )
    &&& forall|a: u64, i: int|
        levels.dom().contains(a) && levels[a] < 2 && 0 <= i < 512 && E::present(m.words[a][i])
            ==> !E::block(#[trigger] m.words[a][i], levels[a])
}

/// The allocator's free frames can be reached and can stand in an entry.
pub open spec fn frames_ready<E: PageTableEncoder>(m: Machine) -> bool {
    &&& m.frames.wf()
    &&& free_frames_reachable(m.frames, m.words)
    &&& forall|f: int|
        #[trigger] m.frames.free.contains(f) ==> E::encodable((f * 4096) as u64)
}

/// The table that `virt` leads to at level `k`, from the one at `t`, which stands
/// at level `l`.
pub open spec fn reach<E: PageTableEncoder>(
    words: Words,
    t: u64,
    virt: u64,
    l: int,
    k: int,
) -> Option<u64>
    decreases k - l,
{
    let e = entry_for(words, t, virt, l);
    if l >= k {
        Some(t)
    } else if E::present(e) && !E::block(e, l) {
        reach::<E>(words, E::target(e), virt, l + 1, k)
    } else {
        None
    }
}

/// Two addresses go by the same slots down to level `k`.
pub open spec fn same_slots(v1: u64, v2: u64, k: int) -> bool {
    forall|l: int| 0 <= l <= k ==> #[trigger] index_at(v1, l) == index_at(v2, l)
}

pub proof fn lemma_index(virt: u64, level: int)
    ensures
        0 <= index_at(virt, level) < 512,
{
}

/// One step further.
proof fn lemma_reach_step<E: PageTableEncoder>(words: Words, t: u64, virt: u64, l: int, k: int)
    requires
        l <= k,
    ensures
        reach::<E>(words, t, virt, l, k + 1) == match reach::<E>(words, t, virt, l, k) {
            None => None,
            Some(b) => {
                let e = entry_for(words, b, virt, k);
                if E::present(e) && !E::block(e, k) {
                    Some(E::target(e))
                } else {
                    None
                }
            },
        },
    decreases k - l,
{
    reveal_with_fuel(reach, 2);
    let e = entry_for(words, t, virt, l);
    if l < k && E::present(e) && !E::block(e, l) {
        lemma_reach_step::<E>(words, E::target(e), virt, l + 1, k);
    }
}

/// What is reached in a tree is a table of that level.
pub proof fn lemma_reach_table<E: PageTableEncoder>(
    m: Machine,
    root: u64,
    levels: Levels,
    t: u64,
    virt: u64,
    l: int,
    k: int,
)
    requires
        is_tree::<E>(m, root, levels),
        levels.dom().contains(t),
        levels[t] == l,
        l <= k <= 3,
        reach::<E>(m.words, t, virt, l, k) is Some,
    ensures
        levels.dom().contains(reach::<E>(m.words, t, virt, l, k)->Some_0),
        levels[reach::<E>(m.words, t, virt, l, k)->Some_0] == k,
    decreases k - l,
{
    if l < k {
        lemma_index(virt, l);
        let i = index_at(virt, l);
        assert(is_link::<E>(m.words, levels, t, i));
        let c = child_of::<E>(m.words, t, i);
        lemma_reach_table::<E>(m, root, levels, c, virt, l + 1, k);
    }
}

/// Two addresses that lead to one table went by the same slots.
proof fn lemma_reach_unique<E: PageTableEncoder>(
    m: Machine,
    root: u64,
    levels: Levels,
    t1: u64,
    t2: u64,
    v1: u64,
    v2: u64,
    l: int,
    k: int,
)
    requires
        is_tree::<E>(m, root, levels),
        levels.dom().contains(t1),
        levels.dom().contains(t2),
        levels[t1] == l,
        levels[t2] == l,
        0 <= l <= k <= 3,
        reach::<E>(m.words, t1, v1, l, k) is Some,
        reach::<E>(m.words, t1, v1, l, k) == reach::<E>(m.words, t2, v2, l, k),
    ensures
        t1 == t2,
        forall|j: int| l <= j < k ==> #[trigger] index_at(v1, j) == index_at(v2, j),
    decreases k - l,
{
    if l < k {
        let i1 = index_at(v1, l);
        let i2 = index_at(v2, l);
        lemma_index(v1, l);
        lemma_index(v2, l);
        assert(is_link::<E>(m.words, levels, t1, i1));
        assert(is_link::<E>(m.words, levels, t2, i2));
        let c1 = child_of::<E>(m.words, t1, i1);
        let c2 = child_of::<E>(m.words, t2, i2);
        lemma_reach_unique::<E>(m, root, levels, c1, c2, v1, v2, l + 1, k);
        assert(c1 == c2);
    }
}

/// `w2` holds what `w` holds in every slot of every table, but for slot `i` of the
/// table at `a`.
pub open spec fn differs_in_slot(w: Words, w2: Words, levels: Levels, a: u64, i: int) -> bool {
    forall|b: u64, j: int|
        levels.dom().contains(b) && 0 <= j < 512 && (b != a || j != i) ==> #[trigger] w2[b][j]
            == w[b][j]
}

/// An address goes by slot `i` of the table at `a`.
pub open spec fn goes_by<E: PageTableEncoder>(
    words: Words,
    levels: Levels,
    t: u64,
    virt: u64,
    l: int,
    a: u64,
    i: int,
) -> bool {
    &&& l <= levels[a]
    &&& reach::<E>(words, t, virt, l, levels[a]) == Some(a)
    &&& index_at(virt, levels[a]) == i
}

/// An address that does not go by the changed slot translates as before; one that
/// does translates from that slot's table on.
proof fn lemma_slot_changed<E: PageTableEncoder>(
    m: Machine,
    root: u64,
    levels: Levels,
    w2: Words,
    a: u64,
    i: int,
    t: u64,
    virt: u64,
    l: int,
)
    requires
        is_tree::<E>(m, root, levels),
        levels.dom().contains(a),
        levels.dom().contains(t),
        levels[t] == l,
        differs_in_slot(m.words, w2, levels, a, i),
    ensures
        if goes_by::<E>(m.words, levels, t, virt, l, a, i) {
            translate_from::<E>(w2, t, virt, l) == translate_from::<E>(w2, a, virt, levels[a])
                && translate_from::<E>(m.words, t, virt, l) == translate_from::<E>(
                m.words,
                a,
                virt,
                levels[a],
            ) && reach::<E>(w2, t, virt, l, levels[a]) == Some(a)
        } else {
            translate_from::<E>(w2, t, virt, l) == translate_from::<E>(m.words, t, virt, l)
        },
    decreases 3 - l,
{
    lemma_index(virt, l);
    let j = index_at(virt, l);
    let e = m.words[t][j];
    if t == a && j == i {
        assert(goes_by::<E>(m.words, levels, t, virt, l, a, i));
    } else if t == a {
        // Above the changed slot's level the address cannot come back.
        assert(w2[t][j] == e);
        assert(!goes_by::<E>(m.words, levels, t, virt, l, a, i));
        if l < 3 && E::present(e) && !E::block(e, l) {
            assert(is_link::<E>(m.words, levels, t, j));
            let c = child_of::<E>(m.words, t, j);
            lemma_slot_changed::<E>(m, root, levels, w2, a, i, c, virt, l + 1);
        }
    } else {
        assert(w2[t][j] == e);
        if l < 3 && E::present(e) && !E::block(e, l) {
            assert(is_link::<E>(m.words, levels, t, j));
            let c = child_of::<E>(m.words, t, j);
            lemma_slot_changed::<E>(m, root, levels, w2, a, i, c, virt, l + 1);
            if l >= levels[a] {
                assert(reach::<E>(m.words, t, virt, l, levels[a]) == Some(t));
            }
        } else if goes_by::<E>(m.words, levels, t, virt, l, a, i) {
            assert(l < levels[a]);
        }
    }
}

/// Every table on the way of an address in a tree can be reached.
pub proof fn tree_tables_are_reachable<E: PageTableEncoder>(
    m: Machine,
    root: u64,
    levels: Levels,
    t: u64,
    virt: u64,
)
    requires
        is_tree::<E>(m, root, levels),
        levels.dom().contains(t),
    ensures
        tables_reachable::<E>(m.words, t, virt, levels[t]),
    decreases 3 - levels[t],
{
    let l = levels[t];
    lemma_index(virt, l);
    let i = index_at(virt, l);
    if is_link::<E>(m.words, levels, t, i) {
        let c = child_of::<E>(m.words, t, i);
        tree_tables_are_reachable::<E>(m, root, levels, c, virt);
    }
}

/// A mapping can be tried at any address of a tree.
pub proof fn tree_descent_is_possible<E: PageTableEncoder>(
    m: Machine,
    root: u64,
    levels: Levels,
    t: u64,
    virt: u64,
    upto: int,
    checked: bool,
)
    requires
        is_tree::<E>(m, root, levels),
        levels.dom().contains(t),
        levels[t] <= upto <= 3,
        checked || upto <= 2,
    ensures
        descent_possible::<E>(m, t, virt, levels[t], upto, checked),
    decreases upto - levels[t],
{
    let l = levels[t];
    lemma_index(virt, l);
    let i = index_at(virt, l);
    assert(is_table(m, levels, t));
    if l < upto && E::present(m.words[t][i]) && !(checked && E::block(m.words[t][i], l)) {
        assert(is_link::<E>(m.words, levels, t, i));
        let c = child_of::<E>(m.words, t, i);
        tree_descent_is_possible::<E>(m, root, levels, c, virt, upto, checked);
    }
}

/// What an allocated, zeroed and linked table does to memory.
pub open spec fn linked<E: PageTableEncoder>(m: Machine, a: u64, i: int, f: int) -> Machine {
    let child = (f * 4096) as u64;
    let zeroed = m.words.insert(child, zero_words());
    Machine {
        words: zeroed.insert(a, zeroed[a].update(i, E::table_entry(child))),
        frames: m.frames.without(f),
    }
}

/// Linking a fresh table keeps the tree and every translation.
#[verifier::rlimit(60)]
pub proof fn lemma_link<E: PageTableEncoder>(
    m: Machine,
    root: u64,
    levels: Levels,
    a: u64,
    i: int,
    f: int,
)
    requires
        is_tree::<E>(m, root, levels),
        frames_ready::<E>(m),
        levels.dom().contains(a),
        levels[a] < 3,
        0 <= i < 512,
        !E::present(m.words[a][i]),
        m.frames.next() == Some(f),
    ensures
        ({
            let m2 = linked::<E>(m, a, i, f);
            let child = (f * 4096) as u64;
            let levels2 = levels.insert(child, levels[a] + 1);
            &&& m.frames.free.contains(f)
            &&& !levels.dom().contains(child)
            &&& is_tree::<E>(m2, root, levels2)
            &&& frames_ready::<E>(m2)
            &&& m2.words.dom() == m.words.dom()
            &&& forall|v: u64|
                #![trigger translate_from::<E>(m2.words, root, v, 0)]
                translate_from::<E>(m2.words, root, v, 0) == translate_from::<E>(
                    m.words,
                    root,
                    v,
                    0,
                )
            &&& forall|v: u64|
                #![trigger reach::<E>(m2.words, root, v, 0, levels[a])]
                reach::<E>(m.words, root, v, 0, levels[a]) == Some(a) && index_at(v, levels[a]) == i
                    ==> reach::<E>(m2.words, root, v, 0, levels[a]) == Some(a)
            &&& E::target(m2.words[a][i]) == child
            &&& E::present(m2.words[a][i])
            &&& !E::block(m2.words[a][i], levels[a])
            &&& forall|b: u64|
                b != a && b != child ==> #[trigger] m2.words[b] == m.words[b]
        }),
{
    let m2 = linked::<E>(m, a, i, f);
    let child = (f * 4096) as u64;
    let l = levels[a];
    let levels2 = levels.insert(child, l + 1);
    let entry = E::table_entry(child);
    next_frame_is_free(m.frames);
    E::empty_entry();
    E::table_entry_reads_back(child, l);
    assert(child as int / 4096 == f);
    assert(is_table(m, levels, a));
    assert(!levels.dom().contains(child)) by {
        if levels.dom().contains(child) {
            assert(is_table(m, levels, child));
        }
    }
    assert(m2.words[child] == zero_words());
    assert(m2.words[a] == m.words[a].update(i, entry));
    assert(m2.words.dom() =~= m.words.dom());
    assert forall|b: u64, j: int|
        levels.dom().contains(b) && 0 <= j < 512 && (b != a || j != i) implies
        #[trigger] m2.words[b][j] == m.words[b][j] by {
        assert(is_table(m, levels, b));
    }
    assert(differs_in_slot(m.words, m2.words, levels, a, i));
    // The tree.
    assert forall|b: u64| #[trigger] levels2.dom().contains(b) implies is_table(
        m2,
        levels2,
        b,
    ) by {
        if b != child {
            assert(is_table(m, levels, b));
        }
    }
    assert forall|b: u64, j: int| is_link::<E>(m2.words, levels2, b, j) implies (if b == a && j
        == i {
        #[trigger] child_of::<E>(m2.words, b, j) == child
    } else {
        &&& b != child
        &&& is_link::<E>(m.words, levels, b, j)
        &&& child_of::<E>(m2.words, b, j) == child_of::<E>(m.words, b, j)
    }) by {
        if b != child && !(b == a && j == i) {
            assert(m2.words[b][j] == m.words[b][j]);
        }
    }
    assert forall|b: u64, j: int| is_link::<E>(m2.words, levels2, b, j) implies
        levels2.dom().contains(#[trigger] child_of::<E>(m2.words, b, j)) && levels2[child_of::<E>(
        m2.words,
        b,
        j,
    )] == levels2[b] + 1 by {
        if !(b == a && j == i) {
            let c = child_of::<E>(m.words, b, j);
            assert(levels.dom().contains(c));
        }
    }
    assert forall|b: u64, j: int, c: u64, k: int|
        is_link::<E>(m2.words, levels2, b, j) && is_link::<E>(m2.words, levels2, c, k) && (b != c
            || j != k) implies #[trigger] child_of::<E>(m2.words, b, j) != #[trigger] child_of::<E>(
        m2.words,
        c,
        k,
    ) by {
        if b == a && j == i {
            assert(levels.dom().contains(child_of::<E>(m.words, c, k)));
        } else if c == a && k == i {
            assert(levels.dom().contains(child_of::<E>(m.words, b, j)));
        } else {
            assert(child_of::<E>(m.words, b, j) != child_of::<E>(m.words, c, k));
        }
    }
    assert forall|b: u64, j: int|
        levels2.dom().contains(b) && levels2[b] < 2 && 0 <= j < 512 && E::present(
            m2.words[b][j],
        ) implies !E::block(#[trigger] m2.words[b][j], levels2[b]) by {
        if b == child {
            assert(m2.words[b][j] == 0);
        } else if !(b == a && j == i) {
            assert(m2.words[b][j] == m.words[b][j]);
        }
    }
    // Every translation.
    assert forall|v: u64|
        #![trigger translate_from::<E>(m2.words, root, v, 0)]
        translate_from::<E>(m2.words, root, v, 0) == translate_from::<E>(m.words, root, v, 0) by {
        lemma_slot_changed::<E>(m, root, levels, m2.words, a, i, root, v, 0);
        if goes_by::<E>(m.words, levels, root, v, 0, a, i) {
            lemma_index(v, l + 1);
            assert(entry_for(m2.words, child, v, l + 1) == 0);
            assert(translate_from::<E>(m2.words, child, v, l + 1) is None);
            assert(entry_for(m2.words, a, v, l) == entry);
            assert(translate_from::<E>(m2.words, a, v, l) is None);
        }
    }
    assert forall|v: u64|
        #![trigger reach::<E>(m2.words, root, v, 0, levels[a])]
        reach::<E>(m.words, root, v, 0, levels[a]) == Some(a) && index_at(v, levels[a])
            == i implies reach::<E>(m2.words, root, v, 0, levels[a]) == Some(a) by {
        lemma_slot_changed::<E>(m, root, levels, m2.words, a, i, root, v, 0);
    }
    assert forall|g: int| #[trigger] m2.frames.free.contains(g) implies m2.words.dom().contains(
        (g * 4096) as u64,
    ) && E::encodable((g * 4096) as u64) by {
        assert(m.frames.free.contains(g));
    }
}

/// The tables after a descent.
pub open spec fn levels_after<E: PageTableEncoder>(
    m: Machine,
    levels: Levels,
    table: u64,
    virt: u64,
    level: int,
    upto: int,
    checked: bool,
) -> Levels
    decreases upto - level,
{
    if level >= upto {
        levels
    } else {
        let e = entry_for(m.words, table, virt, level);
        if E::present(e) {
            if checked && E::block(e, level) {
                levels
            } else {
                levels_after::<E>(m, levels, E::target(e), virt, level + 1, upto, checked)
            }
        } else {
            match m.frames.next() {
                None => levels,
                Some(f) => levels_after::<E>(
                    linked::<E>(m, table, index_at(virt, level), f),
                    levels.insert((f * 4096) as u64, level + 1),
                    (f * 4096) as u64,
                    virt,
                    level + 1,
                    upto,
                    checked,
                ),
            }
        }
    }
}

/// The tables of `b` are those of `a` and frames that were free.
pub open spec fn grown(m: Machine, a: Levels, b: Levels) -> bool {
    &&& forall|t: u64| #[trigger] a.dom().contains(t) ==> b.dom().contains(t) && b[t] == a[t]
    &&& forall|t: u64|
        #[trigger] b.dom().contains(t) && !a.dom().contains(t) ==> m.frames.free.contains(
            t as int / 4096,
        ) && t % 4096 == 0
}

/// Only frames in `levels` were written, and only free frames were taken.
pub open spec fn confined(m: Machine, m2: Machine, levels: Levels) -> bool {
    &&& m2.words.dom() == m.words.dom()
    &&& forall|b: u64| !levels.dom().contains(b) ==> #[trigger] m2.words[b] == m.words[b]
    &&& m2.frames.count == m.frames.count
    &&& forall|f: int| #[trigger] m2.frames.free.contains(f) ==> m.frames.free.contains(f)
    &&& forall|f: int|
        #[trigger] m.frames.free.contains(f) && !m2.frames.free.contains(f)
            ==> levels.dom().contains((f * 4096) as u64)
}

/// A descent keeps the tree and every translation, and ends at the table that the
/// address leads to.
#[verifier::rlimit(60)]
pub proof fn lemma_descend<E: PageTableEncoder>(
    m: Machine,
    root: u64,
    levels: Levels,
    table: u64,
    virt: u64,
    level: int,
    upto: int,
    checked: bool,
)
    requires
        is_tree::<E>(m, root, levels),
        frames_ready::<E>(m),
        levels.dom().contains(table),
        levels[table] == level,
        0 <= level <= upto <= 3,
        checked || upto <= 2,
        reach::<E>(m.words, root, virt, 0, level) == Some(table),
    ensures
        ({
            let (m2, r) = descend::<E>(m, table, virt, level, upto, checked);
            let levels2 = levels_after::<E>(m, levels, table, virt, level, upto, checked);
            &&& is_tree::<E>(m2, root, levels2)
            &&& frames_ready::<E>(m2)
            &&& grown(m, levels, levels2)
            &&& confined(m, m2, levels2)
            &&& forall|v: u64|
                #![trigger translate_from::<E>(m2.words, root, v, 0)]
                translate_from::<E>(m2.words, root, v, 0) == translate_from::<E>(
                    m.words,
                    root,
                    v,
                    0,
                )
            &&& match r {
                Ok(t) => {
                    &&& levels2.dom().contains(t)
                    &&& levels2[t] == upto
                    &&& reach::<E>(m2.words, root, virt, 0, upto) == Some(t)
                },
                Err(MapFault::Covered) => m2 == m && levels2 == levels && checked
                    && translate_from::<E>(m.words, table, virt, level) is Some,
                Err(MapFault::NoFrames) => m2.frames.free =~= Set::<int>::empty(),
                Err(_) => false,
            }
        }),
    decreases upto - level,
{
    if level < upto {
        lemma_index(virt, level);
        let i = index_at(virt, level);
        let e = entry_for(m.words, table, virt, level);
        lemma_reach_step::<E>(m.words, root, virt, 0, level);
        if E::present(e) {
            if checked && E::block(e, level) {
            } else {
                assert(is_link::<E>(m.words, levels, table, i));
                let c = child_of::<E>(m.words, table, i);
                lemma_descend::<E>(m, root, levels, c, virt, level + 1, upto, checked);
            }
        } else {
            next_frame_is_free(m.frames);
            if let Some(f) = m.frames.next() {
                lemma_link::<E>(m, root, levels, table, i, f);
                let m1 = linked::<E>(m, table, i, f);
                let child = (f * 4096) as u64;
                let levels1 = levels.insert(child, level + 1);
                assert(reach::<E>(m1.words, root, virt, 0, level) == Some(table));
                lemma_reach_step::<E>(m1.words, root, virt, 0, level);
                lemma_descend::<E>(m1, root, levels1, child, virt, level + 1, upto, checked);
                // Nothing is mapped below a fresh table.
                E::empty_entry();
                lemma_index(virt, level + 1);
                assert(child != table);
                assert(m1.words[child] == zero_words());
                assert(entry_for(m1.words, child, virt, level + 1) == 0);
                assert(translate_from::<E>(m1.words, child, virt, level + 1) is None);
                let m2 = descend::<E>(m, table, virt, level, upto, checked).0;
                let levels2 = levels_after::<E>(m, levels, table, virt, level, upto, checked);
                assert forall|v: u64|
                    #![trigger translate_from::<E>(m2.words, root, v, 0)]
                    translate_from::<E>(m2.words, root, v, 0) == translate_from::<E>(
                        m.words,
                        root,
                        v,
                        0,
                    ) by {
                    assert(translate_from::<E>(m1.words, root, v, 0) == translate_from::<E>(
                        m.words,
                        root,
                        v,
                        0,
                    ));
                }
                assert(grown(m, levels, levels2)) by {
                    assert forall|t: u64|
                        #[trigger] levels2.dom().contains(t) && !levels.dom().contains(
                            t,
                        ) implies m.frames.free.contains(t as int / 4096) && t % 4096 == 0 by {
                        if t != child {
                            assert(!levels1.dom().contains(t));
                            assert(m1.frames.free.contains(t as int / 4096));
                        }
                    }
                    assert forall|t: u64| #[trigger] levels.dom().contains(t) implies
                        levels2.dom().contains(t) && levels2[t] == levels[t] by {
                        assert(levels1.dom().contains(t));
                    }
                }
                assert(confined(m, m2, levels2)) by {
                    assert(levels1.dom().contains(child));
                    assert(levels2.dom().contains(child));
                    assert(levels1.dom().contains(table));
                    assert(levels2.dom().contains(table));
                    assert forall|b: u64| !levels2.dom().contains(b) implies #[trigger] m2.words[b]
                        == m.words[b] by {
                        assert(m1.words[b] == m.words[b]);
                    }
                    assert forall|g: int| #[trigger] m2.frames.free.contains(g) implies
                        m.frames.free.contains(g) by {
                        assert(m1.frames.free.contains(g));
                    }
                    assert forall|g: int|
                        #[trigger] m.frames.free.contains(g) && !m2.frames.free.contains(
                            g,
                        ) implies levels2.dom().contains((g * 4096) as u64) by {
                        if g != f {
                            assert(m1.frames.free.contains(g));
                        }
                    }
                }
            }
        }
    }
}

/// What filling an absent slot with a leaf does.
#[verifier::rlimit(60)]
proof fn lemma_fill<E: PageTableEncoder>(
    m: Machine,
    root: u64,
    levels: Levels,
    a: u64,
    virt: u64,
    entry: u64,
)
    requires
        is_tree::<E>(m, root, levels),
        frames_ready::<E>(m),
        levels.dom().contains(a),
        levels[a] == 3 || (levels[a] == 2 && E::block(entry, 2)),
        E::present(entry),
        reach::<E>(m.words, root, virt, 0, levels[a]) == Some(a),
        !E::present(entry_for(m.words, a, virt, levels[a])),
    ensures
        ({
            let i = index_at(virt, levels[a]);
            let m2 = Machine { words: m.words.insert(a, m.words[a].update(i, entry)), ..m };
            &&& is_tree::<E>(m2, root, levels)
            &&& frames_ready::<E>(m2)
            &&& confined(m, m2, levels)
            &&& forall|v: u64|
                #![trigger translate_from::<E>(m2.words, root, v, 0)]
                translate_from::<E>(m2.words, root, v, 0) == if same_slots(v, virt, levels[a]) {
                    Some(E::target(entry) | (v % span(levels[a])))
                } else {
                    translate_from::<E>(m.words, root, v, 0)
                }
            &&& forall|v: u64|
                #![trigger translate_from::<E>(m.words, root, v, 0)]
                same_slots(v, virt, levels[a]) ==> translate_from::<E>(m.words, root, v, 0) is None
        }),
{
    let l = levels[a];
    let i = index_at(virt, l);
    lemma_index(virt, l);
    let m2 = Machine { words: m.words.insert(a, m.words[a].update(i, entry)), ..m };
    assert(is_table(m, levels, a));
    assert(m2.words.dom() =~= m.words.dom());
    assert forall|b: u64, j: int|
        levels.dom().contains(b) && 0 <= j < 512 && (b != a || j != i) implies
        #[trigger] m2.words[b][j] == m.words[b][j] by {
        assert(is_table(m, levels, b));
    }
    assert forall|b: u64| #[trigger] levels.dom().contains(b) implies is_table(m2, levels, b) by {
        assert(is_table(m, levels, b));
    }
    assert forall|b: u64, j: int| is_link::<E>(m2.words, levels, b, j) implies is_link::<E>(
        m.words,
        levels,
        b,
        j,
    ) && #[trigger] child_of::<E>(m2.words, b, j) == child_of::<E>(m.words, b, j) by {
        if b == a && j == i {
            assert(m2.words[b][j] == entry);
        } else {
            assert(m2.words[b][j] == m.words[b][j]);
        }
    }
    assert forall|b: u64, j: int| is_link::<E>(m2.words, levels, b, j) implies
        levels.dom().contains(#[trigger] child_of::<E>(m2.words, b, j)) && levels[child_of::<E>(
        m2.words,
        b,
        j,
    )] == levels[b] + 1 by {
        assert(levels.dom().contains(child_of::<E>(m.words, b, j)));
    }
    assert forall|b: u64, j: int, c: u64, k: int|
        is_link::<E>(m2.words, levels, b, j) && is_link::<E>(m2.words, levels, c, k) && (b != c || j
            != k) implies #[trigger] child_of::<E>(m2.words, b, j) != #[trigger] child_of::<E>(
        m2.words,
        c,
        k,
    ) by {
        assert(child_of::<E>(m.words, b, j) != child_of::<E>(m.words, c, k));
    }
    assert forall|b: u64, j: int|
        levels.dom().contains(b) && levels[b] < 2 && 0 <= j < 512 && E::present(
            m2.words[b][j],
        ) implies !E::block(#[trigger] m2.words[b][j], levels[b]) by {
        assert(m2.words[b][j] == m.words[b][j]);
    }
    assert forall|v: u64| same_slots(v, virt, l) == #[trigger] goes_by::<E>(
        m.words,
        levels,
        root,
        v,
        0,
        a,
        i,
    ) by {
        if same_slots(v, virt, l) {
            lemma_reach_same::<E>(m.words, root, v, virt, 0, l);
            assert(index_at(v, l) == index_at(virt, l));
        } else if goes_by::<E>(m.words, levels, root, v, 0, a, i) {
            lemma_reach_unique::<E>(m, root, levels, root, root, v, virt, 0, l);
            assert forall|k: int| 0 <= k <= l implies #[trigger] index_at(v, k) == index_at(
                virt,
                k,
            ) by {
                if k < l {
                    assert(index_at(v, k) == index_at(virt, k));
                }
            }
            assert(same_slots(v, virt, l));
        }
    }
    assert forall|v: u64|
        #![trigger translate_from::<E>(m2.words, root, v, 0)]
        translate_from::<E>(m2.words, root, v, 0) == if same_slots(v, virt, l) {
            Some(E::target(entry) | (v % span(l)))
        } else {
            translate_from::<E>(m.words, root, v, 0)
        } by {
        assert(same_slots(v, virt, l) == goes_by::<E>(m.words, levels, root, v, 0, a, i));
        lemma_slot_changed::<E>(m, root, levels, m2.words, a, i, root, v, 0);
        if same_slots(v, virt, l) {
            assert(entry_for(m2.words, a, v, l) == entry);
        }
    }
    assert forall|v: u64|
        #![trigger translate_from::<E>(m.words, root, v, 0)]
        same_slots(v, virt, l) implies translate_from::<E>(m.words, root, v, 0) is None by {
        assert(same_slots(v, virt, l) == goes_by::<E>(m.words, levels, root, v, 0, a, i));
        lemma_slot_changed::<E>(m, root, levels, m.words, a, i, root, v, 0);
        assert(index_at(v, l) == i);
    }
}

/// Addresses that go by the same slots lead to the same table.
pub proof fn lemma_reach_same<E: PageTableEncoder>(
    words: Words,
    t: u64,
    v1: u64,
    v2: u64,
    l: int,
    k: int,
)
    requires
        same_slots(v1, v2, k),
        0 <= l,
    ensures
        reach::<E>(words, t, v1, l, k) == reach::<E>(words, t, v2, l, k),
    decreases k - l,
{
    if l < k {
        assert(index_at(v1, l) == index_at(v2, l));
        let e = entry_for(words, t, v1, l);
        lemma_reach_same::<E>(words, E::target(e), v1, v2, l + 1, k);
    }
}

/// From the table that an address leads to, it translates as from the root.
pub proof fn lemma_translate_via<E: PageTableEncoder>(
    words: Words,
    t: u64,
    virt: u64,
    l: int,
    k: int,
)
    requires
        l <= k <= 3,
        reach::<E>(words, t, virt, l, k) is Some,
    ensures
        translate_from::<E>(words, t, virt, l) == translate_from::<E>(
            words,
            reach::<E>(words, t, virt, l, k)->Some_0,
            virt,
            k,
        ),
    decreases k - l,
{
    if l < k {
        let e = entry_for(words, t, virt, l);
        lemma_translate_via::<E>(words, E::target(e), virt, l + 1, k);
    }
}

/// The tables of an address space after a mapping at `virt` was tried.
pub open spec fn tables_after<E: PageTableEncoder>(
    m: Machine,
    root: u64,
    levels: Levels,
    virt: u64,
    upto: int,
) -> Levels {
    levels_after::<E>(m, levels, root, virt, 0, upto, upto == 3)
}

/// What trying to fill the slot for `virt` at level `upto` does.
pub proof fn lemma_install<E: PageTableEncoder>(
    m: Machine,
    root: u64,
    levels: Levels,
    virt: u64,
    entry: u64,
    upto: int,
)
    requires
        is_tree::<E>(m, root, levels),
        frames_ready::<E>(m),
        upto == 3 || (upto == 2 && E::block(entry, 2)),
        E::present(entry),
    ensures
        ({
            let (m2, r) = install::<E>(m, root, virt, entry, upto, upto == 3);
            let levels2 = tables_after::<E>(m, root, levels, virt, upto);
            &&& is_tree::<E>(m2, root, levels2)
            &&& frames_ready::<E>(m2)
            &&& grown(m, levels, levels2)
            &&& confined(m, m2, levels2)
            &&& forall|v: u64|
                #![trigger translate_from::<E>(m2.words, root, v, 0)]
                translate_from::<E>(m2.words, root, v, 0) == if r is Ok && same_slots(
                    v,
                    virt,
                    upto,
                ) {
                    Some(E::target(entry) | (v % span(upto)))
                } else {
                    translate_from::<E>(m.words, root, v, 0)
                }
            &&& r is Ok ==> forall|v: u64|
                #![trigger translate_from::<E>(m.words, root, v, 0)]
                same_slots(v, virt, upto) ==> translate_from::<E>(m.words, root, v, 0) is None
            &&& r matches Err(fault) ==> !(fault is Unaligned)
            &&& upto == 3 && (r matches Err(MapFault::Covered) || r matches Err(MapFault::Mapped))
                ==> translate_from::<E>(m.words, root, virt, 0) is Some
            &&& r matches Err(MapFault::NoFrames) ==> m2.frames.free =~= Set::<int>::empty()
        }),
{
    let checked = upto == 3;
    lemma_descend::<E>(m, root, levels, root, virt, 0, upto, checked);
    let (m1, r1) = descend::<E>(m, root, virt, 0, upto, checked);
    let levels2 = tables_after::<E>(m, root, levels, virt, upto);
    if let Ok(t) = r1 {
        if E::present(entry_for(m1.words, t, virt, upto)) {
            lemma_translate_via::<E>(m1.words, root, virt, 0, upto);
            assert(translate_from::<E>(m1.words, root, virt, 0) == translate_from::<E>(
                m.words,
                root,
                virt,
                0,
            ));
        } else {
            lemma_fill::<E>(m1, root, levels2, t, virt, entry);
            let m2 = install::<E>(m, root, virt, entry, upto, checked).0;
            assert forall|v: u64|
                #![trigger translate_from::<E>(m2.words, root, v, 0)]
                translate_from::<E>(m2.words, root, v, 0) == if same_slots(v, virt, upto) {
                    Some(E::target(entry) | (v % span(upto)))
                } else {
                    translate_from::<E>(m.words, root, v, 0)
                } by {
                assert(translate_from::<E>(m1.words, root, v, 0) == translate_from::<E>(
                    m.words,
                    root,
                    v,
                    0,
                ));
            }
            assert forall|v: u64|
                #![trigger translate_from::<E>(m.words, root, v, 0)]
                same_slots(v, virt, upto) implies translate_from::<E>(
                m.words,
                root,
                v,
                0,
            ) is None by {
                assert(translate_from::<E>(m1.words, root, v, 0) == translate_from::<E>(
                    m.words,
                    root,
                    v,
                    0,
                ));
            }
        }
    }
}

/// A page and an offset into it share no bits, nor do a 2 MiB block and an offset
/// into it.
proof fn lemma_or_offset(base: u64, off: u64)
    ensures
        base % 4096 == 0 && off < 4096 ==> base | off == base + off,
        base % 0x20_0000 == 0 && off < 0x20_0000 ==> base | off == base + off,
{
    if base % 4096 == 0 && off < 4096 {
        assert(base | off == base + off) by (bit_vector)
            requires
                base % 4096 == 0,
                off < 4096,
        ;
    }
    if base % 0x20_0000 == 0 && off < 0x20_0000 {
        assert(base | off == base + off) by (bit_vector)
            requires
                base % 0x20_0000 == 0,
                off < 0x20_0000,
        ;
    }
}

/// A mapped page translates, byte for byte, to the frame it was mapped to, and
/// every address outside the page translates as it did.
pub proof fn mapped_page_translates<E: PageTableEncoder>(
    m: Machine,
    root: u64,
    levels: Levels,
    virt: u64,
    frame: u64,
    perms: Permissions,
)
    requires
        is_tree::<E>(m, root, levels),
        frames_ready::<E>(m),
        E::encodable(frame),
        frame % 4096 == 0,
        map_page::<E>(m, root, virt, frame, perms).1 is Ok,
    ensures
        forall|v: u64|
            #![trigger translate_from::<E>(map_page::<E>(m, root, virt, frame, perms).0.words, root, v, 0)]
            translate_from::<E>(map_page::<E>(m, root, virt, frame, perms).0.words, root, v, 0)
                == if same_slots(v, virt, 3) {
                Some((frame + v % 4096) as u64)
            } else {
                translate_from::<E>(m.words, root, v, 0)
            },
{
    E::leaf_entry_reads_back(frame, perms);
    let entry = E::leaf_entry(frame, perms);
    lemma_install::<E>(m, root, levels, virt, entry, 3);
    assert forall|v: u64| same_slots(v, virt, 3) implies frame | #[trigger] (v % span(3)) == frame
        + v % 4096 by {
        lemma_or_offset(frame, v % 4096);
    }
}

/// A 2 MiB block translates, byte for byte, to the region it was mapped to, and
/// every address outside the block translates as it did.
pub proof fn mapped_block_translates<E: PageTableEncoder>(
    m: Machine,
    root: u64,
    levels: Levels,
    virt: u64,
    frame: u64,
    perms: Permissions,
)
    requires
        is_tree::<E>(m, root, levels),
        frames_ready::<E>(m),
        E::encodable(frame),
        map_block::<E>(m, root, virt, frame, perms).1 is Ok,
    ensures
        forall|v: u64|
            #![trigger translate_from::<E>(map_block::<E>(m, root, virt, frame, perms).0.words, root, v, 0)]
            translate_from::<E>(map_block::<E>(m, root, virt, frame, perms).0.words, root, v, 0)
                == if same_slots(v, virt, 2) {
                Some((frame + v % 0x20_0000) as u64)
            } else {
                translate_from::<E>(m.words, root, v, 0)
            },
{
    E::block_entry_reads_back(frame, perms, 2);
    let entry = E::block_entry(frame, perms, 2);
    lemma_install::<E>(m, root, levels, virt, entry, 2);
    assert forall|v: u64| same_slots(v, virt, 2) implies frame | #[trigger] (v % span(2)) == frame
        + v % 0x20_0000 by {
        lemma_or_offset(frame, v % 0x20_0000);
    }
}

/// A page that already translates, be it through a page or through a larger block,
/// cannot be mapped again; and a refused mapping changes no translation.
pub proof fn mapped_page_is_not_remapped<E: PageTableEncoder>(
    m: Machine,
    root: u64,
    levels: Levels,
    virt: u64,
    frame: u64,
    perms: Permissions,
)
    requires
        is_tree::<E>(m, root, levels),
        frames_ready::<E>(m),
        E::encodable(frame),
    ensures
        ({
            let (m2, r) = map_page::<E>(m, root, virt, frame, perms);
            &&& translate_from::<E>(m.words, root, virt, 0) is Some ==> r is Err
            &&& (r matches Err(MapFault::Mapped) || r matches Err(MapFault::Covered))
                ==> translate_from::<E>(m.words, root, virt, 0) is Some
            &&& r matches Err(MapFault::NoFrames) ==> m2.frames.free =~= Set::<int>::empty()
            &&& r is Err ==> forall|v: u64|
                #![trigger translate_from::<E>(m2.words, root, v, 0)]
                translate_from::<E>(m2.words, root, v, 0) == translate_from::<E>(
                    m.words,
                    root,
                    v,
                    0,
                )
        }),
{
    E::leaf_entry_reads_back(frame, perms);
    let entry = E::leaf_entry(frame, perms);
    lemma_install::<E>(m, root, levels, virt, entry, 3);
    assert(same_slots(virt, virt, 3));
}

/// Mapping a page, whether it succeeds or not, leaves a tree of tables, adds only
/// frames that were free to it, and writes no frame outside it.
pub proof fn mapping_keeps_the_tree<E: PageTableEncoder>(
    m: Machine,
    root: u64,
    levels: Levels,
    virt: u64,
    frame: u64,
    perms: Permissions,
)
    requires
        is_tree::<E>(m, root, levels),
        frames_ready::<E>(m),
        E::encodable(frame),
    ensures
        ({
            let m2 = map_page::<E>(m, root, virt, frame, perms).0;
            let levels2 = if virt % 4096 == 0 {
                tables_after::<E>(m, root, levels, virt, 3)
            } else {
                levels
            };
            &&& is_tree::<E>(m2, root, levels2)
            &&& frames_ready::<E>(m2)
            &&& grown(m, levels, levels2)
            &&& confined(m, m2, levels2)
        }),
{
    E::leaf_entry_reads_back(frame, perms);
    lemma_install::<E>(m, root, levels, virt, E::leaf_entry(frame, perms), 3);
}

/// As [`mapping_keeps_the_tree`], for a 2 MiB block.
pub proof fn block_mapping_keeps_the_tree<E: PageTableEncoder>(
    m: Machine,
    root: u64,
    levels: Levels,
    virt: u64,
    frame: u64,
    perms: Permissions,
)
    requires
        is_tree::<E>(m, root, levels),
        frames_ready::<E>(m),
        E::encodable(frame),
    ensures
        ({
            let m2 = map_block::<E>(m, root, virt, frame, perms).0;
            let levels2 = if virt % 0x20_0000 == 0 && frame % 0x20_0000 == 0 {
                tables_after::<E>(m, root, levels, virt, 2)
            } else {
                levels
            };
            &&& is_tree::<E>(m2, root, levels2)
            &&& frames_ready::<E>(m2)
            &&& grown(m, levels, levels2)
            &&& confined(m, m2, levels2)
        }),
{
    E::block_entry_reads_back(frame, perms, 2);
    lemma_install::<E>(m, root, levels, virt, E::block_entry(frame, perms, 2), 2);
}

/// No table belongs to both.
pub open spec fn apart(a: Levels, b: Levels) -> bool {
    forall|t: u64| #[trigger] a.dom().contains(t) ==> !b.dom().contains(t)
}

/// What happens in the tables `la` of one address space leaves another, with the
/// tables `lb`, as it was.
pub proof fn lemma_other_space<E: PageTableEncoder>(
    m: Machine,
    m2: Machine,
    la: Levels,
    la2: Levels,
    root: u64,
    lb: Levels,
)
    requires
        is_tree::<E>(m, root, lb),
        apart(la, lb),
        grown(m, la, la2),
        confined(m, m2, la2),
    ensures
        is_tree::<E>(m2, root, lb),
        apart(la2, lb),
        forall|v: u64|
            #![trigger translate_from::<E>(m2.words, root, v, 0)]
            translate_from::<E>(m2.words, root, v, 0) == translate_from::<E>(m.words, root, v, 0),
{
    assert forall|t: u64| #[trigger] la2.dom().contains(t) implies !lb.dom().contains(t) by {
        if lb.dom().contains(t) {
            assert(is_table(m, lb, t));
            if la.dom().contains(t) {
            }
        }
    }
    assert forall|t: u64| #[trigger] lb.dom().contains(t) implies is_table(m2, lb, t)
        && m2.words[t] == m.words[t] by {
        assert(is_table(m, lb, t));
        assert(!la2.dom().contains(t));
        assert(m2.words[t] == m.words[t]);
    }
    assert forall|a: u64, i: int| is_link::<E>(m2.words, lb, a, i) implies is_link::<E>(
        m.words,
        lb,
        a,
        i,
    ) && #[trigger] child_of::<E>(m2.words, a, i) == child_of::<E>(m.words, a, i) by {
        assert(m2.words[a] == m.words[a]);
    }
    assert forall|a: u64, i: int| is_link::<E>(m2.words, lb, a, i) implies lb.dom().contains(
        #[trigger] child_of::<E>(m2.words, a, i),
    ) && lb[child_of::<E>(m2.words, a, i)] == lb[a] + 1 by {
        assert(lb.dom().contains(child_of::<E>(m.words, a, i)));
    }
    assert forall|a: u64, i: int, b: u64, j: int|
        is_link::<E>(m2.words, lb, a, i) && is_link::<E>(m2.words, lb, b, j) && (a != b || i
            != j) implies #[trigger] child_of::<E>(m2.words, a, i) != #[trigger] child_of::<E>(
        m2.words,
        b,
        j,
    ) by {
        assert(child_of::<E>(m.words, a, i) != child_of::<E>(m.words, b, j));
    }
    assert forall|a: u64, i: int|
        lb.dom().contains(a) && lb[a] < 2 && 0 <= i < 512 && E::present(m2.words[a][i]) implies
        !E::block(#[trigger] m2.words[a][i], lb[a]) by {
        assert(m2.words[a] == m.words[a]);
        assert(m2.words[a][i] == m.words[a][i]);
    }
    assert forall|v: u64|
        #![trigger translate_from::<E>(m2.words, root, v, 0)]
        translate_from::<E>(m2.words, root, v, 0) == translate_from::<E>(m.words, root, v, 0) by {
        lemma_slot_changed::<E>(m, root, lb, m2.words, root, -1, root, v, 0);
        lemma_index(v, 0);
    }
}

/// Two address spaces are independent: mapping a page in one leaves every
/// translation of the other as it was, and they still share no table.
pub proof fn spaces_are_independent<E: PageTableEncoder>(
    m: Machine,
    root_a: u64,
    la: Levels,
    root_b: u64,
    lb: Levels,
    virt: u64,
    frame: u64,
    perms: Permissions,
)
    requires
        is_tree::<E>(m, root_a, la),
        is_tree::<E>(m, root_b, lb),
        apart(la, lb),
        frames_ready::<E>(m),
        E::encodable(frame),
        virt % 4096 == 0,
    ensures
        ({
            let m2 = map_page::<E>(m, root_a, virt, frame, perms).0;
            let la2 = tables_after::<E>(m, root_a, la, virt, 3);
            &&& is_tree::<E>(m2, root_a, la2)
            &&& is_tree::<E>(m2, root_b, lb)
            &&& apart(la2, lb)
            &&& forall|v: u64|
                #![trigger translate_from::<E>(m2.words, root_b, v, 0)]
                translate_from::<E>(m2.words, root_b, v, 0) == translate_from::<E>(
                    m.words,
                    root_b,
                    v,
                    0,
                )
        }),
{
    mapping_keeps_the_tree::<E>(m, root_a, la, virt, frame, perms);
    let m2 = map_page::<E>(m, root_a, virt, frame, perms).0;
    let la2 = tables_after::<E>(m, root_a, la, virt, 3);
    lemma_other_space::<E>(m, m2, la, la2, root_b, lb);
}

/// A fresh, zeroed root is a tree of its own in which nothing is mapped, apart
/// from every address space that there was.
pub proof fn new_space_is_empty<E: PageTableEncoder>(m: Machine, f: int)
    requires
        frames_ready::<E>(m),
        m.frames.next() == Some(f),
    ensures
        ({
            let root = (f * 4096) as u64;
            let m2 = Machine {
                words: m.words.insert(root, zero_words()),
                frames: m.frames.without(f),
            };
            let levels = map![root => 0int];
            &&& is_tree::<E>(m2, root, levels)
            &&& frames_ready::<E>(m2)
            &&& grown(m, Map::empty(), levels)
            &&& confined(m, m2, levels)
            &&& forall|v: u64|
                #![trigger translate_from::<E>(m2.words, root, v, 0)]
                translate_from::<E>(m2.words, root, v, 0) is None
        }),
{
    next_frame_is_free(m.frames);
    E::empty_entry();
    let root = (f * 4096) as u64;
    assert(root as int / 4096 == f);
    let m2 = Machine { words: m.words.insert(root, zero_words()), frames: m.frames.without(f) };
    let levels = map![root => 0int];
    assert(m2.words.dom() =~= m.words.dom());
    assert forall|i: int| 0 <= i < 512 implies #[trigger] m2.words[root][i] == 0 by {}
    assert forall|g: int| #[trigger] m2.frames.free.contains(g) implies m2.words.dom().contains(
        (g * 4096) as u64,
    ) && E::encodable((g * 4096) as u64) by {
        assert(m.frames.free.contains(g));
    }
    assert forall|v: u64|
        #![trigger translate_from::<E>(m2.words, root, v, 0)]
        translate_from::<E>(m2.words, root, v, 0) is None by {
        lemma_index(v, 0);
        assert(m2.words[root][index_at(v, 0)] == 0);
    }
}

/// Growing twice is growing.
proof fn lemma_grown_twice(m: Machine, m1: Machine, m2: Machine, a: Levels, b: Levels, c: Levels)
    requires
        grown(m, a, b),
        confined(m, m1, b),
        grown(m1, b, c),
        confined(m1, m2, c),
    ensures
        grown(m, a, c),
        confined(m, m2, c),
{
    assert forall|t: u64| #[trigger] a.dom().contains(t) implies c.dom().contains(t) && c[t]
        == a[t] by {
        assert(b.dom().contains(t));
    }
    assert forall|t: u64| #[trigger] c.dom().contains(t) && !a.dom().contains(t) implies
        m.frames.free.contains(t as int / 4096) && t % 4096 == 0 by {
        if !b.dom().contains(t) {
            assert(m1.frames.free.contains(t as int / 4096));
        }
    }
    assert forall|x: u64| !c.dom().contains(x) implies #[trigger] m2.words[x] == m.words[x] by {
        if b.dom().contains(x) {
            assert(c.dom().contains(x));
        }
        assert(m1.words[x] == m.words[x]);
    }
    assert forall|f: int| #[trigger] m2.frames.free.contains(f) implies m.frames.free.contains(
        f,
    ) by {
        assert(m1.frames.free.contains(f));
    }
    assert forall|f: int| #[trigger] m.frames.free.contains(f) && !m2.frames.free.contains(
        f,
    ) implies c.dom().contains((f * 4096) as u64) by {
        if !m1.frames.free.contains(f) {
            assert(b.dom().contains((f * 4096) as u64));
        }
    }
}

/// The tables after a range was mapped from its `i`-th page on.
pub open spec fn tables_after_run<E: PageTableEncoder>(
    m: Machine,
    root: u64,
    levels: Levels,
    virt: u64,
    phys: u64,
    i: int,
    count: int,
    perms: Permissions,
) -> Levels
    decreases count - i,
{
    if i >= count {
        levels
    } else {
        let v = page_address(virt, i);
        let p = page_address(phys, i);
        if block_next(virt, phys, i, count) {
            let (m2, r) = map_block::<E>(m, root, v, p, perms);
            let levels2 = tables_after::<E>(m, root, levels, v, 2);
            if r is Ok {
                tables_after_run::<E>(m2, root, levels2, virt, phys, i + 512, count, perms)
            } else {
                levels2
            }
        } else {
            let (m2, r) = map_page::<E>(m, root, v, (p - p % 4096) as u64, perms);
            let levels2 = if v % 4096 == 0 {
                tables_after::<E>(m, root, levels, v, 3)
            } else {
                levels
            };
            if r is Ok {
                tables_after_run::<E>(m2, root, levels2, virt, phys, i + 1, count, perms)
            } else {
                levels2
            }
        }
    }
}

/// An offset below the unit does not change a quotient by a multiple of the unit.
proof fn lemma_div_offset(base: int, off: int, unit: int, times: int)
    requires
        unit > 0,
        times > 0,
        base >= 0,
        base % unit == 0,
        0 <= off < unit,
    ensures
        (base + off) / (unit * times) == base / (unit * times),
{
    lemma_div_denominator(base + off, unit, times);
    lemma_div_denominator(base, unit, times);
    assert((base + off) / unit == base / unit) by {
        lemma_fundamental_div_mod(base, unit);
        lemma_fundamental_div_mod_converse(base + off, unit, base / unit, off);
    }
}

/// Addresses within one page, or within one block, go by the same slots.
pub proof fn lemma_same_slots(base: u64, off: u64)
    ensures
        base % 4096 == 0 && off < 4096 && base + off <= u64::MAX ==> same_slots(
            (base + off) as u64,
            base,
            3,
        ),
        base % 0x20_0000 == 0 && off < 0x20_0000 && base + off <= u64::MAX ==> same_slots(
            (base + off) as u64,
            base,
            2,
        ),
{
    let v = (base + off) as u64;
    if base % 4096 == 0 && off < 4096 && base + off <= u64::MAX {
        lemma_div_offset(base as int, off as int, 0x1000, 0x800_0000);
        lemma_div_offset(base as int, off as int, 0x1000, 0x4_0000);
        lemma_div_offset(base as int, off as int, 0x1000, 0x200);
        lemma_div_offset(base as int, off as int, 0x1000, 1);
        assert(same_slots(v, base, 3));
    }
    if base % 0x20_0000 == 0 && off < 0x20_0000 && base + off <= u64::MAX {
        lemma_div_offset(base as int, off as int, 0x20_0000, 0x4_0000);
        lemma_div_offset(base as int, off as int, 0x20_0000, 0x200);
        lemma_div_offset(base as int, off as int, 0x20_0000, 1);
        assert(same_slots(v, base, 2));
    }
}

/// Every frame of a range can stand in an entry.
pub open spec fn range_encodable<E: PageTableEncoder>(phys: u64, count: int) -> bool {
    forall|j: int|
        0 <= j < count ==> E::encodable(
            (#[trigger] page_address(phys, j) - page_address(phys, j) % 4096) as u64,
        )
}

/// What a byte of a mapped range translates to.
pub open spec fn range_maps<E: PageTableEncoder>(
    words: Words,
    root: u64,
    virt: u64,
    phys: u64,
    j: int,
    off: u64,
) -> bool {
    translate_from::<E>(words, root, (page_address(virt, j) + off) as u64, 0) == Some(
        (page_address(phys, j) - page_address(phys, j) % 4096 + off) as u64,
    )
}

/// Address `v` lies in no page of a range from its `i`-th on. Translation goes by the
/// low 48 bits of an address, so that a page lies wherever those are its own.
pub open spec fn outside(virt: u64, i: int, count: int, v: u64) -> bool {
    forall|j: int| i <= j < count ==> !same_slots(v, #[trigger] page_address(virt, j), 3)
}

/// The slots of an address are those of its page in the low 48 bits.
pub proof fn slots_are_the_page_number(v: u64, w: u64)
    ensures
        same_slots(v, w, 3) <==> (v % 0x1_0000_0000_0000) / 4096 == (w % 0x1_0000_0000_0000) / 4096,
{
    assert((v % 0x1_0000_0000_0000u64) / 4096 == (w % 0x1_0000_0000_0000u64) / 4096 <==> (v
        / 0x80_0000_0000u64) % 512 == (w / 0x80_0000_0000u64) % 512 && (v / 0x4000_0000u64) % 512
        == (w / 0x4000_0000u64) % 512 && (v / 0x20_0000u64) % 512 == (w / 0x20_0000u64) % 512 && (v
        / 0x1000u64) % 512 == (w / 0x1000u64) % 512) by (bit_vector);
    if same_slots(v, w, 3) {
        assert(index_at(v, 0) == index_at(w, 0));
        assert(index_at(v, 1) == index_at(w, 1));
        assert(index_at(v, 2) == index_at(w, 2));
        assert(index_at(v, 3) == index_at(w, 3));
    }
}

/// An address in a block of a range lies in one of the block's pages.
pub proof fn lemma_block_page(virt: u64, phys: u64, i: int, count: int, v: u64) -> (j: int)
    requires
        0 <= i < count,
        virt + (count - 1) * 4096 <= u64::MAX,
        phys + (count - 1) * 4096 <= u64::MAX,
        block_next(virt, phys, i, count),
        same_slots(v, page_address(virt, i), 2),
    ensures
        i <= j < i + 512,
        same_slots(v, page_address(virt, j), 3),
{
    let b = page_address(virt, i);
    let k = index_at(v, 3);
    lemma_index(v, 3);
    let j = i + k;
    lemma_block_byte(virt, phys, i, j, 0, count);
    let d = (k * 4096) as u64;
    let w = page_address(virt, j);
    assert(w == b + d);
    lemma_same_slots(b, d);
    assert(index_at(w, 3) == k) by {
        let q = b as int / 0x20_0000;
        assert(b == 0x20_0000 * q);
        assert(w == 0x1000 * (512 * q + k));
        lemma_fundamental_div_mod_converse(w as int, 0x1000, 512 * q + k, 0);
        lemma_fundamental_div_mod_converse(512 * q + k, 512, q, k);
    }
    assert forall|l: int| 0 <= l <= 3 implies #[trigger] index_at(v, l) == index_at(w, l) by {
        if l < 3 {
            assert(index_at(v, l) == index_at(b, l));
            assert(index_at(w, l) == index_at(b, l));
        }
    }
    j
}

/// What mapping the pages of a range from the `i`-th on promises, where it took
/// `m` to `m2` and the tables from `levels` to `levels2`.
pub open spec fn run_promise<E: PageTableEncoder>(
    m: Machine,
    m2: Machine,
    ok: bool,
    root: u64,
    levels: Levels,
    levels2: Levels,
    virt: u64,
    phys: u64,
    i: int,
    count: int,
) -> bool {
    &&& is_tree::<E>(m2, root, levels2)
    &&& frames_ready::<E>(m2)
    &&& grown(m, levels, levels2)
    &&& confined(m, m2, levels2)
    &&& forall|v: u64|
        #![trigger translate_from::<E>(m2.words, root, v, 0)]
        translate_from::<E>(m.words, root, v, 0) is Some ==> translate_from::<E>(
            m2.words,
            root,
            v,
            0,
        ) == translate_from::<E>(m.words, root, v, 0)
    &&& forall|v: u64|
        #![trigger translate_from::<E>(m2.words, root, v, 0)]
        outside(virt, i, count, v) ==> translate_from::<E>(m2.words, root, v, 0)
            == translate_from::<E>(m.words, root, v, 0)
    &&& ok ==> forall|j: int, off: u64|
        i <= j < count && off < 4096 ==> #[trigger] range_maps::<E>(
            m2.words,
            root,
            virt,
            phys,
            j,
            off,
        )
}

/// The promise for a range that starts with a block, from that for the rest.
#[verifier::rlimit(60)]
proof fn lemma_run_block<E: PageTableEncoder>(
    m: Machine,
    m2: Machine,
    ok: bool,
    root: u64,
    levels: Levels,
    levels2: Levels,
    virt: u64,
    phys: u64,
    i: int,
    count: int,
    perms: Permissions,
)
    requires
        is_tree::<E>(m, root, levels),
        frames_ready::<E>(m),
        0 <= i < count,
        virt + (count - 1) * 4096 <= u64::MAX,
        phys + (count - 1) * 4096 <= u64::MAX,
        E::encodable(page_address(phys, i)),
        block_next(virt, phys, i, count),
        map_block::<E>(m, root, page_address(virt, i), page_address(phys, i), perms).1 is Ok,
        run_promise::<E>(
            map_block::<E>(m, root, page_address(virt, i), page_address(phys, i), perms).0,
            m2,
            ok,
            root,
            tables_after::<E>(m, root, levels, page_address(virt, i), 2),
            levels2,
            virt,
            phys,
            i + 512,
            count,
        ),
    ensures
        run_promise::<E>(m, m2, ok, root, levels, levels2, virt, phys, i, count),
{
    let v = page_address(virt, i);
    let p = page_address(phys, i);
    let m1 = map_block::<E>(m, root, v, p, perms).0;
    let levels1 = tables_after::<E>(m, root, levels, v, 2);
    E::block_entry_reads_back(p, perms, 2);
    lemma_install::<E>(m, root, levels, v, E::block_entry(p, perms, 2), 2);
    lemma_grown_twice(m, m1, m2, levels, levels1, levels2);
    lemma_kept_twice::<E>(m.words, m1.words, m2.words, root, v, 2);
    assert forall|x: u64|
        #![trigger translate_from::<E>(m2.words, root, x, 0)]
        outside(virt, i, count, x) implies translate_from::<E>(m2.words, root, x, 0)
        == translate_from::<E>(m.words, root, x, 0) by {
        if same_slots(x, v, 2) {
            let j = lemma_block_page(virt, phys, i, count, x);
            assert(!same_slots(x, page_address(virt, j), 3));
        }
        assert(outside(virt, i + 512, count, x));
        assert(translate_from::<E>(m1.words, root, x, 0) == translate_from::<E>(
            m.words,
            root,
            x,
            0,
        ));
    }
    if ok {
        assert forall|j: int, off: u64| i <= j < count && off < 4096 implies
            #[trigger] range_maps::<E>(m2.words, root, virt, phys, j, off) by {
            if j < i + 512 {
                lemma_block_byte(virt, phys, i, j, off, count);
                let d = ((j - i) * 4096 + off) as u64;
                let x = (v + d) as u64;
                lemma_same_slots(v, d);
                lemma_or_offset(p, d);
                assert(translate_from::<E>(m1.words, root, x, 0) == Some((p + d) as u64));
                assert(translate_from::<E>(m2.words, root, x, 0) == translate_from::<E>(
                    m1.words,
                    root,
                    x,
                    0,
                ));
            }
        }
    }
}

/// Where byte `off` of the `j`-th page of a range lies in the block that starts at
/// its `i`-th page.
pub proof fn lemma_block_byte(virt: u64, phys: u64, i: int, j: int, off: u64, count: int)
    requires
        0 <= i <= j < i + 512,
        j < count,
        off < 4096,
        virt + (count - 1) * 4096 <= u64::MAX,
        phys + (count - 1) * 4096 <= u64::MAX,
        block_next(virt, phys, i, count),
    ensures
        ({
            let v = page_address(virt, i);
            let p = page_address(phys, i);
            let d = (j - i) * 4096 + off;
            &&& d < 0x20_0000
            &&& v + d <= u64::MAX
            &&& p + d <= u64::MAX
            &&& (v + d) as u64 == (page_address(virt, j) + off) as u64
            &&& ((v + d) as u64) % 0x20_0000 == d
            &&& (p + d) as u64 == (page_address(phys, j) - page_address(phys, j) % 4096 + off) as u64
            &&& v % 0x20_0000 == 0
            &&& p % 0x20_0000 == 0
        }),
{
    let v = page_address(virt, i);
    let p = page_address(phys, i);
    let k = j - i;
    let d = k * 4096 + off;
    assert(i * 4096 <= (count - 1) * 4096);
    assert(j * 4096 <= (count - 1) * 4096);
    assert(v == virt + i * 4096);
    assert(p == phys + i * 4096);
    assert(page_address(virt, j) == v + k * 4096);
    assert(page_address(phys, j) == p + k * 4096);
    let qv = v as int / 0x20_0000;
    let qp = p as int / 0x20_0000;
    assert(v == 0x20_0000 * qv);
    assert(p == 0x20_0000 * qp);
    assert(qv <= 0x7FF_FFFF_FFFF);
    assert(qp <= 0x7FF_FFFF_FFFF);
    lemma_fundamental_div_mod_converse(v + d, 0x20_0000, qv, d);
    assert(p + k * 4096 == 4096 * (512 * qp + k));
    lemma_fundamental_div_mod_converse(p + k * 4096, 4096, 512 * qp + k, 0);
}

/// The promise for a range that starts with a page, from that for the rest.
#[verifier::rlimit(60)]
proof fn lemma_run_page<E: PageTableEncoder>(
    m: Machine,
    m2: Machine,
    ok: bool,
    root: u64,
    levels: Levels,
    levels2: Levels,
    virt: u64,
    phys: u64,
    i: int,
    count: int,
    perms: Permissions,
)
    requires
        is_tree::<E>(m, root, levels),
        frames_ready::<E>(m),
        0 <= i < count,
        virt + (count - 1) * 4096 <= u64::MAX,
        phys + (count - 1) * 4096 <= u64::MAX,
        E::encodable((page_address(phys, i) - page_address(phys, i) % 4096) as u64),
        page_address(virt, i) % 4096 == 0,
        map_page::<E>(
            m,
            root,
            page_address(virt, i),
            (page_address(phys, i) - page_address(phys, i) % 4096) as u64,
            perms,
        ).1 is Ok,
        run_promise::<E>(
            map_page::<E>(
                m,
                root,
                page_address(virt, i),
                (page_address(phys, i) - page_address(phys, i) % 4096) as u64,
                perms,
            ).0,
            m2,
            ok,
            root,
            tables_after::<E>(m, root, levels, page_address(virt, i), 3),
            levels2,
            virt,
            phys,
            i + 1,
            count,
        ),
    ensures
        run_promise::<E>(m, m2, ok, root, levels, levels2, virt, phys, i, count),
{
    let v = page_address(virt, i);
    let p = page_address(phys, i);
    let q = (p - p % 4096) as u64;
    let m1 = map_page::<E>(m, root, v, q, perms).0;
    let levels1 = tables_after::<E>(m, root, levels, v, 3);
    E::leaf_entry_reads_back(q, perms);
    lemma_install::<E>(m, root, levels, v, E::leaf_entry(q, perms), 3);
    lemma_grown_twice(m, m1, m2, levels, levels1, levels2);
    lemma_kept_twice::<E>(m.words, m1.words, m2.words, root, v, 3);
    assert forall|x: u64|
        #![trigger translate_from::<E>(m2.words, root, x, 0)]
        outside(virt, i, count, x) implies translate_from::<E>(m2.words, root, x, 0)
        == translate_from::<E>(m.words, root, x, 0) by {
        assert(!same_slots(x, page_address(virt, i), 3));
        assert(outside(virt, i + 1, count, x));
        assert(translate_from::<E>(m1.words, root, x, 0) == translate_from::<E>(
            m.words,
            root,
            x,
            0,
        ));
    }
    if ok {
        assert forall|j: int, off: u64| i <= j < count && off < 4096 implies
            #[trigger] range_maps::<E>(m2.words, root, virt, phys, j, off) by {
            if j == i {
                let x = (v + off) as u64;
                assert(v + off <= u64::MAX);
                lemma_same_slots(v, off);
                lemma_or_offset(q, off);
                assert(x % 4096 == off);
                assert(translate_from::<E>(m1.words, root, x, 0) == Some((q + off) as u64));
                assert(translate_from::<E>(m2.words, root, x, 0) == translate_from::<E>(
                    m1.words,
                    root,
                    x,
                    0,
                ));
            }
        }
    }
}

/// What mapping the rest of a range does.
#[verifier::rlimit(60)]
proof fn lemma_run<E: PageTableEncoder>(
    m: Machine,
    root: u64,
    levels: Levels,
    virt: u64,
    phys: u64,
    i: int,
    count: int,
    perms: Permissions,
)
    requires
        is_tree::<E>(m, root, levels),
        frames_ready::<E>(m),
        0 <= i,
        virt + (count - 1) * 4096 <= u64::MAX,
        phys + (count - 1) * 4096 <= u64::MAX,
        range_encodable::<E>(phys, count),
    ensures
        run_possible::<E>(m, root, virt, phys, i, count, perms),
        run_promise::<E>(
            m,
            map_run::<E>(m, root, virt, phys, i, count, perms).0,
            map_run::<E>(m, root, virt, phys, i, count, perms).1 is Ok,
            root,
            levels,
            tables_after_run::<E>(m, root, levels, virt, phys, i, count, perms),
            virt,
            phys,
            i,
            count,
        ),
    decreases count - i,
{
    if i < count {
        let v = page_address(virt, i);
        let p = page_address(phys, i);
        let q = (p - p % 4096) as u64;
        assert(E::encodable((page_address(phys, i) - page_address(phys, i) % 4096) as u64));
        let (m2, r) = map_run::<E>(m, root, virt, phys, i, count, perms);
        let levels2 = tables_after_run::<E>(m, root, levels, virt, phys, i, count, perms);
        if block_next(virt, phys, i, count) {
            assert(q == p);
            tree_descent_is_possible::<E>(m, root, levels, root, v, 2, false);
            let (m1, r1) = map_block::<E>(m, root, v, p, perms);
            E::block_entry_reads_back(p, perms, 2);
            lemma_install::<E>(m, root, levels, v, E::block_entry(p, perms, 2), 2);
            if r1 is Ok {
                let levels1 = tables_after::<E>(m, root, levels, v, 2);
                lemma_run::<E>(m1, root, levels1, virt, phys, i + 512, count, perms);
                lemma_run_block::<E>(
                    m,
                    m2,
                    r is Ok,
                    root,
                    levels,
                    levels2,
                    virt,
                    phys,
                    i,
                    count,
                    perms,
                );
            }
        } else {
            tree_descent_is_possible::<E>(m, root, levels, root, v, 3, true);
            let (m1, r1) = map_page::<E>(m, root, v, q, perms);
            E::leaf_entry_reads_back(q, perms);
            lemma_install::<E>(m, root, levels, v, E::leaf_entry(q, perms), 3);
            if r1 is Ok {
                let levels1 = tables_after::<E>(m, root, levels, v, 3);
                lemma_run::<E>(m1, root, levels1, virt, phys, i + 1, count, perms);
                lemma_run_page::<E>(
                    m,
                    m2,
                    r is Ok,
                    root,
                    levels,
                    levels2,
                    virt,
                    phys,
                    i,
                    count,
                    perms,
                );
            }
        }
    }
}

/// What translated before a mapping and after it, translates the same after the
/// next one.
proof fn lemma_kept_twice<E: PageTableEncoder>(
    w: Words,
    w1: Words,
    w2: Words,
    root: u64,
    virt: u64,
    upto: int,
)
    requires
        forall|v: u64|
            #![trigger translate_from::<E>(w1, root, v, 0)]
            !same_slots(v, virt, upto) ==> translate_from::<E>(w1, root, v, 0)
                == translate_from::<E>(w, root, v, 0),
        forall|v: u64|
            #![trigger translate_from::<E>(w, root, v, 0)]
            same_slots(v, virt, upto) ==> translate_from::<E>(w, root, v, 0) is None,
        forall|v: u64|
            #![trigger translate_from::<E>(w2, root, v, 0)]
            translate_from::<E>(w1, root, v, 0) is Some ==> translate_from::<E>(w2, root, v, 0)
                == translate_from::<E>(w1, root, v, 0),
    ensures
        forall|v: u64|
            #![trigger translate_from::<E>(w2, root, v, 0)]
            translate_from::<E>(w, root, v, 0) is Some ==> translate_from::<E>(w2, root, v, 0)
                == translate_from::<E>(w, root, v, 0),
{
    assert forall|v: u64|
        #![trigger translate_from::<E>(w2, root, v, 0)]
        translate_from::<E>(w, root, v, 0) is Some implies translate_from::<E>(w2, root, v, 0)
        == translate_from::<E>(w, root, v, 0) by {
        assert(!same_slots(v, virt, upto));
        assert(translate_from::<E>(w1, root, v, 0) == translate_from::<E>(w, root, v, 0));
    }
}

/// Mapping a range that succeeds maps every byte of every page of it, be it by
/// blocks or by pages. Whether it succeeds or not, it keeps every translation there
/// was, and every address outside the range translates as it did, or not, as it did
/// not. An empty range changes nothing.
pub proof fn mapped_range_translates<E: PageTableEncoder>(
    m: Machine,
    root: u64,
    levels: Levels,
    virt: u64,
    phys: u64,
    count: u64,
    perms: Permissions,
)
    requires
        is_tree::<E>(m, root, levels),
        frames_ready::<E>(m),
        virt + (count - 1) * 4096 <= u64::MAX,
        phys + (count - 1) * 4096 <= u64::MAX,
        range_encodable::<E>(phys, count as int),
    ensures
        ({
            let (m2, r) = map_run::<E>(m, root, virt, phys, 0, count as int, perms);
            &&& r is Ok ==> forall|j: int, off: u64|
                0 <= j < count && off < 4096 ==> #[trigger] range_maps::<E>(
                    m2.words,
                    root,
                    virt,
                    phys,
                    j,
                    off,
                )
            &&& forall|v: u64|
                #![trigger translate_from::<E>(m2.words, root, v, 0)]
                translate_from::<E>(m.words, root, v, 0) is Some ==> translate_from::<E>(
                    m2.words,
                    root,
                    v,
                    0,
                ) == translate_from::<E>(m.words, root, v, 0)
            &&& forall|v: u64|
                #![trigger translate_from::<E>(m2.words, root, v, 0)]
                outside(virt, 0, count as int, v) ==> translate_from::<E>(m2.words, root, v, 0)
                    == translate_from::<E>(m.words, root, v, 0)
            &&& count == 0 ==> m2 == m && r is Ok
        }),
{
    lemma_run::<E>(m, root, levels, virt, phys, 0, count as int, perms);
}

/// Mapping a range, whether it succeeds or not, can be tried on any tree, leaves a
/// tree, adds only frames that were free to it, and writes no frame outside it.
pub proof fn range_mapping_keeps_the_tree<E: PageTableEncoder>(
    m: Machine,
    root: u64,
    levels: Levels,
    virt: u64,
    phys: u64,
    count: u64,
    perms: Permissions,
)
    requires
        is_tree::<E>(m, root, levels),
        frames_ready::<E>(m),
        virt + (count - 1) * 4096 <= u64::MAX,
        phys + (count - 1) * 4096 <= u64::MAX,
        range_encodable::<E>(phys, count as int),
    ensures
        run_possible::<E>(m, root, virt, phys, 0, count as int, perms),
        ({
            let m2 = map_run::<E>(m, root, virt, phys, 0, count as int, perms).0;
            let levels2 = tables_after_run::<E>(
                m,
                root,
                levels,
                virt,
                phys,
                0,
                count as int,
                perms,
            );
            &&& is_tree::<E>(m2, root, levels2)
            &&& frames_ready::<E>(m2)
            &&& grown(m, levels, levels2)
            &&& confined(m, m2, levels2)
        }),
{
    lemma_run::<E>(m, root, levels, virt, phys, 0, count as int, perms);
}

} // verus!

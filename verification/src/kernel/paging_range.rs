//! When mapping a range succeeds.
use vstd::prelude::*;
use crate::kernel::frame::{frame_goes_out_and_comes_back, next_frame_is_free, Frames};
use crate::kernel::paging::{
    block_next, descend, entry_for, index_at, install, map_block, map_page, map_run, page_address,
    translate_from, Machine, MapFault, PageTableEncoder, Permissions, BLOCK_2M,
};
use crate::kernel::paging_laws::{
    child_of, frames_ready, is_link, is_table, is_tree, lemma_block_byte, lemma_block_page,
    lemma_descend, lemma_index, lemma_install, lemma_link, lemma_reach_same, lemma_reach_table,
    reach, lemma_same_slots, lemma_translate_via, levels_after, linked, range_encodable, same_slots,
    slots_are_the_page_number, tables_after, tables_after_run, Levels,
};
use crate::kernel::phys_memory::Words;

verus! {

/// Slot `i` of the table at `a` is filled.
pub open spec fn filled<E: PageTableEncoder>(words: Words, a: u64, i: int) -> bool {
    0 <= i < 512 && E::present(words[a][i])
}

/// Every table of pages, but the one at `but`, has a page in it. A table of pages is
/// made for the page that goes in it, and nothing is ever unmapped.
pub open spec fn settled<E: PageTableEncoder>(words: Words, levels: Levels, but: int) -> bool {
    forall|a: u64| #[trigger]
        levels.dom().contains(a) && levels[a] == 3 && a != but ==> exists|i: int|
            #[trigger] filled::<E>(words, a, i)
}

/// No page of a range from its `i`-th on translates.
pub open spec fn unmapped<E: PageTableEncoder>(
    words: Words,
    root: u64,
    virt: u64,
    i: int,
    count: int,
) -> bool {
    forall|j: int|
        i <= j < count ==> translate_from::<E>(words, root, #[trigger] page_address(virt, j), 0)
            is None
}

/// Where no frame is free, none is counted.
proof fn lemma_none_free(s: Frames, n: nat)
    requires
        s.free =~= Set::<int>::empty(),
    ensures
        s.free_below(n) == 0,
    decreases n,
{
    if n > 0 {
        lemma_none_free(s, (n - 1) as nat);
    }
}

/// A descent takes at most one frame for each level, and fails for want of frames
/// only where there were fewer.
proof fn lemma_descend_cost<E: PageTableEncoder>(
    m: Machine,
    table: u64,
    virt: u64,
    level: int,
    upto: int,
    checked: bool,
)
    requires
        m.frames.wf(),
        level <= upto,
    ensures
        ({
            let (m2, r) = descend::<E>(m, table, virt, level, upto, checked);
            &&& m2.frames.free_total() + (upto - level) >= m.frames.free_total()
            &&& r matches Err(MapFault::NoFrames) ==> m.frames.free_total() < upto - level
        }),
    decreases upto - level,
{
    if level < upto {
        let e = entry_for(m.words, table, virt, level);
        if E::present(e) {
            if !(checked && E::block(e, level)) {
                lemma_descend_cost::<E>(m, E::target(e), virt, level + 1, upto, checked);
            }
        } else {
            next_frame_is_free(m.frames);
            match m.frames.next() {
                None => {
                    lemma_none_free(m.frames, m.frames.count);
                },
                Some(f) => {
                    frame_goes_out_and_comes_back(m.frames, f);
                    lemma_descend_cost::<E>(
                        linked::<E>(m, table, index_at(virt, level), f),
                        (f * 4096) as u64,
                        virt,
                        level + 1,
                        upto,
                        checked,
                    );
                },
            }
        }
    }
}

/// A descent makes no table of pages but the one it ends at.
proof fn lemma_descend_settled<E: PageTableEncoder>(
    m: Machine,
    root: u64,
    levels: Levels,
    table: u64,
    virt: u64,
    level: int,
    upto: int,
    checked: bool,
)
    requires
        is_tree::<E>(m, root, levels),
        frames_ready::<E>(m),
        settled::<E>(m.words, levels, -1),
        levels.dom().contains(table),
        levels[table] == level,
        0 <= level <= upto <= 3,
        checked || upto <= 2,
    ensures
        ({
            let (m2, r) = descend::<E>(m, table, virt, level, upto, checked);
            let levels2 = levels_after::<E>(m, levels, table, virt, level, upto, checked);
            match r {
                Ok(t) => settled::<E>(
                    m2.words,
                    levels2,
                    if upto == 3 {
                        t as int
                    } else {
                        -1
                    },
                ),
                Err(_) => settled::<E>(m2.words, levels2, -1),
            }
        }),
    decreases upto - level,
{
    if level < upto {
        lemma_index(virt, level);
        let i = index_at(virt, level);
        let e = entry_for(m.words, table, virt, level);
        if E::present(e) {
            if !(checked && E::block(e, level)) {
                assert(is_link::<E>(m.words, levels, table, i));
                let c = child_of::<E>(m.words, table, i);
                lemma_descend_settled::<E>(m, root, levels, c, virt, level + 1, upto, checked);
            }
        } else {
            if let Some(f) = m.frames.next() {
                lemma_link::<E>(m, root, levels, table, i, f);
                let m1 = linked::<E>(m, table, i, f);
                let child = (f * 4096) as u64;
                let levels1 = levels.insert(child, level + 1);
                assert forall|a: u64| #[trigger]
                    levels1.dom().contains(a) && levels1[a] == 3 && a != child implies exists|k: int|
                 #[trigger] filled::<E>(m1.words, a, k) by {
                    assert(levels.dom().contains(a));
                    let k = choose|k: int| #[trigger] filled::<E>(m.words, a, k);
                    assert(filled::<E>(m1.words, a, k));
                }
                if level + 1 < upto {
                    lemma_descend_settled::<E>(
                        m1,
                        root,
                        levels1,
                        child,
                        virt,
                        level + 1,
                        upto,
                        checked,
                    );
                } else {
                    assert(descend::<E>(m1, child, virt, level + 1, upto, checked) == (
                        m1,
                        Ok::<u64, MapFault>(child),
                    ));
                    assert(levels_after::<E>(m1, levels1, child, virt, level + 1, upto, checked)
                        == levels1);
                }
            }
        }
    }
}

/// Filling a slot leaves every table of pages with a page in it.
proof fn lemma_install_settled<E: PageTableEncoder>(
    m: Machine,
    root: u64,
    levels: Levels,
    virt: u64,
    entry: u64,
    upto: int,
)
    requires
        is_tree::<E>(m, root, levels),
        frames_ready::<E>(m),
        settled::<E>(m.words, levels, -1),
        upto == 3 || (upto == 2 && E::block(entry, 2)),
        E::present(entry),
    ensures
        ({
            let (m2, r) = install::<E>(m, root, virt, entry, upto, upto == 3);
            &&& settled::<E>(m2.words, tables_after::<E>(m, root, levels, virt, upto), -1)
            &&& m2.frames.free_total() + upto >= m.frames.free_total()
            &&& r matches Err(MapFault::NoFrames) ==> m.frames.free_total() < upto
        }),
{
    let checked = upto == 3;
    lemma_descend::<E>(m, root, levels, root, virt, 0, upto, checked);
    lemma_descend_settled::<E>(m, root, levels, root, virt, 0, upto, checked);
    lemma_descend_cost::<E>(m, root, virt, 0, upto, checked);
    let (m1, r1) = descend::<E>(m, root, virt, 0, upto, checked);
    let levels2 = tables_after::<E>(m, root, levels, virt, upto);
    let m2 = install::<E>(m, root, virt, entry, upto, checked).0;
    if let Ok(t) = r1 {
        lemma_index(virt, upto);
        let s = index_at(virt, upto);
        assert(is_table(m1, levels2, t));
        assert forall|a: u64| #[trigger]
            levels2.dom().contains(a) && levels2[a] == 3 && a != -1 implies exists|k: int|
         #[trigger] filled::<E>(m2.words, a, k) by {
            if a == t {
                assert(filled::<E>(m2.words, a, s));
            } else {
                let k = choose|k: int| #[trigger] filled::<E>(m1.words, a, k);
                assert(filled::<E>(m2.words, a, k));
            }
        }
    }
}

/// A block is refused because its slot is taken only where a page of it translates.
proof fn lemma_block_taken<E: PageTableEncoder>(
    m: Machine,
    root: u64,
    levels: Levels,
    virt: u64,
    phys: u64,
    i: int,
    count: int,
    perms: Permissions,
)
    requires
        is_tree::<E>(m, root, levels),
        frames_ready::<E>(m),
        settled::<E>(m.words, levels, -1),
        0 <= i < count,
        virt + (count - 1) * 4096 <= u64::MAX,
        phys + (count - 1) * 4096 <= u64::MAX,
        block_next(virt, phys, i, count),
        map_block::<E>(m, root, page_address(virt, i), page_address(phys, i), perms).1 == Err::<
            (),
            MapFault,
        >(MapFault::Mapped),
    ensures
        !unmapped::<E>(m.words, root, virt, i, count),
{
    let v = page_address(virt, i);
    lemma_descend::<E>(m, root, levels, root, v, 0, 2, false);
    lemma_descend_settled::<E>(m, root, levels, root, v, 0, 2, false);
    let (m1, r1) = descend::<E>(m, root, v, 0, 2, false);
    let levels1 = levels_after::<E>(m, levels, root, v, 0, 2, false);
    let t = r1->Ok_0;
    let s = index_at(v, 2);
    lemma_index(v, 2);
    let e = entry_for(m1.words, t, v, 2);
    lemma_translate_via::<E>(m1.words, root, v, 0, 2);
    if E::block(e, 2) {
        assert(translate_from::<E>(m1.words, root, v, 0) is Some);
        assert(translate_from::<E>(m.words, root, page_address(virt, i), 0) is Some);
    } else {
        assert(is_link::<E>(m1.words, levels1, t, s));
        let c = child_of::<E>(m1.words, t, s);
        assert(levels1.dom().contains(c));
        let k = choose|k: int| #[trigger] filled::<E>(m1.words, c, k);
        assert(filled::<E>(m1.words, c, k));
        lemma_block_byte(virt, phys, i, i + k, 0, count);
        let d = (k * 4096) as u64;
        let x = page_address(virt, i + k);
        lemma_same_slots(v, d);
        assert(same_slots(x, v, 2));
        lemma_reach_same::<E>(m1.words, root, x, v, 0, 2);
        lemma_translate_via::<E>(m1.words, root, x, 0, 2);
        assert(index_at(x, 2) == index_at(v, 2));
        assert(index_at(x, 3) == k) by {
            let q = v as int / 0x20_0000;
            assert(v == 0x20_0000 * q);
            assert(x == 0x1000 * (512 * q + k));
            vstd::arithmetic::div_mod::lemma_fundamental_div_mod_converse(
                x as int,
                0x1000,
                512 * q + k,
                0,
            );
            vstd::arithmetic::div_mod::lemma_fundamental_div_mod_converse(
                512 * q + k,
                512,
                q,
                k,
            );
        }
        assert(translate_from::<E>(m1.words, c, x, 3) is Some);
        assert(translate_from::<E>(m1.words, root, x, 0) is Some);
        assert(translate_from::<E>(m.words, root, page_address(virt, i + k), 0) is Some);
    }
}

/// Two pages of a range no longer than the address space are not one page.
proof fn lemma_pages_apart(virt: u64, i: int, j: int, count: int)
    requires
        0 <= i < count,
        0 <= j < count,
        i != j,
        count <= 0x10_0000_0000,
        virt % 4096 == 0,
        virt + (count - 1) * 4096 <= u64::MAX,
    ensures
        !same_slots(page_address(virt, j), page_address(virt, i), 3),
{
    let a = page_address(virt, i);
    let b = page_address(virt, j);
    slots_are_the_page_number(b, a);
    assert(a == virt + i * 4096);
    assert(b == virt + j * 4096);
    let unit = 0x1_0000_0000_0000int;
    if same_slots(b, a, 3) {
        let qa = a as int / unit;
        let qb = b as int / unit;
        assert(a == unit * qa + a as int % unit);
        assert(b == unit * qb + b as int % unit);
        assert(a as int % 4096 == 0);
        assert(b as int % 4096 == 0);
        assert((a as int % unit) % 4096 == 0);
        assert((b as int % unit) % 4096 == 0);
        assert(a as int % unit == b as int % unit);
        assert((j - i) * 4096 == unit * (qb - qa));
        assert(qb == qa);
    }
}

/// Where the pages of a range start.
proof fn lemma_page_start(start: u64, i: int, count: int)
    requires
        0 <= i < count,
        start + (count - 1) * 4096 <= u64::MAX,
    ensures
        page_address(start, i) == start + i * 4096,
        start % 4096 == 0 ==> page_address(start, i) % 4096 == 0,
        page_address(start, i) % BLOCK_2M == 0 ==> page_address(start, i) % 4096 == 0,
{
}

/// Two pieces of a range that could each be a block are at least a block apart.
proof fn lemma_blocks_apart(virt: u64, phys: u64, i: int, k: int, count: int)
    requires
        0 <= i < k < count,
        virt + (count - 1) * 4096 <= u64::MAX,
        block_next(virt, phys, i, count),
        block_next(virt, phys, k, count),
    ensures
        k >= i + 512,
{
    let v = page_address(virt, i);
    let w = page_address(virt, k);
    lemma_page_start(virt, i, count);
    lemma_page_start(virt, k, count);
    let a = v as int / 0x20_0000;
    let b = w as int / 0x20_0000;
    assert(v == 0x20_0000 * a);
    assert(w == 0x20_0000 * b);
    assert((k - i) * 4096 == 0x20_0000 * (b - a));
}

/// With one block mapped, the pages behind it still do not translate.
proof fn lemma_rest_after_block<E: PageTableEncoder>(
    m: Machine,
    root: u64,
    w2: Words,
    virt: u64,
    phys: u64,
    i: int,
    count: int,
)
    requires
        0 <= i < count,
        virt % 4096 == 0,
        count <= 0x10_0000_0000,
        virt + (count - 1) * 4096 <= u64::MAX,
        phys + (count - 1) * 4096 <= u64::MAX,
        block_next(virt, phys, i, count),
        unmapped::<E>(m.words, root, virt, i, count),
        forall|x: u64|
            #![trigger translate_from::<E>(w2, root, x, 0)]
            !same_slots(x, page_address(virt, i), 2) ==> translate_from::<E>(w2, root, x, 0)
                == translate_from::<E>(m.words, root, x, 0),
    ensures
        unmapped::<E>(w2, root, virt, i + 512, count),
{
    let v = page_address(virt, i);
    assert forall|j: int| i + 512 <= j < count implies translate_from::<E>(
        w2,
        root,
        #[trigger] page_address(virt, j),
        0,
    ) is None by {
        let x = page_address(virt, j);
        if same_slots(x, v, 2) {
            let k = lemma_block_page(virt, phys, i, count, x);
            lemma_pages_apart(virt, k, j, count);
        }
        assert(translate_from::<E>(m.words, root, x, 0) is None);
    }
}

/// What keeps the rest of a range from being mapped.
#[verifier::rlimit(60)]
proof fn lemma_run_succeeds<E: PageTableEncoder>(
    m: Machine,
    root: u64,
    levels: Levels,
    virt: u64,
    phys: u64,
    i: int,
    count: int,
    perms: Permissions,
)
    requires
        is_tree::<E>(m, root, levels),
        frames_ready::<E>(m),
        settled::<E>(m.words, levels, -1),
        0 <= i,
        virt % 4096 == 0,
        count <= 0x10_0000_0000,
        virt + (count - 1) * 4096 <= u64::MAX,
        phys + (count - 1) * 4096 <= u64::MAX,
        range_encodable::<E>(phys, count),
        unmapped::<E>(m.words, root, virt, i, count),
    ensures
        ({
            let (m2, r) = map_run::<E>(m, root, virt, phys, i, count, perms);
            r matches Err(f) ==> {
                &&& f.fault is NoFrames
                &&& m2.frames.free =~= Set::<int>::empty()
                &&& m.frames.free_total() < 3 * (count - i)
            }
        }),
    decreases count - i,
{
    if i < count {
        let v = page_address(virt, i);
        let p = page_address(phys, i);
        let q = (p - p % 4096) as u64;
        lemma_page_start(virt, i, count);
        lemma_page_start(phys, i, count);
        assert(E::encodable((page_address(phys, i) - page_address(phys, i) % 4096) as u64));
        assert(translate_from::<E>(m.words, root, page_address(virt, i), 0) is None);
        if block_next(virt, phys, i, count) {
            assert(q == p);
            let (m1, r1) = map_block::<E>(m, root, v, p, perms);
            let levels1 = tables_after::<E>(m, root, levels, v, 2);
            E::block_entry_reads_back(p, perms, 2);
            lemma_install::<E>(m, root, levels, v, E::block_entry(p, perms, 2), 2);
            lemma_install_settled::<E>(m, root, levels, v, E::block_entry(p, perms, 2), 2);
            match r1 {
                Ok(_) => {
                    lemma_rest_after_block::<E>(m, root, m1.words, virt, phys, i, count);
                    lemma_run_succeeds::<E>(m1, root, levels1, virt, phys, i + 512, count, perms);
                },
                Err(f) => {
                    lemma_descend::<E>(m, root, levels, root, v, 0, 2, false);
                    if f is Mapped {
                        lemma_block_taken::<E>(m, root, levels, virt, phys, i, count, perms);
                    }
                },
            }
        } else {
            let (m1, r1) = map_page::<E>(m, root, v, q, perms);
            let levels1 = tables_after::<E>(m, root, levels, v, 3);
            E::leaf_entry_reads_back(q, perms);
            lemma_install::<E>(m, root, levels, v, E::leaf_entry(q, perms), 3);
            lemma_install_settled::<E>(m, root, levels, v, E::leaf_entry(q, perms), 3);
            if r1 is Ok {
                assert forall|j: int| i + 1 <= j < count implies translate_from::<E>(
                    m1.words,
                    root,
                    #[trigger] page_address(virt, j),
                    0,
                ) is None by {
                    lemma_pages_apart(virt, i, j, count);
                    assert(translate_from::<E>(m.words, root, page_address(virt, j), 0) is None);
                }
                lemma_run_succeeds::<E>(m1, root, levels1, virt, phys, i + 1, count, perms);
            }
        }
    }
}

/// A range of pages of which none translates yet is mapped, unless the frames for
/// its tables run out; three free frames for each page are always enough. The range
/// starts at a page and is no longer than the address space.
pub proof fn unmapped_range_is_mapped<E: PageTableEncoder>(
    m: Machine,
    root: u64,
    levels: Levels,
    virt: u64,
    phys: u64,
    count: u64,
    perms: Permissions,
)
    requires
        is_tree::<E>(m, root, levels),
        frames_ready::<E>(m),
        settled::<E>(m.words, levels, -1),
        virt % 4096 == 0,
        count <= 0x10_0000_0000,
        virt + (count - 1) * 4096 <= u64::MAX,
        phys + (count - 1) * 4096 <= u64::MAX,
        range_encodable::<E>(phys, count as int),
        unmapped::<E>(m.words, root, virt, 0, count as int),
    ensures
        ({
            let (m2, r) = map_run::<E>(m, root, virt, phys, 0, count as int, perms);
            &&& r matches Err(f) ==> f.fault is NoFrames && m2.frames.free =~= Set::<int>::empty()
            &&& m.frames.free_total() >= 3 * count ==> r is Ok
        }),
{
    lemma_run_succeeds::<E>(m, root, levels, virt, phys, 0, count as int, perms);
}

/// A new address space has no table of pages.
pub proof fn new_space_is_settled<E: PageTableEncoder>(words: Words, root: u64)
    ensures
        settled::<E>(words, map![root => 0int], -1),
{
}

/// Mapping a page or a block leaves no table of pages empty, whether it succeeds or
/// not.
pub proof fn mapping_keeps_tables_filled<E: PageTableEncoder>(
    m: Machine,
    root: u64,
    levels: Levels,
    virt: u64,
    frame: u64,
    perms: Permissions,
)
    requires
        is_tree::<E>(m, root, levels),
        frames_ready::<E>(m),
        settled::<E>(m.words, levels, -1),
        E::encodable(frame),
    ensures
        virt % 4096 == 0 ==> settled::<E>(
            map_page::<E>(m, root, virt, frame, perms).0.words,
            tables_after::<E>(m, root, levels, virt, 3),
            -1,
        ),
        virt % 0x20_0000 == 0 && frame % 0x20_0000 == 0 ==> settled::<E>(
            map_block::<E>(m, root, virt, frame, perms).0.words,
            tables_after::<E>(m, root, levels, virt, 2),
            -1,
        ),
{
    E::leaf_entry_reads_back(frame, perms);
    lemma_install_settled::<E>(m, root, levels, virt, E::leaf_entry(frame, perms), 3);
    E::block_entry_reads_back(frame, perms, 2);
    lemma_install_settled::<E>(m, root, levels, virt, E::block_entry(frame, perms, 2), 2);
}

/// Mapping a range leaves no table of pages empty, whether it succeeds or not.
pub proof fn range_mapping_keeps_tables_filled<E: PageTableEncoder>(
    m: Machine,
    root: u64,
    levels: Levels,
    virt: u64,
    phys: u64,
    i: int,
    count: int,
    perms: Permissions,
)
    requires
        is_tree::<E>(m, root, levels),
        frames_ready::<E>(m),
        settled::<E>(m.words, levels, -1),
        range_encodable::<E>(phys, count),
        0 <= i,
    ensures
        settled::<E>(
            map_run::<E>(m, root, virt, phys, i, count, perms).0.words,
            tables_after_run::<E>(m, root, levels, virt, phys, i, count, perms),
            -1,
        ),
    decreases count - i,
{
    if i < count {
        let v = page_address(virt, i);
        let p = page_address(phys, i);
        let q = (p - p % 4096) as u64;
        assert(E::encodable((page_address(phys, i) - page_address(phys, i) % 4096) as u64));
        if block_next(virt, phys, i, count) {
            assert(q == p);
            let m1 = map_block::<E>(m, root, v, p, perms).0;
            let levels1 = tables_after::<E>(m, root, levels, v, 2);
            mapping_keeps_tables_filled::<E>(m, root, levels, v, p, perms);
            E::block_entry_reads_back(p, perms, 2);
            lemma_install::<E>(m, root, levels, v, E::block_entry(p, perms, 2), 2);
            range_mapping_keeps_tables_filled::<E>(
                m1,
                root,
                levels1,
                virt,
                phys,
                i + 512,
                count,
                perms,
            );
        } else if v % 4096 == 0 {
            let m1 = map_page::<E>(m, root, v, q, perms).0;
            let levels1 = tables_after::<E>(m, root, levels, v, 3);
            mapping_keeps_tables_filled::<E>(m, root, levels, v, q, perms);
            E::leaf_entry_reads_back(q, perms);
            lemma_install::<E>(m, root, levels, v, E::leaf_entry(q, perms), 3);
            range_mapping_keeps_tables_filled::<E>(
                m1,
                root,
                levels1,
                virt,
                phys,
                i + 1,
                count,
                perms,
            );
        }
    }
}

/// What was filled in the tables of `levels` stays as it was.
pub open spec fn slots_kept<E: PageTableEncoder>(w: Words, w2: Words, levels: Levels) -> bool {
    forall|a: u64, i: int|
        levels.dom().contains(a) && filled::<E>(w, a, i) ==> #[trigger] w2[a][i] == w[a][i]
}

/// Slots kept twice are kept.
pub proof fn lemma_slots_kept_twice<E: PageTableEncoder>(
    w: Words,
    w1: Words,
    w2: Words,
    levels: Levels,
    levels1: Levels,
)
    requires
        slots_kept::<E>(w, w1, levels),
        slots_kept::<E>(w1, w2, levels1),
        forall|a: u64| #[trigger] levels.dom().contains(a) ==> levels1.dom().contains(a),
    ensures
        slots_kept::<E>(w, w2, levels),
{
    assert forall|a: u64, i: int|
        levels.dom().contains(a) && filled::<E>(w, a, i) implies #[trigger] w2[a][i]
        == w[a][i] by {
        assert(w1[a][i] == w[a][i]);
        assert(filled::<E>(w1, a, i));
    }
}

/// A descent fills empty slots only.
proof fn lemma_descend_keeps_slots<E: PageTableEncoder>(
    m: Machine,
    root: u64,
    levels: Levels,
    table: u64,
    virt: u64,
    level: int,
    upto: int,
    checked: bool,
)
    requires
        is_tree::<E>(m, root, levels),
        frames_ready::<E>(m),
        levels.dom().contains(table),
        levels[table] == level,
        0 <= level <= upto <= 3,
        checked || upto <= 2,
    ensures
        slots_kept::<E>(
            m.words,
            descend::<E>(m, table, virt, level, upto, checked).0.words,
            levels,
        ),
    decreases upto - level,
{
    if level < upto {
        lemma_index(virt, level);
        let i = index_at(virt, level);
        let e = entry_for(m.words, table, virt, level);
        if E::present(e) {
            if !(checked && E::block(e, level)) {
                assert(is_link::<E>(m.words, levels, table, i));
                let c = child_of::<E>(m.words, table, i);
                lemma_descend_keeps_slots::<E>(m, root, levels, c, virt, level + 1, upto, checked);
            }
        } else {
            if let Some(f) = m.frames.next() {
                lemma_link::<E>(m, root, levels, table, i, f);
                let m1 = linked::<E>(m, table, i, f);
                let child = (f * 4096) as u64;
                let levels1 = levels.insert(child, level + 1);
                assert(is_table(m, levels, table));
                assert(slots_kept::<E>(m.words, m1.words, levels));
                lemma_descend_keeps_slots::<E>(
                    m1,
                    root,
                    levels1,
                    child,
                    virt,
                    level + 1,
                    upto,
                    checked,
                );
                let m2 = descend::<E>(m, table, virt, level, upto, checked).0;
                lemma_slots_kept_twice::<E>(m.words, m1.words, m2.words, levels, levels1);
            }
        }
    }
}

/// Filling a slot that was empty keeps the others.
pub proof fn lemma_install_keeps_slots<E: PageTableEncoder>(
    m: Machine,
    root: u64,
    levels: Levels,
    virt: u64,
    entry: u64,
    upto: int,
)
    requires
        is_tree::<E>(m, root, levels),
        frames_ready::<E>(m),
        upto == 2 || upto == 3,
    ensures
        slots_kept::<E>(
            m.words,
            install::<E>(m, root, virt, entry, upto, upto == 3).0.words,
            levels,
        ),
{
    let checked = upto == 3;
    lemma_descend::<E>(m, root, levels, root, virt, 0, upto, checked);
    lemma_descend_keeps_slots::<E>(m, root, levels, root, virt, 0, upto, checked);
    let (m1, r1) = descend::<E>(m, root, virt, 0, upto, checked);
    let levels2 = tables_after::<E>(m, root, levels, virt, upto);
    let m2 = install::<E>(m, root, virt, entry, upto, checked).0;
    if let Ok(t) = r1 {
        lemma_index(virt, upto);
        assert(is_table(m1, levels2, t));
        assert(slots_kept::<E>(m1.words, m2.words, levels2));
        lemma_slots_kept_twice::<E>(m.words, m1.words, m2.words, levels, levels2);
    }
}

/// Mapping a range fills empty slots only.
pub proof fn lemma_run_keeps_slots<E: PageTableEncoder>(
    m: Machine,
    root: u64,
    levels: Levels,
    virt: u64,
    phys: u64,
    i: int,
    count: int,
    perms: Permissions,
)
    requires
        is_tree::<E>(m, root, levels),
        frames_ready::<E>(m),
        range_encodable::<E>(phys, count),
        0 <= i,
    ensures
        slots_kept::<E>(
            m.words,
            map_run::<E>(m, root, virt, phys, i, count, perms).0.words,
            levels,
        ),
    decreases count - i,
{
    if i < count {
        let v = page_address(virt, i);
        let p = page_address(phys, i);
        let q = (p - p % 4096) as u64;
        let m2 = map_run::<E>(m, root, virt, phys, i, count, perms).0;
        assert(E::encodable((page_address(phys, i) - page_address(phys, i) % 4096) as u64));
        if block_next(virt, phys, i, count) {
            assert(q == p);
            let (m1, r1) = map_block::<E>(m, root, v, p, perms);
            let levels1 = tables_after::<E>(m, root, levels, v, 2);
            E::block_entry_reads_back(p, perms, 2);
            lemma_install::<E>(m, root, levels, v, E::block_entry(p, perms, 2), 2);
            lemma_install_keeps_slots::<E>(m, root, levels, v, E::block_entry(p, perms, 2), 2);
            if r1 is Ok {
                lemma_run_keeps_slots::<E>(m1, root, levels1, virt, phys, i + 512, count, perms);
                lemma_slots_kept_twice::<E>(m.words, m1.words, m2.words, levels, levels1);
            }
        } else if v % 4096 == 0 {
            let (m1, r1) = map_page::<E>(m, root, v, q, perms);
            let levels1 = tables_after::<E>(m, root, levels, v, 3);
            E::leaf_entry_reads_back(q, perms);
            lemma_install::<E>(m, root, levels, v, E::leaf_entry(q, perms), 3);
            lemma_install_keeps_slots::<E>(m, root, levels, v, E::leaf_entry(q, perms), 3);
            if r1 is Ok {
                lemma_run_keeps_slots::<E>(m1, root, levels1, virt, phys, i + 1, count, perms);
                lemma_slots_kept_twice::<E>(m.words, m1.words, m2.words, levels, levels1);
            }
        }
    }
}

/// Where slots are kept, an address leads to the table it led to.
pub proof fn lemma_reach_kept<E: PageTableEncoder>(
    m: Machine,
    root: u64,
    levels: Levels,
    w2: Words,
    t: u64,
    virt: u64,
    l: int,
    k: int,
)
    requires
        is_tree::<E>(m, root, levels),
        slots_kept::<E>(m.words, w2, levels),
        levels.dom().contains(t),
        levels[t] == l,
        l <= k <= 3,
        reach::<E>(m.words, t, virt, l, k) is Some,
    ensures
        reach::<E>(w2, t, virt, l, k) == reach::<E>(m.words, t, virt, l, k),
    decreases k - l,
{
    if l < k {
        lemma_index(virt, l);
        let i = index_at(virt, l);
        assert(is_link::<E>(m.words, levels, t, i));
        assert(filled::<E>(m.words, t, i));
        assert(w2[t][i] == m.words[t][i]);
        let c = child_of::<E>(m.words, t, i);
        lemma_reach_kept::<E>(m, root, levels, w2, c, virt, l + 1, k);
    }
}

/// The address `virt` goes by the block entry for `frame`.
pub open spec fn by_block<E: PageTableEncoder>(
    words: Words,
    root: u64,
    virt: u64,
    frame: u64,
    perms: Permissions,
) -> bool {
    match reach::<E>(words, root, virt, 0, 2) {
        Some(t) => entry_for(words, t, virt, 2) == E::block_entry(frame, perms, 2),
        None => false,
    }
}

/// Where slots are kept, an address that went by a block goes by it.
pub proof fn lemma_by_block_kept<E: PageTableEncoder>(
    m: Machine,
    root: u64,
    levels: Levels,
    w2: Words,
    virt: u64,
    frame: u64,
    perms: Permissions,
)
    requires
        is_tree::<E>(m, root, levels),
        slots_kept::<E>(m.words, w2, levels),
        by_block::<E>(m.words, root, virt, frame, perms),
        E::encodable(frame),
    ensures
        by_block::<E>(w2, root, virt, frame, perms),
{
    let t = reach::<E>(m.words, root, virt, 0, 2)->Some_0;
    lemma_reach_table::<E>(m, root, levels, root, virt, 0, 2);
    lemma_reach_kept::<E>(m, root, levels, w2, root, virt, 0, 2);
    lemma_index(virt, 2);
    E::block_entry_reads_back(frame, perms, 2);
    assert(filled::<E>(m.words, t, index_at(virt, 2)));
    assert(w2[t][index_at(virt, 2)] == m.words[t][index_at(virt, 2)]);
}

/// A block that was mapped is gone by.
pub proof fn lemma_block_installed<E: PageTableEncoder>(
    m: Machine,
    root: u64,
    levels: Levels,
    virt: u64,
    frame: u64,
    perms: Permissions,
)
    requires
        is_tree::<E>(m, root, levels),
        frames_ready::<E>(m),
        E::encodable(frame),
        map_block::<E>(m, root, virt, frame, perms).1 is Ok,
    ensures
        by_block::<E>(
            map_block::<E>(m, root, virt, frame, perms).0.words,
            root,
            virt,
            frame,
            perms,
        ),
{
    lemma_descend::<E>(m, root, levels, root, virt, 0, 2, false);
    let (m1, r1) = descend::<E>(m, root, virt, 0, 2, false);
    let levels2 = tables_after::<E>(m, root, levels, virt, 2);
    let t = r1->Ok_0;
    let m2 = map_block::<E>(m, root, virt, frame, perms).0;
    lemma_index(virt, 2);
    assert(is_table(m1, levels2, t));
    assert(slots_kept::<E>(m1.words, m2.words, levels2));
    lemma_reach_kept::<E>(m1, root, levels2, m2.words, root, virt, 0, 2);
}

/// In a range that was mapped, the pages from the `k`-th on stand as one block where
/// both addresses there are multiples of 2 MiB and the range has 512 pages more.
pub proof fn aligned_pieces_become_blocks<E: PageTableEncoder>(
    m: Machine,
    root: u64,
    levels: Levels,
    virt: u64,
    phys: u64,
    i: int,
    count: int,
    perms: Permissions,
    k: int,
)
    requires
        is_tree::<E>(m, root, levels),
        frames_ready::<E>(m),
        0 <= i <= k < count,
        virt + (count - 1) * 4096 <= u64::MAX,
        phys + (count - 1) * 4096 <= u64::MAX,
        range_encodable::<E>(phys, count),
        block_next(virt, phys, k, count),
        map_run::<E>(m, root, virt, phys, i, count, perms).1 is Ok,
    ensures
        by_block::<E>(
            map_run::<E>(m, root, virt, phys, i, count, perms).0.words,
            root,
            page_address(virt, k),
            page_address(phys, k),
            perms,
        ),
    decreases count - i,
{
    let v = page_address(virt, i);
    let p = page_address(phys, i);
    let q = (p - p % 4096) as u64;
    let m2 = map_run::<E>(m, root, virt, phys, i, count, perms).0;
    lemma_page_start(phys, i, count);
    assert(E::encodable((page_address(phys, i) - page_address(phys, i) % 4096) as u64));
    if block_next(virt, phys, i, count) {
        assert(q == p);
        let m1 = map_block::<E>(m, root, v, p, perms).0;
        let levels1 = tables_after::<E>(m, root, levels, v, 2);
        E::block_entry_reads_back(p, perms, 2);
        lemma_install::<E>(m, root, levels, v, E::block_entry(p, perms, 2), 2);
        if k == i {
            lemma_block_installed::<E>(m, root, levels, v, p, perms);
            lemma_run_keeps_slots::<E>(m1, root, levels1, virt, phys, i + 512, count, perms);
            lemma_by_block_kept::<E>(m1, root, levels1, m2.words, v, p, perms);
        } else {
            lemma_blocks_apart(virt, phys, i, k, count);
            aligned_pieces_become_blocks::<E>(
                m1,
                root,
                levels1,
                virt,
                phys,
                i + 512,
                count,
                perms,
                k,
            );
        }
    } else {
        let m1 = map_page::<E>(m, root, v, q, perms).0;
        let levels1 = tables_after::<E>(m, root, levels, v, 3);
        E::leaf_entry_reads_back(q, perms);
        lemma_install::<E>(m, root, levels, v, E::leaf_entry(q, perms), 3);
        aligned_pieces_become_blocks::<E>(m1, root, levels1, virt, phys, i + 1, count, perms, k);
    }
}

/// The address `virt` goes by the page entry for `frame` with the rights `perms`.
pub open spec fn by_page<E: PageTableEncoder>(
    words: Words,
    root: u64,
    virt: u64,
    frame: u64,
    perms: Permissions,
) -> bool {
    match reach::<E>(words, root, virt, 0, 3) {
        Some(t) => entry_for(words, t, virt, 3) == E::leaf_entry(frame, perms),
        None => false,
    }
}

/// Where slots are kept, an address that went by a page goes by it.
pub proof fn lemma_by_page_kept<E: PageTableEncoder>(
    m: Machine,
    root: u64,
    levels: Levels,
    w2: Words,
    virt: u64,
    frame: u64,
    perms: Permissions,
)
    requires
        is_tree::<E>(m, root, levels),
        slots_kept::<E>(m.words, w2, levels),
        by_page::<E>(m.words, root, virt, frame, perms),
        E::encodable(frame),
    ensures
        by_page::<E>(w2, root, virt, frame, perms),
{
    let t = reach::<E>(m.words, root, virt, 0, 3)->Some_0;
    lemma_reach_table::<E>(m, root, levels, root, virt, 0, 3);
    lemma_reach_kept::<E>(m, root, levels, w2, root, virt, 0, 3);
    lemma_index(virt, 3);
    E::leaf_entry_reads_back(frame, perms);
    assert(filled::<E>(m.words, t, index_at(virt, 3)));
    assert(w2[t][index_at(virt, 3)] == m.words[t][index_at(virt, 3)]);
}

/// A page that was mapped is reached by its entry, which holds the frame and exactly the
/// rights that were asked for; the slots that were filled before hold what they held, so
/// that pages mapped earlier keep their frames and their rights.
pub proof fn mapped_page_has_its_rights<E: PageTableEncoder>(
    m: Machine,
    root: u64,
    levels: Levels,
    virt: u64,
    frame: u64,
    perms: Permissions,
)
    requires
        is_tree::<E>(m, root, levels),
        frames_ready::<E>(m),
        E::encodable(frame),
        map_page::<E>(m, root, virt, frame, perms).1 is Ok,
    ensures
        by_page::<E>(
            map_page::<E>(m, root, virt, frame, perms).0.words,
            root,
            virt,
            frame,
            perms,
        ),
        slots_kept::<E>(m.words, map_page::<E>(m, root, virt, frame, perms).0.words, levels),
{
    lemma_descend::<E>(m, root, levels, root, virt, 0, 3, true);
    let (m1, r1) = descend::<E>(m, root, virt, 0, 3, true);
    let levels2 = tables_after::<E>(m, root, levels, virt, 3);
    let t = r1->Ok_0;
    let m2 = map_page::<E>(m, root, virt, frame, perms).0;
    lemma_index(virt, 3);
    assert(is_table(m1, levels2, t));
    assert(slots_kept::<E>(m1.words, m2.words, levels2));
    lemma_reach_kept::<E>(m1, root, levels2, m2.words, root, virt, 0, 3);
    lemma_install_keeps_slots::<E>(m, root, levels, virt, E::leaf_entry(frame, perms), 3);
}

/// As [`mapped_page_has_its_rights`], for a 2 MiB block.
pub proof fn mapped_block_has_its_rights<E: PageTableEncoder>(
    m: Machine,
    root: u64,
    levels: Levels,
    virt: u64,
    frame: u64,
    perms: Permissions,
)
    requires
        is_tree::<E>(m, root, levels),
        frames_ready::<E>(m),
        E::encodable(frame),
        map_block::<E>(m, root, virt, frame, perms).1 is Ok,
    ensures
        by_block::<E>(
            map_block::<E>(m, root, virt, frame, perms).0.words,
            root,
            virt,
            frame,
            perms,
        ),
        slots_kept::<E>(m.words, map_block::<E>(m, root, virt, frame, perms).0.words, levels),
{
    lemma_block_installed::<E>(m, root, levels, virt, frame, perms);
    lemma_install_keeps_slots::<E>(m, root, levels, virt, E::block_entry(frame, perms, 2), 2);
}

/// Every page of a range that was mapped is reached by an entry with exactly the rights
/// that were asked for: by the entry of its own frame, or by that of the 2 MiB block in
/// which its frame lies.
pub proof fn mapped_range_has_its_rights<E: PageTableEncoder>(
    m: Machine,
    root: u64,
    levels: Levels,
    virt: u64,
    phys: u64,
    i: int,
    count: int,
    perms: Permissions,
    j: int,
)
    requires
        is_tree::<E>(m, root, levels),
        frames_ready::<E>(m),
        0 <= i <= j < count,
        virt + (count - 1) * 4096 <= u64::MAX,
        phys + (count - 1) * 4096 <= u64::MAX,
        range_encodable::<E>(phys, count),
        map_run::<E>(m, root, virt, phys, i, count, perms).1 is Ok,
    ensures
        ({
            let words = map_run::<E>(m, root, virt, phys, i, count, perms).0.words;
            let v = page_address(virt, j);
            let p = page_address(phys, j);
            ||| by_page::<E>(words, root, v, (p - p % 4096) as u64, perms)
            ||| by_block::<E>(words, root, v, (p - p % 0x20_0000) as u64, perms)
        }),
    decreases count - i,
{
    let v = page_address(virt, i);
    let p = page_address(phys, i);
    let q = (p - p % 4096) as u64;
    let m2 = map_run::<E>(m, root, virt, phys, i, count, perms).0;
    assert(E::encodable((page_address(phys, i) - page_address(phys, i) % 4096) as u64));
    if block_next(virt, phys, i, count) {
        assert(q == p);
        let m1 = map_block::<E>(m, root, v, p, perms).0;
        let levels1 = tables_after::<E>(m, root, levels, v, 2);
        E::block_entry_reads_back(p, perms, 2);
        lemma_install::<E>(m, root, levels, v, E::block_entry(p, perms, 2), 2);
        if j < i + 512 {
            lemma_block_installed::<E>(m, root, levels, v, p, perms);
            lemma_block_byte(virt, phys, i, j, 0, count);
            let x = page_address(virt, j);
            let d = ((j - i) * 4096) as u64;
            lemma_same_slots(v, d);
            assert(same_slots(x, v, 2));
            assert(index_at(x, 2) == index_at(v, 2));
            lemma_reach_same::<E>(m1.words, root, x, v, 0, 2);
            assert(by_block::<E>(m1.words, root, x, p, perms));
            lemma_run_keeps_slots::<E>(m1, root, levels1, virt, phys, i + 512, count, perms);
            lemma_by_block_kept::<E>(m1, root, levels1, m2.words, x, p, perms);
            assert(page_address(phys, j) - page_address(phys, j) % 0x20_0000 == p) by {
                let qp = p as int / 0x20_0000;
                assert(p == 0x20_0000 * qp);
                assert(page_address(phys, j) == p + d);
                vstd::arithmetic::div_mod::lemma_fundamental_div_mod_converse(
                    page_address(phys, j) as int,
                    0x20_0000,
                    qp,
                    d as int,
                );
            }
        } else {
            mapped_range_has_its_rights::<E>(
                m1,
                root,
                levels1,
                virt,
                phys,
                i + 512,
                count,
                perms,
                j,
            );
        }
    } else {
        let m1 = map_page::<E>(m, root, v, q, perms).0;
        let levels1 = tables_after::<E>(m, root, levels, v, 3);
        E::leaf_entry_reads_back(q, perms);
        lemma_install::<E>(m, root, levels, v, E::leaf_entry(q, perms), 3);
        if j == i {
            mapped_page_has_its_rights::<E>(m, root, levels, v, q, perms);
            lemma_run_keeps_slots::<E>(m1, root, levels1, virt, phys, i + 1, count, perms);
            lemma_by_page_kept::<E>(m1, root, levels1, m2.words, v, q, perms);
        } else {
            mapped_range_has_its_rights::<E>(
                m1,
                root,
                levels1,
                virt,
                phys,
                i + 1,
                count,
                perms,
                j,
            );
        }
    }
}

} // verus!

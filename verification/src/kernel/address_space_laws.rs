//! What the address space manager promises: no operation on one boundary's space
//! changes what another boundary sees, and no frame is shared.
use vstd::prelude::*;
use crate::kernel::address_space::{all_freed, Spaces};
use crate::kernel::frame::{frame_goes_out_and_comes_back, next_frame_is_free, Frames};
use crate::kernel::paging::{
    entry_for, index_at, map_page, map_run, page_address, translate_from, Machine, PageTableEncoder,
    Permissions,
};
use crate::kernel::paging_laws::{
    apart, frames_ready, is_table, is_tree, lemma_other_space, mapped_page_is_not_remapped,
    mapped_page_translates, mapping_keeps_the_tree, new_space_is_empty, range_encodable,
    range_mapping_keeps_the_tree, same_slots, tables_after, tables_after_run, Levels,
};
use crate::kernel::paging_range::{
    by_block, by_page, lemma_by_page_kept, lemma_install_keeps_slots, lemma_slots_kept_twice,
    mapped_page_has_its_rights, mapped_range_has_its_rights, slots_kept,
};
use crate::kernel::phys_memory::{zero_words, Words};

verus! {

/// The translations of every boundary but `b` are the same.
pub open spec fn others_undisturbed<E: PageTableEncoder>(
    s: Spaces,
    words: Words,
    s2: Spaces,
    words2: Words,
    b: u64,
) -> bool {
    forall|c: u64, v: u64|
        c != b ==> #[trigger] s2.translation::<E>(words2, c, v) == s.translation::<E>(words, c, v)
}

/// Memory after frame `f` was taken and zeroed.
pub open spec fn with_fresh(s: Spaces, words: Words, f: int) -> Machine {
    Machine {
        words: words.insert((f * 4096) as u64, zero_words()),
        frames: s.frames.without(f),
    }
}

/// Taking a free frame and zeroing it leaves every address space as it was.
pub proof fn lemma_fresh_frame<E: PageTableEncoder>(s: Spaces, words: Words, b: u64)
    requires
        s.isolated::<E>(words),
        s.roots.dom().contains(b),
        s.frames.next() is Some,
    ensures
        ({
            let f = s.frames.next()->Some_0;
            let frame = (f * 4096) as u64;
            let m1 = with_fresh(s, words, f);
            &&& is_tree::<E>(m1, s.roots[b], s.tables[b])
            &&& frames_ready::<E>(m1)
            &&& !s.tables[b].dom().contains(frame)
            &&& frame as int / 4096 == f
            &&& forall|v: u64|
                #![trigger translate_from::<E>(m1.words, s.roots[b], v, 0)]
                translate_from::<E>(m1.words, s.roots[b], v, 0) == translate_from::<E>(
                    words,
                    s.roots[b],
                    v,
                    0,
                )
        }),
{
    let m = s.machine(words);
    let f = s.frames.next()->Some_0;
    let frame = (f * 4096) as u64;
    let m1 = with_fresh(s, words, f);
    next_frame_is_free(s.frames);
    new_space_is_empty::<E>(m, f);
    let fresh: Levels = map![frame => 0int];
    let none: Levels = Map::empty();
    assert(fresh.dom().contains(frame));
    lemma_other_space::<E>(m, m1, none, fresh, s.roots[b], s.tables[b]);
}

/// A frame in use that is recorded for no boundary can be given back.
proof fn lemma_frame_back<E: PageTableEncoder>(s: Spaces, words: Words, f: int)
    requires
        s.isolated::<E>(words),
        0 <= f < s.frames.count,
        s.frame_in_use::<E>(words, (f * 4096) as u64),
        forall|b: u64, i: int|
            s.has_frame(b, i) ==> #[trigger] s.mapped[b][i] != (f * 4096) as u64,
    ensures
        (Spaces { frames: s.frames.with(f), ..s }).isolated::<E>(words),
{
    let frame = (f * 4096) as u64;
    let s2 = Spaces { frames: s.frames.with(f), ..s };
    assert(frame as int / 4096 == f);
    assert(s2.frames.free =~= s.frames.free.insert(f));
    assert forall|c: u64| #[trigger] s2.roots.dom().contains(c) implies is_tree::<E>(
        s2.machine(words),
        s2.roots[c],
        s2.tables[c],
    ) by {
        let levels = s.tables[c];
        assert(is_tree::<E>(s.machine(words), s.roots[c], levels));
        assert(!levels.dom().contains(frame));
        assert forall|a: u64| #[trigger] levels.dom().contains(a) implies is_table(
            s2.machine(words),
            levels,
            a,
        ) by {
            assert(is_table(s.machine(words), levels, a));
            if a as int / 4096 == f {
                assert(a == frame);
            }
        }
    }
    assert forall|c: u64, i: int| s2.has_frame(c, i) implies s2.frame_in_use::<E>(
        words,
        #[trigger] s2.mapped[c][i],
    ) by {
        let a = s.mapped[c][i];
        assert(s.has_frame(c, i));
        assert(s.frame_in_use::<E>(words, a));
        if a as int / 4096 == f {
            assert(a == frame);
        }
    }
    assert forall|c: u64, i: int, d: u64, j: int|
        s2.has_frame(c, i) && s2.has_frame(d, j) && (c != d || i != j) implies
        #[trigger] s2.mapped[c][i] != #[trigger] s2.mapped[d][j] by {
        assert(s.has_frame(c, i) && s.has_frame(d, j));
        assert(s.mapped[c][i] != s.mapped[d][j]);
    }
}

/// What one fresh page does.
#[verifier::rlimit(60)]
pub proof fn lemma_new_page<E: PageTableEncoder>(
    s: Spaces,
    words: Words,
    b: u64,
    virt: u64,
    perms: Permissions,
)
    requires
        s.isolated::<E>(words),
        s.roots.dom().contains(b),
    ensures
        ({
            let (s2, w2, r) = s.new_page::<E>(words, b, virt, perms);
            &&& s2.isolated::<E>(w2)
            &&& s2.roots == s.roots
            &&& others_undisturbed::<E>(s, words, s2, w2, b)
        }),
{
    let (done, w2, r) = s.new_page::<E>(words, b, virt, perms);
    if let Some(f) = s.frames.next() {
        let frame = (f * 4096) as u64;
        let m1 = with_fresh(s, words, f);
        let (m2, _r) = map_page::<E>(m1, s.roots[b], virt, frame, perms);
        // The spaces before a frame that was not mapped is given back.
        let s2 = Spaces { frames: m2.frames, ..done };
        next_frame_is_free(s.frames);
        assert(E::encodable(frame));
        lemma_fresh_frame::<E>(s, words, b);
        mapping_keeps_the_tree::<E>(m1, s.roots[b], s.tables[b], virt, frame, perms);
        let levels2 = if virt % 4096 == 0 {
            tables_after::<E>(m1, s.roots[b], s.tables[b], virt, 3)
        } else {
            s.tables[b]
        };
        assert(s2.tables[b] == levels2);
        assert forall|c: u64| s.roots.dom().contains(c) && c != b implies is_tree::<E>(
            m2,
            s.roots[c],
            #[trigger] s.tables[c],
        ) && apart(levels2, s.tables[c]) && apart(s.tables[c], levels2)
            && !s.tables[c].dom().contains(frame) by {
            lemma_fresh_frame::<E>(s, words, c);
            assert(apart(s.tables[b], s.tables[c]));
            lemma_other_space::<E>(m1, m2, s.tables[b], levels2, s.roots[c], s.tables[c]);
        }
        assert(s2.machine(w2) == m2);
        assert(s2.roots.dom() =~= s2.tables.dom());
        assert(s2.roots.dom() =~= s2.mapped.dom());
        assert forall|c: u64| #[trigger] s2.roots.dom().contains(c) implies is_tree::<E>(
            s2.machine(w2),
            s2.roots[c],
            s2.tables[c],
        ) by {
            if c != b {
                assert(s2.tables[c] == s.tables[c]);
            }
        }
        assert forall|c: u64, d: u64|
            s2.roots.dom().contains(c) && s2.roots.dom().contains(d) && c != d implies apart(
            #[trigger] s2.tables[c],
            #[trigger] s2.tables[d],
        ) by {
            if c != b && d != b {
                assert(s2.tables[c] == s.tables[c] && s2.tables[d] == s.tables[d]);
            } else if c == b {
                assert(s2.tables[d] == s.tables[d]);
            } else {
                assert(s2.tables[c] == s.tables[c]);
            }
        }
        // A frame in use that is no table, and not free, does not become a table.
        assert forall|a: u64|
            !m1.frames.free.contains(a as int / 4096) && !(#[trigger] s.tables[b].dom().contains(
                a,
            )) implies !levels2.dom().contains(a) by {}
        assert forall|c: u64, i: int| s.has_frame(c, i) implies s2.frame_in_use::<E>(
            w2,
            #[trigger] s.mapped[c][i],
        ) && s.mapped[c][i] != frame by {
            let a = s.mapped[c][i];
            assert(s.frame_in_use::<E>(words, a));
            assert(a != frame);
            assert(!s.tables[b].dom().contains(a));
            assert forall|d: u64| s2.roots.dom().contains(d) implies !(
            #[trigger] s2.tables[d]).dom().contains(a) by {
                if d != b {
                    assert(s2.tables[d] == s.tables[d]);
                }
            }
            assert(!m2.frames.free.contains(a as int / 4096)) by {
                if m2.frames.free.contains(a as int / 4096) {
                    assert(m1.frames.free.contains(a as int / 4096));
                }
            }
        }
        assert(s2.frame_in_use::<E>(w2, frame)) by {
            assert(!m2.frames.free.contains(f)) by {
                if m2.frames.free.contains(f) {
                    assert(m1.frames.free.contains(f));
                }
            }
            assert(!s.tables[b].dom().contains(frame));
            assert forall|d: u64| s2.roots.dom().contains(d) implies !(
            #[trigger] s2.tables[d]).dom().contains(frame) by {
                if d != b {
                    assert(s2.tables[d] == s.tables[d]);
                }
            }
        }
        assert forall|c: u64, i: int| s2.has_frame(c, i) implies (if c == b && i
            == s.mapped[b].len() {
            #[trigger] s2.mapped[c][i] == frame
        } else {
            s.has_frame(c, i) && s2.mapped[c][i] == s.mapped[c][i]
        }) by {}
        assert forall|c: u64, i: int| s2.has_frame(c, i) implies s2.frame_in_use::<E>(
            w2,
            #[trigger] s2.mapped[c][i],
        ) by {
            if !(c == b && i == s.mapped[b].len()) {
                assert(s2.mapped[c][i] == s.mapped[c][i]);
            }
        }
        assert forall|c: u64, i: int, d: u64, j: int|
            s2.has_frame(c, i) && s2.has_frame(d, j) && (c != d || i != j) implies
            #[trigger] s2.mapped[c][i] != #[trigger] s2.mapped[d][j] by {
            if c == b && i == s.mapped[b].len() {
                assert(s2.mapped[d][j] == s.mapped[d][j]);
            } else if d == b && j == s.mapped[b].len() {
                assert(s2.mapped[c][i] == s.mapped[c][i]);
            } else {
                assert(s.mapped[c][i] != s.mapped[d][j]);
            }
        }
        assert forall|c: u64, v: u64| c != b implies #[trigger] s2.translation::<E>(w2, c, v)
            == s.translation::<E>(words, c, v) by {
            if s.roots.dom().contains(c) {
                lemma_fresh_frame::<E>(s, words, c);
                assert(apart(s.tables[b], s.tables[c]));
                lemma_other_space::<E>(m1, m2, s.tables[b], levels2, s.roots[c], s.tables[c]);
                assert(translate_from::<E>(m1.words, s.roots[c], v, 0) == translate_from::<E>(
                    words,
                    s.roots[c],
                    v,
                    0,
                ));
            }
        }
        assert(s2.isolated::<E>(w2));
        if r is Err {
            assert forall|c: u64, i: int| s2.has_frame(c, i) implies #[trigger] s2.mapped[c][i]
                != frame by {
                assert(s.has_frame(c, i));
                assert(s.mapped[c][i] != frame);
            }
            lemma_frame_back::<E>(s2, w2, f);
        }
        assert forall|c: u64, v: u64| c != b implies #[trigger] done.translation::<E>(w2, c, v)
            == s.translation::<E>(words, c, v) by {
            assert(done.translation::<E>(w2, c, v) == s2.translation::<E>(w2, c, v));
        }
    }
}

/// What mapping an existing range does.
#[verifier::rlimit(60)]
pub proof fn lemma_existing<E: PageTableEncoder>(
    s: Spaces,
    words: Words,
    b: u64,
    virt: u64,
    phys: u64,
    count: u64,
    perms: Permissions,
)
    requires
        s.isolated::<E>(words),
        s.roots.dom().contains(b),
        virt + (count - 1) * 4096 <= u64::MAX,
        phys + (count - 1) * 4096 <= u64::MAX,
        range_encodable::<E>(phys, count as int),
    ensures
        ({
            let (s2, w2, r) = s.existing::<E>(words, b, virt, phys, count as int, perms);
            &&& s2.isolated::<E>(w2)
            &&& s2.roots == s.roots
            &&& others_undisturbed::<E>(s, words, s2, w2, b)
        }),
{
    let (s2, w2, r) = s.existing::<E>(words, b, virt, phys, count as int, perms);
    let m = s.machine(words);
    let m2 = map_run::<E>(m, s.roots[b], virt, phys, 0, count as int, perms).0;
    range_mapping_keeps_the_tree::<E>(m, s.roots[b], s.tables[b], virt, phys, count, perms);
    let levels2 = tables_after_run::<E>(
        m,
        s.roots[b],
        s.tables[b],
        virt,
        phys,
        0,
        count as int,
        perms,
    );
    assert(s2.tables[b] == levels2);
    assert(s2.machine(w2) == m2);
    assert(s2.roots.dom() =~= s2.tables.dom());
    assert forall|c: u64| s.roots.dom().contains(c) && c != b implies is_tree::<E>(
        m2,
        s.roots[c],
        #[trigger] s.tables[c],
    ) && apart(levels2, s.tables[c]) && apart(s.tables[c], levels2) by {
        assert(apart(s.tables[b], s.tables[c]));
        lemma_other_space::<E>(m, m2, s.tables[b], levels2, s.roots[c], s.tables[c]);
    }
    assert forall|c: u64| #[trigger] s2.roots.dom().contains(c) implies is_tree::<E>(
        s2.machine(w2),
        s2.roots[c],
        s2.tables[c],
    ) by {
        if c != b {
            assert(s2.tables[c] == s.tables[c]);
        }
    }
    assert forall|c: u64, d: u64|
        s2.roots.dom().contains(c) && s2.roots.dom().contains(d) && c != d implies apart(
        #[trigger] s2.tables[c],
        #[trigger] s2.tables[d],
    ) by {
        if c != b && d != b {
            assert(s2.tables[c] == s.tables[c] && s2.tables[d] == s.tables[d]);
        } else if c == b {
            assert(s2.tables[d] == s.tables[d]);
        } else {
            assert(s2.tables[c] == s.tables[c]);
        }
    }
    assert forall|c: u64, i: int| s2.has_frame(c, i) implies s2.frame_in_use::<E>(
        w2,
        #[trigger] s2.mapped[c][i],
    ) by {
        let a = s.mapped[c][i];
        assert(s.has_frame(c, i));
        assert(s.frame_in_use::<E>(words, a));
        assert(!s.tables[b].dom().contains(a));
        assert(!levels2.dom().contains(a));
        assert forall|d: u64| s2.roots.dom().contains(d) implies !(
        #[trigger] s2.tables[d]).dom().contains(a) by {
            if d != b {
                assert(s2.tables[d] == s.tables[d]);
            }
        }
        if m2.frames.free.contains(a as int / 4096) {
            assert(m.frames.free.contains(a as int / 4096));
        }
    }
    assert forall|c: u64, i: int, d: u64, j: int|
        s2.has_frame(c, i) && s2.has_frame(d, j) && (c != d || i != j) implies
        #[trigger] s2.mapped[c][i] != #[trigger] s2.mapped[d][j] by {
        assert(s.has_frame(c, i) && s.has_frame(d, j));
        assert(s.mapped[c][i] != s.mapped[d][j]);
    }
    assert forall|c: u64, v: u64| c != b implies #[trigger] s2.translation::<E>(w2, c, v)
        == s.translation::<E>(words, c, v) by {
        if s.roots.dom().contains(c) {
            assert(apart(s.tables[b], s.tables[c]));
            lemma_other_space::<E>(m, m2, s.tables[b], levels2, s.roots[c], s.tables[c]);
        }
    }
}

/// A new space shows nothing, disturbs no other, and keeps all spaces isolated.
pub proof fn new_space_is_isolated<E: PageTableEncoder>(s: Spaces, words: Words, b: u64, f: int)
    requires
        s.isolated::<E>(words),
        !s.roots.dom().contains(b),
        s.frames.next() == Some(f),
    ensures
        ({
            let s2 = s.created(b, f);
            let w2 = words.insert((f * 4096) as u64, zero_words());
            &&& s2.isolated::<E>(w2)
            &&& forall|v: u64| #[trigger] s2.translation::<E>(w2, b, v) is None
            &&& others_undisturbed::<E>(s, words, s2, w2, b)
        }),
{
    let root = (f * 4096) as u64;
    let m = s.machine(words);
    let m2 = with_fresh(s, words, f);
    let s2 = s.created(b, f);
    let w2 = m2.words;
    let levels: Levels = map![root => 0int];
    next_frame_is_free(s.frames);
    new_space_is_empty::<E>(m, f);
    assert(s2.machine(w2) == m2);
    assert(s2.roots.dom() =~= s2.tables.dom());
    assert(s2.roots.dom() =~= s2.mapped.dom());
    assert forall|c: u64| #[trigger] s2.roots.dom().contains(c) implies is_tree::<E>(
        s2.machine(w2),
        s2.roots[c],
        s2.tables[c],
    ) by {
        if c != b {
            lemma_fresh_frame::<E>(s, words, c);
        }
    }
    assert forall|c: u64, d: u64|
        s2.roots.dom().contains(c) && s2.roots.dom().contains(d) && c != d implies apart(
        #[trigger] s2.tables[c],
        #[trigger] s2.tables[d],
    ) by {
        if c == b {
            lemma_fresh_frame::<E>(s, words, d);
        } else if d == b {
            lemma_fresh_frame::<E>(s, words, c);
        } else {
            assert(apart(s.tables[c], s.tables[d]));
        }
    }
    assert forall|c: u64, i: int| s2.has_frame(c, i) implies s2.frame_in_use::<E>(
        w2,
        #[trigger] s2.mapped[c][i],
    ) by {
        assert(c != b);
        assert(s.has_frame(c, i));
        let a = s.mapped[c][i];
        assert(s.frame_in_use::<E>(words, a));
        assert forall|d: u64| s2.roots.dom().contains(d) implies !(
        #[trigger] s2.tables[d]).dom().contains(a) by {
            if d != b {
                assert(s2.tables[d] == s.tables[d]);
            }
        }
    }
    assert forall|c: u64, i: int, d: u64, j: int|
        s2.has_frame(c, i) && s2.has_frame(d, j) && (c != d || i != j) implies
        #[trigger] s2.mapped[c][i] != #[trigger] s2.mapped[d][j] by {
        assert(s.has_frame(c, i) && s.has_frame(d, j));
        assert(s.mapped[c][i] != s.mapped[d][j]);
    }
    assert forall|v: u64| #[trigger] s2.translation::<E>(w2, b, v) is None by {
        assert(translate_from::<E>(m2.words, root, v, 0) is None);
    }
    assert forall|c: u64, v: u64| c != b implies #[trigger] s2.translation::<E>(w2, c, v)
        == s.translation::<E>(words, c, v) by {
        if s.roots.dom().contains(c) {
            lemma_fresh_frame::<E>(s, words, c);
            assert(translate_from::<E>(m2.words, s.roots[c], v, 0) == translate_from::<E>(
                words,
                s.roots[c],
                v,
                0,
            ));
        }
    }
}

/// What one fresh page that was mapped translates to, and what it keeps.
proof fn lemma_new_page_translates<E: PageTableEncoder>(
    s: Spaces,
    words: Words,
    b: u64,
    virt: u64,
    perms: Permissions,
)
    requires
        s.isolated::<E>(words),
        s.roots.dom().contains(b),
        s.new_page::<E>(words, b, virt, perms).2 is Ok,
    ensures
        ({
            let (s2, w2, r) = s.new_page::<E>(words, b, virt, perms);
            &&& s2.mapped[b].len() == s.mapped[b].len() + 1
            &&& forall|i: int|
                0 <= i < s.mapped[b].len() ==> #[trigger] s2.mapped[b][i] == s.mapped[b][i]
            &&& s2.translation::<E>(w2, b, virt) == Some(s2.mapped[b].last())
            &&& forall|v: u64|
                s.translation::<E>(words, b, v) is Some ==> #[trigger] s2.translation::<E>(w2, b, v)
                    == s.translation::<E>(words, b, v)
        }),
{
    let (s2, w2, r) = s.new_page::<E>(words, b, virt, perms);
    let f = s.frames.next()->Some_0;
    let frame = (f * 4096) as u64;
    let m1 = with_fresh(s, words, f);
    next_frame_is_free(s.frames);
    assert(E::encodable(frame));
    lemma_fresh_frame::<E>(s, words, b);
    mapped_page_translates::<E>(m1, s.roots[b], s.tables[b], virt, frame, perms);
    assert(same_slots(virt, virt, 3));
    assert(virt % 4096 == 0);
    assert(s2.translation::<E>(w2, b, virt) == Some(frame));
    assert forall|v: u64| s.translation::<E>(words, b, v) is Some implies
        #[trigger] s2.translation::<E>(w2, b, v) == s.translation::<E>(words, b, v) by {
        assert(translate_from::<E>(m1.words, s.roots[b], v, 0) == translate_from::<E>(
            words,
            s.roots[b],
            v,
            0,
        ));
        if same_slots(v, virt, 3) {
            mapped_slot_was_empty::<E>(m1, s.roots[b], s.tables[b], virt, frame, perms, v);
        }
    }
}

/// A page that could be mapped did not translate before.
proof fn mapped_slot_was_empty<E: PageTableEncoder>(
    m: Machine,
    root: u64,
    levels: Levels,
    virt: u64,
    frame: u64,
    perms: Permissions,
    v: u64,
)
    requires
        is_tree::<E>(m, root, levels),
        frames_ready::<E>(m),
        E::encodable(frame),
        map_page::<E>(m, root, virt, frame, perms).1 is Ok,
        same_slots(v, virt, 3),
    ensures
        translate_from::<E>(m.words, root, v, 0) is None,
{
    mapped_page_is_not_remapped::<E>(m, root, levels, virt, frame, perms);
    lemma_same_translation::<E>(m.words, root, v, virt, 0);
}

/// Addresses in one page are mapped together.
proof fn lemma_same_translation<E: PageTableEncoder>(
    words: Words,
    t: u64,
    v1: u64,
    v2: u64,
    level: int,
)
    requires
        same_slots(v1, v2, 3),
        0 <= level <= 3,
    ensures
        translate_from::<E>(words, t, v1, level) is None <==> translate_from::<E>(
            words,
            t,
            v2,
            level,
        ) is None,
    decreases 3 - level,
{
    assert(index_at(v1, level) == index_at(v2, level));
    let e = entry_for(words, t, v1, level);
    if level < 3 {
        lemma_same_translation::<E>(words, E::target(e), v1, v2, level + 1);
    }
}

/// Fresh pages for one boundary disturb no other, whether they could all be mapped
/// or not, and no frame is recorded twice; where they could, each page translates
/// to the frame recorded for it, in order.
pub proof fn new_pages_are_private<E: PageTableEncoder>(
    s: Spaces,
    words: Words,
    b: u64,
    virt: u64,
    i: int,
    count: int,
    perms: Permissions,
)
    requires
        s.isolated::<E>(words),
        s.roots.dom().contains(b),
        0 <= i <= count,
        virt + (count - 1) * 4096 <= u64::MAX,
    ensures
        ({
            let (s2, w2, r) = s.new_pages::<E>(words, b, virt, i, count, perms);
            &&& s2.isolated::<E>(w2)
            &&& s2.roots == s.roots
            &&& others_undisturbed::<E>(s, words, s2, w2, b)
            &&& r is Ok ==> s2.mapped[b].len() == s.mapped[b].len() + (count - i)
            &&& r is Ok ==> forall|k: int|
                0 <= k < s.mapped[b].len() ==> #[trigger] s2.mapped[b][k] == s.mapped[b][k]
            &&& r is Ok ==> forall|j: int|
                i <= j < count ==> s2.translation::<E>(w2, b, #[trigger] page_address(virt, j))
                    == Some(s2.mapped[b][s.mapped[b].len() + (j - i)])
            &&& r is Ok ==> forall|v: u64|
                s.translation::<E>(words, b, v) is Some ==> #[trigger] s2.translation::<E>(w2, b, v)
                    == s.translation::<E>(words, b, v)
        }),
    decreases count - i,
{
    if i < count {
        let v = page_address(virt, i);
        lemma_new_page::<E>(s, words, b, v, perms);
        let (s1, w1, r1) = s.new_page::<E>(words, b, v, perms);
        if r1 is Ok {
            lemma_new_page_translates::<E>(s, words, b, v, perms);
            new_pages_are_private::<E>(s1, w1, b, virt, i + 1, count, perms);
            let (s2, w2, r) = s.new_pages::<E>(words, b, virt, i, count, perms);
            assert forall|c: u64, x: u64| c != b implies #[trigger] s2.translation::<E>(w2, c, x)
                == s.translation::<E>(words, c, x) by {
                assert(s1.translation::<E>(w1, c, x) == s.translation::<E>(words, c, x));
            }
            if r is Ok {
                assert forall|k: int| 0 <= k < s.mapped[b].len() implies #[trigger] s2.mapped[b][k]
                    == s.mapped[b][k] by {
                    assert(s1.mapped[b][k] == s.mapped[b][k]);
                }
                assert(s2.mapped[b][s.mapped[b].len() as int] == s1.mapped[b].last());
                assert forall|j: int| i <= j < count implies s2.translation::<E>(
                    w2,
                    b,
                    #[trigger] page_address(virt, j),
                ) == Some(s2.mapped[b][s.mapped[b].len() + (j - i)]) by {
                    if j == i {
                        assert(s1.translation::<E>(w1, b, v) is Some);
                        assert(s2.translation::<E>(w2, b, v) == s1.translation::<E>(w1, b, v));
                    }
                }
                assert forall|x: u64| s.translation::<E>(words, b, x) is Some implies
                    #[trigger] s2.translation::<E>(w2, b, x) == s.translation::<E>(words, b, x) by {
                    assert(s1.translation::<E>(w1, b, x) == s.translation::<E>(words, b, x));
                }
            }
        }
    }
}

/// Frame `f` backs boundary `b`: it is recorded for it, or one of its tables.
pub open spec fn backs(s: Spaces, b: u64, f: int) -> bool {
    ||| s.tables[b].dom().contains((f * 4096) as u64)
    ||| exists|i: int| s.has_frame(b, i) && #[trigger] s.mapped[b][i] == (f * 4096) as u64
}

/// Every frame that fresh pages took backs the boundary, whether the pages could all
/// be mapped or not: none is lost, and teardown gives back every one that is no
/// table. What backed the boundary before still does.
pub proof fn no_frame_is_lost<E: PageTableEncoder>(
    s: Spaces,
    words: Words,
    b: u64,
    virt: u64,
    i: int,
    count: int,
    perms: Permissions,
)
    requires
        s.isolated::<E>(words),
        s.roots.dom().contains(b),
        0 <= i <= count,
    ensures
        ({
            let s2 = s.new_pages::<E>(words, b, virt, i, count, perms).0;
            &&& forall|f: int| #[trigger] s.frames.free.contains(f) && !s2.frames.free.contains(f) ==> backs(s2, b, f)
            &&& forall|f: int| #[trigger] backs(s, b, f) ==> backs(s2, b, f)
            &&& forall|f: int| #[trigger] s2.frames.free.contains(f) ==> s.frames.free.contains(f)
        }),
    decreases count - i,
{
    if i < count {
        let v = page_address(virt, i);
        lemma_new_page::<E>(s, words, b, v, perms);
        lemma_page_frames::<E>(s, words, b, v, perms);
        let (s1, w1, r1) = s.new_page::<E>(words, b, v, perms);
        if r1 is Ok {
            no_frame_is_lost::<E>(s1, w1, b, virt, i + 1, count, perms);
            let s2 = s.new_pages::<E>(words, b, virt, i, count, perms).0;
            let s3 = s1.new_pages::<E>(w1, b, virt, i + 1, count, perms).0;
            assert(s2 == s3);
            assert forall|f: int| #[trigger] s.frames.free.contains(f) && !s2.frames.free.contains(
                f,
            ) implies backs(s2, b, f) by {
                if !s1.frames.free.contains(f) {
                    assert(backs(s1, b, f));
                }
            }
            assert forall|f: int| #[trigger] backs(s, b, f) implies backs(s2, b, f) by {
                assert(backs(s1, b, f));
            }
            assert forall|f: int| #[trigger] s2.frames.free.contains(
                f,
            ) implies s.frames.free.contains(f) by {
                assert(s3.frames.free.contains(f));
                assert(s1.frames.free.contains(f));
            }
        }
    }
}

/// Where the frames that one fresh page took have gone.
proof fn lemma_page_frames<E: PageTableEncoder>(
    s: Spaces,
    words: Words,
    b: u64,
    virt: u64,
    perms: Permissions,
)
    requires
        s.isolated::<E>(words),
        s.roots.dom().contains(b),
    ensures
        ({
            let s2 = s.new_page::<E>(words, b, virt, perms).0;
            &&& forall|f: int| #[trigger] s.frames.free.contains(f) && !s2.frames.free.contains(f) ==> backs(s2, b, f)
            &&& forall|f: int| #[trigger] backs(s, b, f) ==> backs(s2, b, f)
            &&& forall|f: int| #[trigger] s2.frames.free.contains(f) ==> s.frames.free.contains(f)
        }),
{
    let (s2, w2, r) = s.new_page::<E>(words, b, virt, perms);
    if let Some(f) = s.frames.next() {
        let frame = (f * 4096) as u64;
        let m1 = with_fresh(s, words, f);
        let m2 = map_page::<E>(m1, s.roots[b], virt, frame, perms).0;
        next_frame_is_free(s.frames);
        assert(E::encodable(frame));
        lemma_fresh_frame::<E>(s, words, b);
        mapping_keeps_the_tree::<E>(m1, s.roots[b], s.tables[b], virt, frame, perms);
        assert forall|g: int| #[trigger] s.frames.free.contains(g) && !s2.frames.free.contains(
            g,
        ) implies backs(s2, b, g) by {
            if g == f {
                let last = s.mapped[b].len() as int;
                assert(s2.has_frame(b, last) && s2.mapped[b][last] == frame);
            } else {
                assert(m1.frames.free.contains(g));
                assert(!m2.frames.free.contains(g));
            }
        }
        assert forall|g: int| #[trigger] backs(s, b, g) implies backs(s2, b, g) by {
            if !s.tables[b].dom().contains((g * 4096) as u64) {
                let k = choose|k: int|
                    s.has_frame(b, k) && #[trigger] s.mapped[b][k] == (g * 4096) as u64;
                assert(s2.has_frame(b, k) && s2.mapped[b][k] == s.mapped[b][k]);
            }
        }
        assert forall|g: int| #[trigger] s2.frames.free.contains(g) implies s.frames.free.contains(
            g,
        ) by {
            if g != f {
                assert(m2.frames.free.contains(g));
                assert(m1.frames.free.contains(g));
            }
        }
    }
}

/// An existing range mapped for one boundary disturbs no other.
pub proof fn existing_range_disturbs_no_other<E: PageTableEncoder>(
    s: Spaces,
    words: Words,
    b: u64,
    virt: u64,
    phys: u64,
    count: u64,
    perms: Permissions,
)
    requires
        s.isolated::<E>(words),
        s.roots.dom().contains(b),
        virt + (count - 1) * 4096 <= u64::MAX,
        phys + (count - 1) * 4096 <= u64::MAX,
        range_encodable::<E>(phys, count as int),
    ensures
        ({
            let (s2, w2, r) = s.existing::<E>(words, b, virt, phys, count as int, perms);
            &&& s2.isolated::<E>(w2)
            &&& others_undisturbed::<E>(s, words, s2, w2, b)
        }),
{
    lemma_existing::<E>(s, words, b, virt, phys, count, perms);
}

/// What giving a list of frames back does.
proof fn lemma_all_freed(frames: Frames, list: Seq<u64>)
    requires
        frames.wf(),
        forall|i: int|
            0 <= i < list.len() ==> (#[trigger] list[i]) % 4096 == 0 && (list[i] as int) / 4096
                < frames.count && !frames.free.contains(list[i] as int / 4096),
        forall|i: int, j: int|
            0 <= i < list.len() && 0 <= j < list.len() && i != j ==> list[i] != list[j],
    ensures
        ({
            let after = all_freed(frames, list);
            &&& after.wf()
            &&& after.count == frames.count
            &&& after.free_total() == frames.free_total() + list.len()
            &&& forall|f: int|
                #[trigger] after.free.contains(f) <==> frames.free.contains(f) || exists|i: int|
                    0 <= i < list.len() && (#[trigger] list[i]) as int / 4096 == f
        }),
    decreases list.len(),
{
    if list.len() > 0 {
        let init = list.drop_last();
        assert forall|i: int| 0 <= i < init.len() implies (#[trigger] init[i]) % 4096 == 0 && (
        init[i] as int) / 4096 < frames.count && !frames.free.contains(init[i] as int / 4096) by {
            assert(init[i] == list[i]);
        }
        lemma_all_freed(frames, init);
        let before = all_freed(frames, init);
        let f = list.last() as int / 4096;
        assert(list.last() == list[list.len() - 1]);
        assert(!before.free.contains(f)) by {
            if before.free.contains(f) {
                let i = choose|i: int|
                    0 <= i < init.len() && (#[trigger] init[i]) as int / 4096 == f;
                assert(init[i] == list[i]);
                assert(list[i] == list[list.len() - 1]);
            }
        }
        let after = before.with(f);
        assert(after.free =~= before.free.insert(f));
        frame_goes_out_and_comes_back(after, f);
        assert(after.without(f).free =~= before.free);
        lemma_free_below_same(after.without(f), before, before.count);
        assert forall|g: int| #[trigger] after.free.contains(g) <==> frames.free.contains(g)
            || exists|i: int| 0 <= i < list.len() && (#[trigger] list[i]) as int / 4096 == g by {
            if exists|i: int| 0 <= i < init.len() && (#[trigger] init[i]) as int / 4096 == g {
                let i = choose|i: int|
                    0 <= i < init.len() && (#[trigger] init[i]) as int / 4096 == g;
                assert(list[i] == init[i]);
            }
            if exists|i: int| 0 <= i < list.len() && (#[trigger] list[i]) as int / 4096 == g {
                let i = choose|i: int|
                    0 <= i < list.len() && (#[trigger] list[i]) as int / 4096 == g;
                if i < init.len() {
                    assert(init[i] == list[i]);
                }
            }
        }
    }
}

/// Counting depends on what is free alone.
proof fn lemma_free_below_same(a: Frames, b: Frames, n: nat)
    requires
        a.free == b.free,
    ensures
        a.free_below(n) == b.free_below(n),
    decreases n,
{
    if n > 0 {
        lemma_free_below_same(a, b, (n - 1) as nat);
    }
}

/// Tearing a space down gives back every data frame recorded for it, disturbs no
/// other boundary, and keeps the remaining spaces isolated.
pub proof fn destroyed_space_is_reclaimed<E: PageTableEncoder>(s: Spaces, words: Words, b: u64)
    requires
        s.isolated::<E>(words),
        s.roots.dom().contains(b),
    ensures
        ({
            let s2 = s.destroyed(b);
            &&& s2.isolated::<E>(words)
            &&& s2.frames.free_total() == s.frames.free_total() + s.mapped[b].len()
            &&& forall|i: int|
                0 <= i < s.mapped[b].len() ==> s2.frames.free.contains(
                    (#[trigger] s.mapped[b][i]) as int / 4096,
                )
            &&& others_undisturbed::<E>(s, words, s2, words, b)
            &&& forall|v: u64| #[trigger] s2.translation::<E>(words, b, v) is None
        }),
{
    let list = s.mapped[b];
    let s2 = s.destroyed(b);
    assert forall|i: int| 0 <= i < list.len() implies (#[trigger] list[i]) % 4096 == 0 && (
    list[i] as int) / 4096 < s.frames.count && !s.frames.free.contains(list[i] as int / 4096) by {
        assert(s.has_frame(b, i));
        assert(s.frame_in_use::<E>(words, s.mapped[b][i]));
    }
    assert forall|i: int, j: int|
        0 <= i < list.len() && 0 <= j < list.len() && i != j implies list[i] != list[j] by {
        assert(s.has_frame(b, i) && s.has_frame(b, j));
        assert(s.mapped[b][i] != s.mapped[b][j]);
    }
    lemma_all_freed(s.frames, list);
    assert forall|f: int| #[trigger] s2.frames.free.contains(f) && !s.frames.free.contains(
        f,
    ) implies exists|i: int| 0 <= i < list.len() && (#[trigger] list[i]) == (f * 4096) as u64 && f
        * 4096 <= u64::MAX by {
        let i = choose|i: int| 0 <= i < list.len() && (#[trigger] list[i]) as int / 4096 == f;
        assert(list[i] % 4096 == 0);
    }
    assert(frames_ready::<E>(s2.machine(words))) by {
        assert forall|f: int| #[trigger] s2.frames.free.contains(f) implies words.dom().contains(
            (f * 4096) as u64,
        ) && E::encodable((f * 4096) as u64) by {
            if !s.frames.free.contains(f) {
                let i = choose|i: int|
                    0 <= i < list.len() && (#[trigger] list[i]) == (f * 4096) as u64;
                assert(s.has_frame(b, i));
                assert(s.frame_in_use::<E>(words, s.mapped[b][i]));
            }
        }
    }
    assert(s2.roots.dom() =~= s2.tables.dom());
    assert(s2.roots.dom() =~= s2.mapped.dom());
    assert forall|c: u64| #[trigger] s2.roots.dom().contains(c) implies is_tree::<E>(
        s2.machine(words),
        s2.roots[c],
        s2.tables[c],
    ) by {
        assert(s.roots.dom().contains(c));
        let levels = s.tables[c];
        assert(is_tree::<E>(s.machine(words), s.roots[c], levels));
        assert forall|a: u64| #[trigger] levels.dom().contains(a) implies is_table(
            s2.machine(words),
            levels,
            a,
        ) by {
            assert(is_table(s.machine(words), levels, a));
            if s2.frames.free.contains(a as int / 4096) {
                let i = choose|i: int|
                    0 <= i < list.len() && (#[trigger] list[i]) as int / 4096 == a as int / 4096;
                assert(s.has_frame(b, i));
                assert(s.frame_in_use::<E>(words, s.mapped[b][i]));
                assert(list[i] == a);
            }
        }
    }
    assert forall|c: u64, i: int| s2.has_frame(c, i) implies s2.frame_in_use::<E>(
        words,
        #[trigger] s2.mapped[c][i],
    ) by {
        assert(s.has_frame(c, i));
        let a = s.mapped[c][i];
        assert(s.frame_in_use::<E>(words, a));
        if s2.frames.free.contains(a as int / 4096) {
            let j = choose|j: int|
                0 <= j < list.len() && (#[trigger] list[j]) as int / 4096 == a as int / 4096;
            assert(s.has_frame(b, j));
            assert(s.frame_in_use::<E>(words, s.mapped[b][j]));
            assert(s.mapped[b][j] != s.mapped[c][i]);
        }
        assert forall|d: u64| s2.roots.dom().contains(d) implies !(
        #[trigger] s2.tables[d]).dom().contains(a) by {
            assert(s2.tables[d] == s.tables[d]);
        }
    }
    assert forall|c: u64, i: int, d: u64, j: int|
        s2.has_frame(c, i) && s2.has_frame(d, j) && (c != d || i != j) implies
        #[trigger] s2.mapped[c][i] != #[trigger] s2.mapped[d][j] by {
        assert(s.has_frame(c, i) && s.has_frame(d, j));
        assert(s.mapped[c][i] != s.mapped[d][j]);
    }
    assert forall|c: u64, d: u64|
        s2.roots.dom().contains(c) && s2.roots.dom().contains(d) && c != d implies apart(
        #[trigger] s2.tables[c],
        #[trigger] s2.tables[d],
    ) by {
        assert(apart(s.tables[c], s.tables[d]));
    }
}

/// The frame at `a` holds zeros only.
pub open spec fn is_blank(words: Words, a: u64) -> bool {
    words[a].len() == 512 && forall|k: int| 0 <= k < 512 ==> #[trigger] words[a][k] == 0
}

/// What one fresh page does to the slots of the tables and to the frames in use.
proof fn lemma_page_slots<E: PageTableEncoder>(
    s: Spaces,
    words: Words,
    b: u64,
    virt: u64,
    perms: Permissions,
)
    requires
        s.isolated::<E>(words),
        s.roots.dom().contains(b),
    ensures
        ({
            let (s2, w2, r) = s.new_page::<E>(words, b, virt, perms);
            let frame = s2.mapped[b].last();
            &&& slots_kept::<E>(words, w2, s.tables[b])
            &&& forall|t: u64| #[trigger] s.tables[b].dom().contains(t) ==> s2.tables[b].dom().contains(t)
            &&& forall|i: int| s.has_frame(b, i) ==> w2[#[trigger] s.mapped[b][i]] == words[s.mapped[b][i]]
            &&& r is Ok ==> by_page::<E>(w2, s.roots[b], virt, frame, perms) && is_blank(w2, frame)
        }),
{
    let (s2, w2, r) = s.new_page::<E>(words, b, virt, perms);
    if let Some(f) = s.frames.next() {
        let frame = (f * 4096) as u64;
        let m1 = with_fresh(s, words, f);
        let m2 = map_page::<E>(m1, s.roots[b], virt, frame, perms).0;
        next_frame_is_free(s.frames);
        assert(E::encodable(frame));
        lemma_fresh_frame::<E>(s, words, b);
        mapping_keeps_the_tree::<E>(m1, s.roots[b], s.tables[b], virt, frame, perms);
        let levels2 = if virt % 4096 == 0 {
            tables_after::<E>(m1, s.roots[b], s.tables[b], virt, 3)
        } else {
            s.tables[b]
        };
        assert(slots_kept::<E>(words, m1.words, s.tables[b]));
        E::leaf_entry_reads_back(frame, perms);
        lemma_install_keeps_slots::<E>(
            m1,
            s.roots[b],
            s.tables[b],
            virt,
            E::leaf_entry(frame, perms),
            3,
        );
        lemma_slots_kept_twice::<E>(words, m1.words, w2, s.tables[b], s.tables[b]);
        assert forall|a: u64|
            !m1.frames.free.contains(a as int / 4096) && !(#[trigger] s.tables[b].dom().contains(
                a,
            )) implies !levels2.dom().contains(a) by {}
        assert forall|i: int| s.has_frame(b, i) implies w2[#[trigger] s.mapped[b][i]]
            == words[s.mapped[b][i]] by {
            let a = s.mapped[b][i];
            assert(s.frame_in_use::<E>(words, a));
            assert(a != frame);
            assert(!s.tables[b].dom().contains(a));
            assert(!levels2.dom().contains(a));
            assert(m2.words[a] == m1.words[a]);
        }
        if r is Ok {
            mapped_page_has_its_rights::<E>(m1, s.roots[b], s.tables[b], virt, frame, perms);
            assert(!levels2.dom().contains(frame));
            assert(m2.words[frame] == m1.words[frame]);
            assert(s2.mapped[b].last() == frame);
        }
    }
}

/// Every fresh page of a run that succeeds is reached, from the boundary's root, by an
/// entry that holds the frame newly recorded for that page and exactly the rights that
/// were asked for, and the frame is blank: nothing of what it held before shows. Entries
/// that were there before are as they were.
pub proof fn new_pages_have_their_rights<E: PageTableEncoder>(
    s: Spaces,
    words: Words,
    b: u64,
    virt: u64,
    i: int,
    count: int,
    perms: Permissions,
)
    requires
        s.isolated::<E>(words),
        s.roots.dom().contains(b),
        0 <= i <= count,
        virt + (count - 1) * 4096 <= u64::MAX,
    ensures
        ({
            let (s2, w2, r) = s.new_pages::<E>(words, b, virt, i, count, perms);
            &&& slots_kept::<E>(words, w2, s.tables[b])
            &&& forall|k: int| s.has_frame(b, k) ==> w2[#[trigger] s.mapped[b][k]] == words[s.mapped[b][k]]
            &&& r is Ok ==> forall|j: int|
                i <= j < count ==> by_page::<E>(
                    w2,
                    s.roots[b],
                    #[trigger] page_address(virt, j),
                    s2.mapped[b][s.mapped[b].len() + (j - i)],
                    perms,
                ) && is_blank(w2, s2.mapped[b][s.mapped[b].len() + (j - i)])
        }),
    decreases count - i,
{
    if i < count {
        let v = page_address(virt, i);
        let (s1, w1, r1) = s.new_page::<E>(words, b, v, perms);
        lemma_new_page::<E>(s, words, b, v, perms);
        lemma_page_slots::<E>(s, words, b, v, perms);
        if r1 is Ok {
            lemma_new_page_translates::<E>(s, words, b, v, perms);
            new_pages_have_their_rights::<E>(s1, w1, b, virt, i + 1, count, perms);
            new_pages_are_private::<E>(s1, w1, b, virt, i + 1, count, perms);
            let (s2, w2, r) = s.new_pages::<E>(words, b, virt, i, count, perms);
            lemma_slots_kept_twice::<E>(words, w1, w2, s.tables[b], s1.tables[b]);
            assert forall|k: int| s.has_frame(b, k) implies w2[#[trigger] s.mapped[b][k]]
                == words[s.mapped[b][k]] by {
                assert(s1.has_frame(b, k) && s1.mapped[b][k] == s.mapped[b][k]);
                assert(w2[s1.mapped[b][k]] == w1[s1.mapped[b][k]]);
            }
            if r is Ok {
                let n = s.mapped[b].len() as int;
                let frame = s1.mapped[b][n];
                assert(s1.has_frame(b, n));
                assert(s1.frame_in_use::<E>(w1, frame));
                assert(s2.mapped[b][n] == frame);
                assert(w2[frame] == w1[frame]);
                lemma_by_page_kept::<E>(
                    s1.machine(w1),
                    s.roots[b],
                    s1.tables[b],
                    w2,
                    v,
                    frame,
                    perms,
                );
                assert forall|j: int| i <= j < count implies by_page::<E>(
                    w2,
                    s.roots[b],
                    #[trigger] page_address(virt, j),
                    s2.mapped[b][n + (j - i)],
                    perms,
                ) && is_blank(w2, s2.mapped[b][n + (j - i)]) by {
                    if j > i {
                        assert(n + (j - i) == s1.mapped[b].len() + (j - (i + 1)));
                    }
                }
            }
        }
    }
}

/// Every page of an existing range that was mapped is reached by an entry with exactly the
/// rights that were asked for: by the entry of its own frame, or by that of the 2 MiB block
/// in which its frame lies. The data frames recorded for the boundaries do not change.
pub proof fn existing_range_has_its_rights<E: PageTableEncoder>(
    s: Spaces,
    words: Words,
    b: u64,
    virt: u64,
    phys: u64,
    count: u64,
    perms: Permissions,
    j: int,
)
    requires
        s.isolated::<E>(words),
        s.roots.dom().contains(b),
        virt + (count - 1) * 4096 <= u64::MAX,
        phys + (count - 1) * 4096 <= u64::MAX,
        range_encodable::<E>(phys, count as int),
        s.existing::<E>(words, b, virt, phys, count as int, perms).2 is Ok,
        0 <= j < count,
    ensures
        ({
            let (s2, w2, r) = s.existing::<E>(words, b, virt, phys, count as int, perms);
            let v = page_address(virt, j);
            let p = page_address(phys, j);
            &&& by_page::<E>(w2, s.roots[b], v, (p - p % 4096) as u64, perms) || by_block::<E>(
                w2,
                s.roots[b],
                v,
                (p - p % 0x20_0000) as u64,
                perms,
            )
            &&& s2.mapped == s.mapped
            &&& s2.roots == s.roots
        }),
{
    mapped_range_has_its_rights::<E>(
        s.machine(words),
        s.roots[b],
        s.tables[b],
        virt,
        phys,
        0,
        count as int,
        perms,
        j,
    );
}

} // verus!

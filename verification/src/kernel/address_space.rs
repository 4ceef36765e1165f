//! Address space manager.
//!
//! Gives each isolation boundary its own [`AddressSpace`] -- its own page-table
//! tree -- so that one boundary cannot read another. A boundary's lifecycle is
//! mirrored here: a space is created when the boundary is created, and torn down,
//! returning the data frames it mapped, when the boundary is destroyed.
use vstd::prelude::*;
use crate::abi::ids::BoundaryId;
use crate::kernel::address_space_laws::{
    is_blank, lemma_existing, lemma_fresh_frame, lemma_new_page, new_pages_are_private,
    new_pages_have_their_rights,
};
use crate::kernel::error::{KernelError, KernelResult};
use crate::kernel::frame::{
    free_frames_reachable, next_frame_is_free, FrameAllocator, Frames, PhysFrame, FRAME_SIZE,
};
use crate::kernel::paging::{
    map_page, map_run, page_address, page_error, range_error, translate_from, AddressSpace, Machine, MapFault, PageTableEncoder, Permissions, RangeFault,
};
use crate::kernel::paging_laws::{
    apart, frames_ready, is_tree, range_encodable, range_mapping_keeps_the_tree, tables_after,
    tables_after_run, tree_descent_is_possible, tree_tables_are_reachable, Levels,
};
use crate::kernel::paging_range::by_page;
use crate::kernel::phys_memory::{zero_words, PhysMemory, Words};
use crate::sorted_map::SortedMap;

verus! {

/// The address spaces of all boundaries: the state of the frame allocator, and for
/// each boundary its root table, the data frames recorded for it, and its tables.
pub ghost struct Spaces {
    pub frames: Frames,
    pub roots: Map<u64, u64>,
    pub mapped: Map<u64, Seq<u64>>,
    pub tables: Map<u64, Levels>,
}

/// The allocator after a list of frames was given back.
pub open spec fn all_freed(frames: Frames, list: Seq<u64>) -> Frames
    decreases list.len(),
{
    if list.len() == 0 {
        frames
    } else {
        all_freed(frames, list.drop_last()).with(list.last() as int / 4096)
    }
}

impl Spaces {
    /// Memory and allocator.
    pub open spec fn machine(self, words: Words) -> Machine {
        Machine { words, frames: self.frames }
    }

    /// Boundary `b` has an `i`-th data frame.
    pub open spec fn has_frame(self, b: u64, i: int) -> bool {
        self.mapped.dom().contains(b) && 0 <= i < self.mapped[b].len()
    }

    /// The address spaces are trees that share no table; every data frame recorded
    /// for a boundary is in use, is no table, and is recorded once.
    pub open spec fn isolated<E: PageTableEncoder>(self, words: Words) -> bool {
        &&& frames_ready::<E>(self.machine(words))
        &&& self.roots.dom() == self.tables.dom()
        &&& self.roots.dom() == self.mapped.dom()
        &&& forall|b: u64| #[trigger]
            self.roots.dom().contains(b) ==> is_tree::<E>(
                self.machine(words),
                self.roots[b],
                self.tables[b],
            )
        &&& forall|b: u64, c: u64|
            self.roots.dom().contains(b) && self.roots.dom().contains(c) && b != c ==> apart(
                #[trigger] self.tables[b],
                #[trigger] self.tables[c],
            )
        &&& forall|b: u64, i: int|
            self.has_frame(b, i) ==> self.frame_in_use::<E>(words, #[trigger] self.mapped[b][i])
        &&& forall|b: u64, i: int, c: u64, j: int|
            self.has_frame(b, i) && self.has_frame(c, j) && (b != c || i != j)
                ==> #[trigger] self.mapped[b][i] != #[trigger] self.mapped[c][j]
    }

    /// `a` is a frame that the allocator manages and that is not free, and it is no
    /// table.
    pub open spec fn frame_in_use<E: PageTableEncoder>(self, words: Words, a: u64) -> bool {
        &&& a % 4096 == 0
        &&& (a as int) / 4096 < self.frames.count
        &&& !self.frames.free.contains(a as int / 4096)
        &&& words.dom().contains(a)
        &&& E::encodable(a)
        &&& forall|c: u64|
            self.roots.dom().contains(c) ==> !(#[trigger] self.tables[c]).dom().contains(a)
    }

    /// A space for boundary `b`, whose root is frame `f`.
    pub open spec fn created(self, b: u64, f: int) -> Spaces {
        let root = (f * 4096) as u64;
        Spaces {
            frames: self.frames.without(f),
            roots: self.roots.insert(b, root),
            mapped: self.mapped.insert(b, Seq::empty()),
            tables: self.tables.insert(b, map![root => 0int]),
        }
    }

    /// The space of boundary `b` torn down.
    pub open spec fn destroyed(self, b: u64) -> Spaces {
        Spaces {
            frames: all_freed(self.frames, self.mapped[b]),
            roots: self.roots.remove(b),
            mapped: self.mapped.remove(b),
            tables: self.tables.remove(b),
        }
    }

    /// What `virt` translates to for boundary `b`.
    pub open spec fn translation<E: PageTableEncoder>(
        self,
        words: Words,
        b: u64,
        virt: u64,
    ) -> Option<u64> {
        if self.roots.dom().contains(b) {
            translate_from::<E>(words, self.roots[b], virt, 0)
        } else {
            None
        }
    }

    /// One fresh page for boundary `b` at `virt`. Its frame is recorded where the
    /// mapping succeeds, and given back where it fails.
    pub open spec fn new_page<E: PageTableEncoder>(
        self,
        words: Words,
        b: u64,
        virt: u64,
        perms: Permissions,
    ) -> (Spaces, Words, Result<(), MapFault>) {
        match self.frames.next() {
            None => (self, words, Err(MapFault::NoFrames)),
            Some(f) => {
                let frame = (f * 4096) as u64;
                let m1 = Machine {
                    words: words.insert(frame, zero_words()),
                    frames: self.frames.without(f),
                };
                let (m2, r) = map_page::<E>(m1, self.roots[b], virt, frame, perms);
                (
                    Spaces {
                        frames: if r is Ok {
                            m2.frames
                        } else {
                            m2.frames.with(f)
                        },
                        roots: self.roots,
                        mapped: if r is Ok {
                            self.mapped.insert(b, self.mapped[b].push(frame))
                        } else {
                            self.mapped
                        },
                        tables: if virt % 4096 == 0 {
                            self.tables.insert(
                                b,
                                tables_after::<E>(m1, self.roots[b], self.tables[b], virt, 3),
                            )
                        } else {
                            self.tables
                        },
                    },
                    m2.words,
                    r,
                )
            },
        }
    }

    /// Fresh pages for boundary `b`, from the `i`-th of `count` on.
    pub open spec fn new_pages<E: PageTableEncoder>(
        self,
        words: Words,
        b: u64,
        virt: u64,
        i: int,
        count: int,
        perms: Permissions,
    ) -> (Spaces, Words, Result<(), MapFault>)
        decreases count - i,
    {
        if i >= count {
            (self, words, Ok(()))
        } else {
            let (s, w, r) = self.new_page::<E>(words, b, page_address(virt, i), perms);
            match r {
                Err(_) => (s, w, r),
                Ok(_) => s.new_pages::<E>(w, b, virt, i + 1, count, perms),
            }
        }
    }

    /// An existing physical range for boundary `b`.
    pub open spec fn existing<E: PageTableEncoder>(
        self,
        words: Words,
        b: u64,
        virt: u64,
        phys: u64,
        count: int,
        perms: Permissions,
    ) -> (Spaces, Words, Result<(), RangeFault>) {
        let m = self.machine(words);
        let (m2, r) = map_run::<E>(m, self.roots[b], virt, phys, 0, count, perms);
        (
            Spaces {
                frames: m2.frames,
                tables: self.tables.insert(
                    b,
                    tables_after_run::<E>(
                        m,
                        self.roots[b],
                        self.tables[b],
                        virt,
                        phys,
                        0,
                        count,
                        perms,
                    ),
                ),
                ..self
            },
            m2.words,
            r,
        )
    }
}

/// From `s` to `s2`, boundary `b` was given `count` frames more, each of them blank and
/// reached at its page from `virt` on by an entry with the rights `perms`.
pub open spec fn pages_granted<E: PageTableEncoder>(
    s: Spaces,
    s2: Spaces,
    words: Words,
    b: u64,
    virt: u64,
    count: int,
    perms: Permissions,
) -> bool {
    &&& s2.roots == s.roots
    &&& s2.mapped[b].len() == s.mapped[b].len() + count
    &&& forall|j: int|
        0 <= j < count ==> by_page::<E>(
            words,
            s.roots[b],
            #[trigger] page_address(virt, j),
            s2.mapped[b][s.mapped[b].len() + j],
            perms,
        ) && is_blank(words, s2.mapped[b][s.mapped[b].len() + j])
}

/// One boundary's address space plus the data frames recorded for it, so teardown
/// can return them to the allocator.
struct BoundarySpace {
    space: AddressSpace,
    mapped_frames: Vec<PhysFrame>,
}

/// The base addresses of a list of frames.
pub open spec fn frame_bases(list: Seq<PhysFrame>) -> Seq<u64> {
    Seq::new(list.len(), |i: int| list[i].base())
}

/// Owns per-boundary address spaces and the physical frame allocator they draw
/// from.
pub struct AddressSpaceManager {
    frames: FrameAllocator,
    spaces: SortedMap<BoundarySpace>,
    tables: Ghost<Map<u64, Levels>>,
}

impl View for AddressSpaceManager {
    type V = Spaces;

    closed spec fn view(&self) -> Spaces {
        Spaces {
            frames: self.frames@,
            roots: self.spaces@.map_values(|s: BoundarySpace| s.space.root_base()),
            mapped: self.spaces@.map_values(|s: BoundarySpace| frame_bases(s.mapped_frames@)),
            tables: self.tables@,
        }
    }
}

impl AddressSpaceManager {
    /// The allocator and the list of spaces are well-formed.
    pub closed spec fn wf(&self) -> bool {
        self.frames.wf() && self.spaces.wf()
    }

    /// The allocator.
    pub closed spec fn allocator(&self) -> FrameAllocator {
        self.frames
    }

    /// How many boundaries have a space.
    pub closed spec fn count(&self) -> nat {
        self.spaces.order().len()
    }

    /// Create a manager over the given physical frame allocator.
    pub fn new(frames: FrameAllocator) -> (m: AddressSpaceManager)
        requires
            frames.wf(),
        ensures
            m.wf(),
            m@ == (Spaces {
                frames: frames@,
                roots: Map::empty(),
                mapped: Map::empty(),
                tables: Map::empty(),
            }),
            m.count() == 0,
    {
        let m = AddressSpaceManager { frames, spaces: SortedMap::new(), tables: Ghost(Map::empty()) };
        assert(m@.roots =~= Map::<u64, u64>::empty());
        assert(m@.mapped =~= Map::<u64, Seq<u64>>::empty());
        m
    }

    /// The underlying physical frame allocator (for diagnostics/accounting).
    pub fn frames(&self) -> (f: &FrameAllocator)
        ensures
            *f == self.allocator(),
            f@ == self@.frames,
            self.wf() ==> f.wf(),
    {
        &self.frames
    }

    /// Whether a boundary has an address space.
    pub fn has_space(&self, boundary: BoundaryId) -> (r: bool)
        requires
            self.wf(),
        ensures
            r == self@.roots.dom().contains(boundary.0),
    {
        self.spaces.contains_key(boundary.0)
    }

    /// Number of boundaries with an address space.
    pub fn space_count(&self) -> (n: usize)
        requires
            self.wf(),
        ensures
            n == self.count(),
    {
        self.spaces.len()
    }

    /// Create a fresh, empty address space for `boundary`.
    pub fn create_space<M: PhysMemory>(&mut self, boundary: BoundaryId, mem: &mut M) -> (r:
        KernelResult<()>)
        requires
            old(self).wf(),
            free_frames_reachable(old(self)@.frames, old(mem).words()),
        ensures
            final(self).wf(),
            if old(self)@.roots.dom().contains(boundary.0) {
                &&& r matches Err(e) && e.is_invalid("boundary already has an address space"@)
                &&& *final(self) == *old(self)
                &&& *final(mem) == *old(mem)
            } else {
                match old(self)@.frames.next() {
                    None => {
                        &&& r matches Err(e) && e.is_limit("physical frames"@)
                        &&& final(self)@ == old(self)@
                        &&& final(self).count() == old(self).count()
                        &&& *final(mem) == *old(mem)
                    },
                    Some(f) => {
                        &&& r is Ok
                        &&& final(self)@ == old(self)@.created(boundary.0, f)
                        &&& final(self).count() == old(self).count() + 1
                        &&& final(mem).words() == old(mem).words().insert(
                            (f * 4096) as u64,
                            zero_words(),
                        )
                    },
                }
            },
    {
        if self.spaces.contains_key(boundary.0) {
            return Err(
                KernelError::InvalidState { reason: "boundary already has an address space" },
            );
        }
        let space: AddressSpace = match AddressSpace::new(&mut self.frames, mem) {
            Ok(space) => space,
            Err(e) => return Err(e),
        };
        let ghost root = space.root_base();
        self.spaces.insert(boundary.0, BoundarySpace { space, mapped_frames: Vec::new() });
        proof {
            self.tables@ = self.tables@.insert(boundary.0, map![root => 0int]);
            let f = old(self)@.frames.next()->Some_0;
            assert(self@.roots =~= old(self)@.created(boundary.0, f).roots);
            assert(frame_bases(Seq::<PhysFrame>::empty()) =~= Seq::<u64>::empty());
            assert(self@.mapped =~= old(self)@.created(boundary.0, f).mapped);
        }
        Ok(())
    }

    /// The root page-table frame for `boundary` (its `CR3`/`TTBR0` value).
    pub fn root_of(&self, boundary: BoundaryId) -> (r: Option<PhysFrame>)
        requires
            self.wf(),
        ensures
            match r {
                Some(f) => self@.roots.dom().contains(boundary.0) && f.base()
                    == self@.roots[boundary.0],
                None => !self@.roots.dom().contains(boundary.0),
            },
    {
        match self.spaces.get(boundary.0) {
            Some(b) => Some(b.space.root()),
            None => None,
        }
    }

    /// Allocate `count` fresh physical frames and map them into `boundary`'s space
    /// at virtual `virt` with `perms`. The frames are recorded so teardown reclaims
    /// them; one that cannot be mapped is given back at once.
    pub fn map_new_pages<E: PageTableEncoder, M: PhysMemory>(
        &mut self,
        boundary: BoundaryId,
        virt: u64,
        count: u64,
        perms: Permissions,
        mem: &mut M,
    ) -> (r: KernelResult<()>)
        requires
            old(self).wf(),
            old(self)@.isolated::<E>(old(mem).words()),
            virt + (count - 1) * 4096 <= u64::MAX,
        ensures
            final(self).wf(),
            final(self)@.isolated::<E>(final(mem).words()),
            if !old(self)@.roots.dom().contains(boundary.0) {
                &&& r matches Err(e) && e is UnknownContainer
                &&& final(self)@ == old(self)@
                &&& *final(mem) == *old(mem)
            } else {
                let (s, w, want) = old(self)@.new_pages::<E>(
                    old(mem).words(),
                    boundary.0,
                    virt,
                    0,
                    count as int,
                    perms,
                );
                &&& final(self)@ == s
                &&& final(mem).words() == w
                &&& match want {
                    Ok(_) => r is Ok,
                    Err(fault) => r matches Err(e) && page_error(fault, e),
                }
            },
            r is Ok ==> pages_granted::<E>(
                old(self)@,
                final(self)@,
                final(mem).words(),
                boundary.0,
                virt,
                count as int,
                perms,
            ),
    {
        let mut b: BoundarySpace = match self.spaces.remove(boundary.0) {
            Some(b) => b,
            None => return Err(KernelError::UnknownContainer),
        };
        let ghost key = boundary.0;
        let ghost start = old(self)@;
        proof {
            new_pages_have_their_rights::<E>(
                start,
                mem.words(),
                key,
                virt,
                0,
                count as int,
                perms,
            );
            new_pages_are_private::<E>(start, mem.words(), key, virt, 0, count as int, perms);
        }
        let ghost rest = self.spaces@;
        let ghost mut now: Spaces = start;
        let mut r: KernelResult<()> = Ok(());
        let mut i: u64 = 0;
        assert(rest.insert(key, b).map_values(|s: BoundarySpace| s.space.root_base())
            =~= start.roots);
        assert(rest.insert(key, b).map_values(|s: BoundarySpace| frame_bases(s.mapped_frames@))
            =~= start.mapped);
        while i < count
            invariant_except_break
                r is Ok,
                start.new_pages::<E>(old(mem).words(), key, virt, 0, count as int, perms)
                    == now.new_pages::<E>(mem.words(), key, virt, i as int, count as int, perms),
            invariant
                i <= count,
                virt + (count - 1) * 4096 <= u64::MAX,
                key == boundary.0,
                start == old(self)@,
                start.roots.dom().contains(key),
                self.spaces.wf(),
                self.spaces@ == rest,
                !rest.dom().contains(key),
                self.frames.wf(),
                self.frames@ == now.frames,
                self.tables@ == now.tables,
                b.space.root_base() == now.roots[key],
                frame_bases(b.mapped_frames@) == now.mapped[key],
                now.roots == start.roots,
                now.roots =~= rest.insert(key, b).map_values(
                    |s: BoundarySpace| s.space.root_base(),
                ),
                now.mapped =~= rest.insert(key, b).map_values(
                    |s: BoundarySpace| frame_bases(s.mapped_frames@),
                ),
                now.isolated::<E>(mem.words()),
            ensures
                key == boundary.0,
                start == old(self)@,
                self.spaces.wf(),
                self.spaces@ == rest,
                !rest.dom().contains(key),
                self.frames.wf(),
                now.roots =~= rest.insert(key, b).map_values(
                    |s: BoundarySpace| s.space.root_base(),
                ),
                now.mapped =~= rest.insert(key, b).map_values(
                    |s: BoundarySpace| frame_bases(s.mapped_frames@),
                ),
                self.frames@ == now.frames,
                self.tables@ == now.tables,
                now.isolated::<E>(mem.words()),
                ({
                    let (s, w, want) = start.new_pages::<E>(
                        old(mem).words(),
                        key,
                        virt,
                        0,
                        count as int,
                        perms,
                    );
                    &&& now == s
                    &&& mem.words() == w
                    &&& match want {
                        Ok(_) => r is Ok,
                        Err(fault) => r matches Err(e) && page_error(fault, e),
                    }
                }),
            decreases count - i,
        {
            let v: u64 = virt + i * FRAME_SIZE;
            assert(v == page_address(virt, i as int));
            let ghost words0 = mem.words();
            let ghost before = now;
            proof {
                next_frame_is_free(now.frames);
                lemma_new_page::<E>(before, words0, key, v, perms);
            }
            let frame: PhysFrame = match self.frames.allocate_zeroed(mem) {
                Ok(f) => f,
                Err(e) => {
                    r = Err(e);
                    break ;
                },
            };
            let ghost m1 = Machine { words: mem.words(), frames: self.frames@ };
            proof {
                lemma_fresh_frame::<E>(before, words0, key);
                tree_descent_is_possible::<E>(
                    m1,
                    before.roots[key],
                    before.tables[key],
                    before.roots[key],
                    v,
                    3,
                    true,
                );
            }
            let ghost was = b;
            let mapped: KernelResult<()> = b.space.map::<E, M>(
                v,
                frame,
                perms,
                &mut self.frames,
                mem,
            );
            proof {
                if v % 4096 == 0 {
                    self.tables@ = self.tables@.insert(
                        key,
                        tables_after::<E>(m1, before.roots[key], before.tables[key], v, 3),
                    );
                }
                now = before.new_page::<E>(words0, key, v, perms).0;
            }
            match mapped {
                Err(e) => {
                    self.frames.free(frame);
                    r = Err(e);
                    break ;
                },
                Ok(()) => {
                    b.mapped_frames.push(frame);
                    assert(frame_bases(b.mapped_frames@) =~= frame_bases(was.mapped_frames@).push(
                        frame.base(),
                    ));
                },
            }
            i = i + 1;
        }
        let ghost done = b;
        self.spaces.insert(boundary.0, b);
        proof {
            assert(self@.roots =~= now.roots);
            assert(self@.mapped =~= now.mapped);
            assert(self@ == now);
        }
        r
    }

    /// Map an existing physical range (e.g. shared/device memory) into `boundary`'s
    /// space without allocating new data frames or recording them for reclamation
    /// (the caller owns that memory's lifetime).
    pub fn map_existing<E: PageTableEncoder, M: PhysMemory>(
        &mut self,
        boundary: BoundaryId,
        virt: u64,
        phys: u64,
        count: u64,
        perms: Permissions,
        mem: &mut M,
    ) -> (r: KernelResult<()>)
        requires
            old(self).wf(),
            old(self)@.isolated::<E>(old(mem).words()),
            virt + (count - 1) * 4096 <= u64::MAX,
            phys + (count - 1) * 4096 <= u64::MAX,
            range_encodable::<E>(phys, count as int),
        ensures
            final(self).wf(),
            final(self)@.isolated::<E>(final(mem).words()),
            if !old(self)@.roots.dom().contains(boundary.0) {
                &&& r matches Err(e) && e is UnknownContainer
                &&& final(self)@ == old(self)@
                &&& *final(mem) == *old(mem)
            } else {
                let (s, w, want) = old(self)@.existing::<E>(
                    old(mem).words(),
                    boundary.0,
                    virt,
                    phys,
                    count as int,
                    perms,
                );
                &&& final(self)@ == s
                &&& final(mem).words() == w
                &&& match want {
                    Ok(_) => r is Ok,
                    Err(fault) => r matches Err(e) && range_error(fault, e),
                }
            },
    {
        match self.spaces.get(boundary.0) {
            None => Err(KernelError::UnknownContainer),
            Some(b) => {
                proof {
                    let m = self@.machine(mem.words());
                    let key = boundary.0;
                    range_mapping_keeps_the_tree::<E>(
                        m,
                        self@.roots[key],
                        self@.tables[key],
                        virt,
                        phys,
                        count,
                        perms,
                    );
                    lemma_existing::<E>(self@, mem.words(), key, virt, phys, count, perms);
                }
                let r: KernelResult<()> = b.space.map_range::<E, M>(
                    virt,
                    phys,
                    count,
                    perms,
                    &mut self.frames,
                    mem,
                );
                proof {
                    let key = boundary.0;
                    self.tables@ = self.tables@.insert(
                        key,
                        tables_after_run::<E>(
                            old(self)@.machine(old(mem).words()),
                            old(self)@.roots[key],
                            old(self)@.tables[key],
                            virt,
                            phys,
                            0,
                            count as int,
                            perms,
                        ),
                    );
                }
                r
            },
        }
    }

    /// Translate a virtual address within `boundary`'s space.
    pub fn translate<E: PageTableEncoder, M: PhysMemory>(
        &self,
        boundary: BoundaryId,
        virt: u64,
        mem: &M,
    ) -> (r: Option<u64>)
        requires
            self.wf(),
            self@.isolated::<E>(mem.words()),
        ensures
            r == self@.translation::<E>(mem.words(), boundary.0, virt),
    {
        match self.spaces.get(boundary.0) {
            None => None,
            Some(b) => {
                proof {
                    let key = boundary.0;
                    tree_tables_are_reachable::<E>(
                        self@.machine(mem.words()),
                        self@.roots[key],
                        self@.tables[key],
                        self@.roots[key],
                        virt,
                    );
                }
                b.space.translate::<E, M>(virt, mem)
            },
        }
    }

    /// Tear down `boundary`'s space, returning all the data frames recorded for it
    /// to the allocator. Its page-table frames stay reserved.
    pub fn destroy_space(&mut self, boundary: BoundaryId) -> (r: KernelResult<()>)
        requires
            old(self).wf(),
        ensures
            final(self).wf(),
            if old(self)@.roots.dom().contains(boundary.0) {
                &&& r is Ok
                &&& final(self)@ == old(self)@.destroyed(boundary.0)
                &&& final(self).count() == old(self).count() - 1
            } else {
                &&& r matches Err(e) && e is UnknownContainer
                &&& *final(self) == *old(self)
            },
    {
        let b: BoundarySpace = match self.spaces.remove(boundary.0) {
            Some(b) => b,
            None => return Err(KernelError::UnknownContainer),
        };
        let ghost list = frame_bases(b.mapped_frames@);
        let n: usize = b.mapped_frames.len();
        let mut i: usize = 0;
        let ghost rest = *self;
        while i < n
            invariant
                i <= n,
                n == b.mapped_frames@.len(),
                list == frame_bases(b.mapped_frames@),
                self.spaces == rest.spaces,
                self.tables == rest.tables,
                self.frames.wf(),
                self.frames@ == all_freed(old(self).frames@, list.subrange(0, i as int)),
            decreases n - i,
        {
            self.frames.free(b.mapped_frames[i]);
            proof {
                let next = list.subrange(0, i + 1);
                assert(next.drop_last() =~= list.subrange(0, i as int));
                assert(next.last() == b.mapped_frames@[i as int].base());
            }
            i = i + 1;
        }
        proof {
            assert(list.subrange(0, n as int) =~= list);
            self.tables@ = self.tables@.remove(boundary.0);
            assert(self@.roots =~= old(self)@.roots.remove(boundary.0));
            assert(self@.mapped =~= old(self)@.mapped.remove(boundary.0));
        }
        Ok(())
    }
}

} // verus!

//! Access to physical memory, one page-table word at a time.
use vstd::prelude::*;
use crate::kernel::frame::PhysFrame;

verus! {

/// Words in a 4 KiB frame.
pub const WORDS_PER_FRAME: usize = 512;

/// The words of a zeroed frame.
pub open spec fn zero_words() -> Seq<u64> {
    Seq::new(512, |i: int| 0u64)
}

/// The words of the frames that can be reached, by the frame's base address.
pub type Words = Map<u64, Seq<u64>>;

/// Physical memory as the kernel reaches it: on the booted kernel, through the
/// identity map that the bootloader installed.
pub trait PhysMemory {
    /// What the frames that can be reached hold.
    spec fn words(&self) -> Words;

    /// Read word `index` of a frame.
    fn read_word(&self, frame: PhysFrame, index: usize) -> (w: u64)
        requires
            self.words().dom().contains(frame.base()),
            index < 512,
        ensures
            self.words()[frame.base()].len() == 512,
            w == self.words()[frame.base()][index as int],
    ;

    /// Write word `index` of a frame.
    fn write_word(&mut self, frame: PhysFrame, index: usize, value: u64)
        requires
            old(self).words().dom().contains(frame.base()),
            index < 512,
        ensures
            old(self).words()[frame.base()].len() == 512,
            final(self).words() == old(self).words().insert(
                frame.base(),
                old(self).words()[frame.base()].update(index as int, value),
            ),
    ;

    /// Zero a frame.
    fn zero_frame(&mut self, frame: PhysFrame)
        requires
            old(self).words().dom().contains(frame.base()),
        ensures
            final(self).words() == old(self).words().insert(frame.base(), zero_words()),
    ;
}

/// Physical memory from address 0 on, kept in a buffer.
pub struct Arena {
    frames: Vec<Vec<u64>>,
}

impl Arena {
    /// The words of the frames.
    pub closed spec fn contents(&self) -> Words {
        Map::new(
            |a: u64| a % 4096 == 0 && a / 4096 < self.frames@.len(),
            |a: u64| self.frames@[(a / 4096) as int]@,
        )
    }

    #[verifier::type_invariant]
    spec fn shaped(&self) -> bool {
        forall|i: int| 0 <= i < self.frames@.len() ==> (#[trigger] self.frames@[i])@.len() == 512
    }

    /// Zeroed memory of `count` frames.
    pub fn new(count: usize) -> (arena: Arena)
        ensures
            forall|a: u64|
                #[trigger] arena.contents().dom().contains(a) <==> a % 4096 == 0 && a / 4096
                    < count,
            forall|a: u64|
                arena.contents().dom().contains(a) ==> #[trigger] arena.contents()[a]
                    == zero_words(),
    {
        let mut frames: Vec<Vec<u64>> = Vec::new();
        let mut i: usize = 0;
        while i < count
            invariant
                i <= count,
                frames@.len() == i,
                forall|j: int| 0 <= j < i ==> (#[trigger] frames@[j])@ == zero_words(),
            decreases count - i,
        {
            let zero: Vec<u64> = vec![0u64;WORDS_PER_FRAME];
            assert(zero@ =~= zero_words());
            frames.push(zero);
            i = i + 1;
        }
        Arena { frames }
    }
}

impl PhysMemory for Arena {
    open spec fn words(&self) -> Words {
        self.contents()
    }

    fn read_word(&self, frame: PhysFrame, index: usize) -> (w: u64) {
        proof {
            use_type_invariant(self);
        }
        let n: usize = self.frames.len();
        let f: usize = frame.index() as usize;
        self.frames[f][index]
    }

    fn write_word(&mut self, frame: PhysFrame, index: usize, value: u64) {
        proof {
            use_type_invariant(&*self);
        }
        let n: usize = self.frames.len();
        let f: usize = frame.index() as usize;
        let mut frames: Vec<Vec<u64>> = Vec::new();
        core::mem::swap(&mut self.frames, &mut frames);
        let mut words: Vec<u64> = vstd::slice::slice_to_vec(frames[f].as_slice());
        words[index] = value;
        frames[f] = words;
        core::mem::swap(&mut self.frames, &mut frames);
        assert(self.contents() =~= old(self).contents().insert(
            frame.base(),
            old(self).contents()[frame.base()].update(index as int, value),
        ));
    }

    fn zero_frame(&mut self, frame: PhysFrame) {
        proof {
            use_type_invariant(&*self);
        }
        let n: usize = self.frames.len();
        let f: usize = frame.index() as usize;
        let mut frames: Vec<Vec<u64>> = Vec::new();
        core::mem::swap(&mut self.frames, &mut frames);
        let zero: Vec<u64> = vec![0u64;WORDS_PER_FRAME];
        assert(zero@ =~= zero_words());
        frames[f] = zero;
        core::mem::swap(&mut self.frames, &mut frames);
        assert(self.contents() =~= old(self).contents().insert(frame.base(), zero_words()));
    }
}

/// A word that was written to a frame reads back; every other word of it, and every other
/// frame, is as it was. A zeroed frame has only zeros.
pub proof fn written_words_read_back(
    m: &mut Arena,
    after: Arena,
    frame: PhysFrame,
    index: usize,
    value: u64,
    got: u64,
    other: PhysFrame,
    place: usize,
    had: u64,
    has: u64,
    z: &mut Arena,
    blank: Arena,
    zero: u64,
)
    requires
        after == *final(m),
        old(m).contents().dom().contains(frame.base()) && old(m).contents().dom().contains(
            other.base(),
        ),
        index < 512 && place < 512,
        call_ensures(Arena::write_word, (m, frame, index, value), ()),
        call_ensures(Arena::read_word, (&after, frame, index), got),
        other.base() != frame.base() || place != index,
        call_ensures(Arena::read_word, (&*old(m), other, place), had),
        call_ensures(Arena::read_word, (&after, other, place), has),
        *old(z) == after,
        blank == *final(z),
        call_ensures(Arena::zero_frame, (z, frame), ()),
        call_ensures(Arena::read_word, (&blank, frame, place), zero),
    ensures
        got == value,
        has == had,
        zero == 0,
        after.contents().dom() == old(m).contents().dom(),
{
    assert(after.contents().dom() =~= old(m).contents().dom());
}

} // verus!

//! The heap's backing store: a run of machine words reached by address.
//!
//! Free-list links live inside the free memory they describe. Here that memory
//! is a vector of words; an address is turned into an index and checked against
//! the bounds before every access.

use vstd::prelude::*;

verus! {

/// The link that leads nowhere. Nothing that is kept in an arena starts at the
/// highest address, so it can stand for "none" and leave every address of the
/// heap to the blocks, the lowest too.
pub const NIL: usize = usize::MAX;

/// Bytes in one word of the arena.
pub const WORD_SIZE: usize = 8;

/// Word-granular memory covering `[start, end)`.
pub struct Arena {
    base: usize,
    words: Vec<usize>,
}

/// `count` words that hold the words of `old` from position `offset` on and zero
/// everywhere else.
fn widened(old: &Vec<usize>, offset: usize, count: usize) -> (words: Vec<usize>)
    requires
        offset + old.len() <= count,
    ensures
        words.len() == count,
        forall|j: int|
            0 <= j < count ==> #[trigger] words@[j] == (if offset <= j < offset + old.len() {
                old@[j - offset]
            } else {
                0
            }),
{
    let mut words = vec![0usize; count];
    let mut i: usize = 0;
    while i < old.len()
        invariant
            i <= old.len(),
            offset + old.len() <= count,
            words.len() == count,
            forall|j: int|
                0 <= j < count ==> #[trigger] words@[j] == (if offset <= j < offset + i {
                    old@[j - offset]
                } else {
                    0
                }),
        decreases old.len() - i,
    {
        words[offset + i] = old[i];
        i = i + 1;
    }
    words
}

impl Arena {
    /// The base is word-aligned and the covered range ends within the address space.
    pub closed spec fn wf(&self) -> bool {
        &&& self.base % 8 == 0
        &&& self.base + 8 * self.words.len() <= usize::MAX
    }

    /// First address covered.
    pub closed spec fn start(&self) -> int {
        self.base as int
    }

    /// One past the last address covered.
    pub closed spec fn end(&self) -> int {
        self.base + 8 * self.words.len()
    }

    /// `addr` names a whole word inside the arena.
    pub open spec fn holds(&self, addr: int) -> bool {
        self.start() <= addr && addr + 8 <= self.end() && addr % 8 == 0
    }

    /// The word stored at `addr`.
    pub closed spec fn word(&self, addr: int) -> usize
        recommends
            self.holds(addr),
    {
        self.words@[(addr - self.base) / 8]
    }

    /// Same extent as `other`.
    pub open spec fn same_extent(&self, other: &Arena) -> bool {
        self.start() == other.start() && self.end() == other.end()
    }

    /// The covered range lies within the address space and starts and ends on word
    /// boundaries.
    pub proof fn lemma_bounds(&self)
        requires
            self.wf(),
        ensures
            0 <= self.start() <= self.end() <= usize::MAX,
            self.start() % 8 == 0,
            self.end() % 8 == 0,
    {
    }

    /// An arena that covers nothing.
    pub fn empty() -> (arena: Arena)
        ensures
            arena.wf(),
            arena.start() == 0,
            arena.end() == 0,
    {
        Arena { base: 0, words: Vec::new() }
    }

    /// A zero-filled arena over the whole words of `[base, base + bytes)`.
    pub fn new(base: usize, bytes: usize) -> (arena: Arena)
        requires
            base % 8 == 0,
            base + bytes <= usize::MAX,
        ensures
            arena.wf(),
            arena.start() == base,
            arena.end() == base + (bytes / 8) * 8,
            forall|addr: int| arena.holds(addr) ==> #[trigger] arena.word(addr) == 0,
    {
        let words = vec![0usize; bytes / WORD_SIZE];
        Arena { base, words }
    }

    /// Whether the arena covers no word.
    pub open spec fn is_empty(&self) -> bool {
        self.start() == self.end()
    }

    /// First address covered once the arena has been made to cover `[start, end)`
    /// as well: `start` for an arena that covered nothing, the lower of the two
    /// starts otherwise.
    pub open spec fn start_with(&self, start: int) -> int {
        if self.is_empty() || start < self.start() {
            start
        } else {
            self.start()
        }
    }

    /// One past the last address covered once the arena has been made to cover
    /// `[start, end)` as well.
    pub open spec fn end_with(&self, end: int) -> int {
        if self.is_empty() || self.end() < end {
            end
        } else {
            self.end()
        }
    }

    /// Makes the arena cover the words of `[start, end)` as well as those it covers
    /// already, and whatever lies between the two. The words covered before keep
    /// their values; the others are zero.
    #[verifier::rlimit(30)]
    pub fn cover(&mut self, start: usize, end: usize)
        requires
            old(self).wf(),
            start % 8 == 0,
            end % 8 == 0,
            start < end,
        ensures
            final(self).wf(),
            final(self).start() == old(self).start_with(start as int),
            final(self).end() == old(self).end_with(end as int),
            forall|a: int|
                old(self).holds(a) ==> final(self).holds(a) && #[trigger] final(self).word(a)
                    == old(self).word(a),
            forall|a: int|
                final(self).holds(a) && !old(self).holds(a) ==> #[trigger] final(self).word(a) == 0,
    {
        let len = self.words.len();
        if len == 0 {
            let count = (end - start) / WORD_SIZE;
            self.base = start;
            self.words = vec![0usize; count];
            return;
        }
        let old_end = self.base + WORD_SIZE * len;
        let lo = if start < self.base { start } else { self.base };
        let hi = if old_end < end { end } else { old_end };
        if lo == self.base && hi == old_end {
            return;
        }
        let count = (hi - lo) / WORD_SIZE;
        let offset = (self.base - lo) / WORD_SIZE;
        let words = widened(&self.words, offset, count);
        let ghost before = *self;
        self.base = lo;
        self.words = words;
        proof {
            assert forall|a: int| before.holds(a) implies self.holds(a) && #[trigger] self.word(a)
                == before.word(a) by {
                let j = (a - before.base) / 8;
                assert((a - lo) / 8 == offset + j);
                assert(self.words@[offset + j] == before.words@[offset + j - offset]);
            }
            assert forall|a: int| self.holds(a) && !before.holds(a) implies #[trigger] self.word(a)
                == 0 by {
                let j = (a - lo) / 8;
                assert(!(offset <= j < offset + len));
                assert(self.words@[j] == 0);
            }
        }
    }

    /// First address covered.
    pub fn start_addr(&self) -> (addr: usize)
        requires
            self.wf(),
        ensures
            addr == self.start(),
    {
        self.base
    }

    /// One past the last address covered.
    pub fn end_addr(&self) -> (addr: usize)
        requires
            self.wf(),
        ensures
            addr == self.end(),
    {
        self.base + WORD_SIZE * self.words.len()
    }

    /// Reads the word at `addr`.
    pub fn read(&self, addr: usize) -> (w: usize)
        requires
            self.wf(),
            self.holds(addr as int),
        ensures
            w == self.word(addr as int),
    {
        self.words[(addr - self.base) / WORD_SIZE]
    }

    /// Stores `value` at `addr` and leaves every other word as it was.
    pub fn write(&mut self, addr: usize, value: usize)
        requires
            old(self).wf(),
            old(self).holds(addr as int),
        ensures
            final(self).wf(),
            final(self).same_extent(old(self)),
            final(self).word(addr as int) == value,
            forall|a: int|
                old(self).holds(a) && a != addr
                    ==> #[trigger] final(self).word(a) == old(self).word(a),
    {
        let i = (addr - self.base) / WORD_SIZE;
        self.words[i] = value;
        assert forall|a: int| old(self).holds(a) && a != addr implies #[trigger] self.word(a)
            == old(self).word(a) by {
            assert((a - self.base) / 8 != (addr - self.base) / 8);
        }
    }
}

} // verus!

//! What a block of postings can score, at best.
//!
//! Block max WAND skips a block when the best score anything in it could reach
//! is below the worst hit already in hand. What is stored here is the largest
//! `f / (f + norm)` in each block, which is the whole of the score that varies
//! within a term, rounded up to a byte and again, in a section beside it, to two.
//! The only loss is the quantisation, and rounding up keeps it a bound. A posting
//! comes here already quantised: rounding up keeps the order of what it rounds,
//! so the largest of the rounded is the rounded largest.
//!
//! # Layout
//!
//! ```text
//! 0..4    terms, u32          how many terms have an entry
//! 4..8    k1, the bits of an f32
//! 8..12   b, the bits of an f32
//! 12..16  average, the bits of an f32: the mean document length assumed
//! 16..    the directory, `terms` entries of twelve bytes, ascending by offset
//!           0..8    the term's byte offset into the postings section, u64
//!           8..12   where its ceilings start in the payload, u32
//! then    the payload, one byte per block
//! ```
//!
//! and the wide section beside it is the payload again, two bytes per block,
//! little endian, with no header and no directory.
//!
//! Only terms with at least one whole block get an entry.
use crate::codec::{
    get_u32, get_u64, le_bytes, le_value, lemma_le_bytes, lemma_le_unfold, lemma_le_value, put_u16,
    put_u32, put_u64, short,
};
use crate::error::{Error, Result};
use crate::keys::write_bytes;
use vstd::prelude::*;
use vstd::slice::slice_subrange;

pub mod order;

pub use order::Ceilings;

verus! {

/// How many postings a block holds.
pub const BLOCK_SIZE: usize = 128;

/// What a ceiling of one is stored as.
pub const SCALE: u8 = 255;

/// What a ceiling of one is stored as in the wide section.
pub const WIDE_SCALE: u16 = 65535;

/// The bytes a directory entry takes.
pub const ENTRY: usize = 12;

/// The bytes before the directory starts.
pub const HEADER: usize = 16;

/// The best of the postings from `lo` to `hi`, at both widths.
pub open spec fn top(pushed: Seq<(u8, u16)>, lo: int, hi: int) -> (u8, u16)
    decreases hi - lo,
{
    if hi <= lo {
        (0, 0)
    } else {
        let before = top(pushed, lo, hi - 1);
        let last = pushed[hi - 1];
        (
            if last.0 > before.0 {
                last.0
            } else {
                before.0
            },
            if last.1 > before.1 {
                last.1
            } else {
                before.1
            },
        )
    }
}

/// The ceilings of a list, one for each whole block and one for the leftovers.
pub open spec fn ceilings_of(pushed: Seq<(u8, u16)>) -> Seq<(u8, u16)> {
    Seq::new(
        ((pushed.len() + 127) / 128) as nat,
        |i: int|
            top(
                pushed,
                128 * i,
                if 128 * i + 128 < pushed.len() {
                    128 * i + 128
                } else {
                    pushed.len() as int
                },
            ),
    )
}

/// One term: where its posting list is, and its ceilings.
pub type Term = (u64, Seq<(u8, u16)>);

/// Some terms and one more, whose posting list starts at `offset`, where it has a whole
/// block.
pub open spec fn closed(terms: Seq<Term>, offset: u64, pushed: Seq<(u8, u16)>) -> Seq<Term> {
    if pushed.len() >= 128 {
        terms.push((offset, ceilings_of(pushed)))
    } else {
        terms
    }
}

/// A term whose list has a whole block gets an entry, and one whose list is shorter gets
/// none: of a list that is read whole anyway no ceiling saves anything.
pub proof fn law_a_list_without_a_whole_block_has_no_entry(
    terms: Seq<Term>,
    offset: u64,
    pushed: Seq<(u8, u16)>,
)
    ensures
        pushed.len() < 128 ==> closed(terms, offset, pushed) == terms,
        pushed.len() >= 128 ==> {
            let now = closed(terms, offset, pushed);
            &&& now.len() == terms.len() + 1
            &&& now.drop_last() == terms
            &&& now.last().0 == offset
            &&& 128 * (now.last().1.len() - 1) < pushed.len() <= 128 * now.last().1.len()
        },
{
}

/// The ceilings of every term at one byte each.
pub open spec fn payload_of(terms: Seq<Term>) -> Seq<u8>
    decreases terms.len(),
{
    if terms.len() == 0 {
        Seq::empty()
    } else {
        payload_of(terms.drop_last()) + narrow(terms.last().1)
    }
}

/// The ceilings of every term at two bytes each.
pub open spec fn wide_of(terms: Seq<Term>) -> Seq<u8>
    decreases terms.len(),
{
    if terms.len() == 0 {
        Seq::empty()
    } else {
        wide_of(terms.drop_last()) + wide(terms.last().1)
    }
}

pub open spec fn narrow(blocks: Seq<(u8, u16)>) -> Seq<u8> {
    blocks.map_values(|block: (u8, u16)| block.0)
}

pub open spec fn wide(blocks: Seq<(u8, u16)>) -> Seq<u8>
    decreases blocks.len(),
{
    if blocks.len() == 0 {
        Seq::empty()
    } else {
        wide(blocks.drop_last()) + le_bytes(blocks.last().1 as nat, 2)
    }
}

/// A length as the directory holds it.
pub open spec fn capped(len: nat) -> nat {
    if len > u32::MAX {
        u32::MAX as nat
    } else {
        len
    }
}

/// The directory: where each posting list is, and where its ceilings start.
pub open spec fn directory_of(terms: Seq<Term>) -> Seq<u8>
    decreases terms.len(),
{
    if terms.len() == 0 {
        Seq::empty()
    } else {
        directory_of(terms.drop_last()) + le_bytes(terms.last().0 as nat, 8) + le_bytes(
            capped(payload_of(terms.drop_last()).len()),
            4,
        )
    }
}

/// The section of a list of terms.
pub open spec fn section_of(terms: Seq<Term>, k1: u32, b: u32, average: u32) -> Seq<u8> {
    le_bytes(terms.len(), 4) + le_bytes(k1 as nat, 4) + le_bytes(b as nat, 4) + le_bytes(
        average as nat,
        4,
    ) + directory_of(terms) + payload_of(terms)
}

/// Builds the ceilings for a segment, one term at a time.
///
/// Postings are pushed in the order they are written to the posting list, and
/// [`Writer::finish_term`] closes a term.
pub struct Writer {
    directory: Vec<u8>,
    payload: Vec<u8>,
    /// The same ceilings again at two bytes apiece.
    wide: Vec<u8>,
    terms: u32,
    /// The ceilings of the term in progress.
    pending: Vec<(u8, u16)>,
    /// The best seen in the block in progress.
    best: (u8, u16),
    /// How many postings have gone into the block in progress.
    filled: usize,
    k1: u32,
    b: u32,
    average: u32,
    closed: Ghost<Seq<Term>>,
    pushed: Ghost<Seq<(u8, u16)>>,
}

impl Writer {
    /// The terms that have an entry.
    pub closed spec fn terms(&self) -> Seq<Term> {
        self.closed@
    }

    /// The postings of the term in progress.
    pub closed spec fn pushed(&self) -> Seq<(u8, u16)> {
        self.pushed@
    }

    /// The bits of the parameters the ceilings are computed under.
    pub closed spec fn given(&self) -> (u32, u32, u32) {
        (self.k1, self.b, self.average)
    }

    pub closed spec fn wf(&self) -> bool {
        let pushed = self.pushed@;
        &&& self.terms == self.closed@.len()
        &&& self.directory@ == directory_of(self.closed@)
        &&& self.payload@ == payload_of(self.closed@)
        &&& self.wide@ == wide_of(self.closed@)
        &&& self.filled < 128
        &&& pushed.len() == 128 * self.pending@.len() + self.filled
        &&& self.best == top(pushed, 128 * self.pending@.len() as int, pushed.len() as int)
        &&& forall|i: int|
            0 <= i < self.pending@.len() ==> #[trigger] self.pending@[i] == top(
                pushed,
                128 * i,
                128 * i + 128,
            )
    }

    /// A writer for a segment scored with these parameters, given by their bits.
    pub fn new(k1: u32, b: u32, average: u32) -> (writer: Self)
        ensures
            writer.wf(),
            writer.terms() == Seq::<Term>::empty(),
            writer.pushed() == Seq::<(u8, u16)>::empty(),
            writer.given() == (k1, b, average),
    {
        Writer {
            directory: Vec::new(),
            payload: Vec::new(),
            wide: Vec::new(),
            terms: 0,
            pending: Vec::new(),
            best: (0, 0),
            filled: 0,
            k1,
            b,
            average,
            closed: Ghost(Seq::empty()),
            pushed: Ghost(Seq::empty()),
        }
    }

    /// Takes one posting of the term in progress, as what it reaches at one byte
    /// and at two.
    pub fn push(&mut self, quantum: u8, quantum_wide: u16)
        requires
            old(self).wf(),
        ensures
            final(self).wf(),
            final(self).terms() == old(self).terms(),
            final(self).given() == old(self).given(),
            final(self).pushed() == old(self).pushed().push((quantum, quantum_wide)),
    {
        let ghost was = self.pushed@;
        let ghost n = was.len() as int;
        self.pushed = Ghost(self.pushed@.push((quantum, quantum_wide)));
        proof {
            assert forall|i: int| 0 <= i < self.pending@.len() implies #[trigger] self.pending@[i]
                == top(self.pushed@, 128 * i, 128 * i + 128) by {
                lemma_top_same(was, self.pushed@, 128 * i, 128 * i + 128);
            }
            lemma_top_same(was, self.pushed@, 128 * self.pending@.len() as int, n);
        }
        let first: u8 = if quantum > self.best.0 {
            quantum
        } else {
            self.best.0
        };
        let second: u16 = if quantum_wide > self.best.1 {
            quantum_wide
        } else {
            self.best.1
        };
        self.best = (first, second);
        self.filled = self.filled + 1;
        if self.filled == BLOCK_SIZE {
            self.pending.push(self.best);
            self.best = (0, 0);
            self.filled = 0;
        }
    }

    /// Closes the term whose posting list starts at `offset`.
    ///
    /// The leftovers at the end of a list are a block as far as a walk is
    /// concerned, so they get a ceiling of their own at one index past the last
    /// whole block. A term with no whole block has nothing worth skipping and
    /// would cost twelve bytes of directory to say so.
    pub fn finish_term(&mut self, offset: u64)
        requires
            old(self).wf(),
            old(self).terms().len() < u32::MAX,
        ensures
            final(self).wf(),
            final(self).given() == old(self).given(),
            final(self).pushed() == Seq::<(u8, u16)>::empty(),
            final(self).terms() == closed(old(self).terms(), offset, old(self).pushed()),
    {
        let ghost was = *self;
        let whole: usize = self.pending.len();
        if self.filled > 0 {
            self.pending.push(self.best);
        }
        if whole > 0 {
            let ghost blocks = ceilings_of(was.pushed@);
            let ghost term: Term = (offset, blocks);
            proof {
                assert(self.pending@ =~= blocks);
                assert(was.closed@.push(term).drop_last() =~= was.closed@);
            }
            put_u64(&mut self.directory, offset);
            let start: u32 = if self.payload.len() as u64 > u32::MAX as u64 {
                u32::MAX
            } else {
                self.payload.len() as u32
            };
            put_u32(&mut self.directory, start);
            let ghost payload = self.payload@;
            let ghost wider = self.wide@;
            let mut i: usize = 0;
            proof {
                assert(payload + narrow(blocks.take(0)) =~= payload);
                assert(wider + wide(blocks.take(0)) =~= wider);
            }
            while i < self.pending.len()
                invariant
                    i <= self.pending@.len(),
                    self.pending@ == blocks,
                    self.payload@ == payload + narrow(blocks.take(i as int)),
                    self.wide@ == wider + wide(blocks.take(i as int)),
                    *self == (Writer {
                        payload: self.payload,
                        wide: self.wide,
                        directory: self.directory,
                        pending: self.pending,
                        ..was
                    }),
                    self.directory@ == was.directory@ + le_bytes(offset as nat, 8) + le_bytes(
                        capped(was.payload@.len()),
                        4,
                    ),
                decreases self.pending.len() - i,
            {
                let block: (u8, u16) = self.pending[i];
                self.payload.push(block.0);
                put_u16(&mut self.wide, block.1);
                proof {
                    let longer = blocks.take(i + 1);
                    assert(longer.drop_last() =~= blocks.take(i as int));
                    assert(narrow(longer) =~= narrow(blocks.take(i as int)).push(block.0));
                    assert(self.payload@ =~= payload + narrow(longer));
                    assert(self.wide@ =~= wider + wide(longer));
                }
                i = i + 1;
            }
            assert(blocks.take(i as int) =~= blocks);
            self.terms = self.terms + 1;
            self.closed = Ghost(self.closed@.push(term));
        }
        self.pending.clear();
        self.best = (0, 0);
        self.filled = 0;
        self.pushed = Ghost(Seq::empty());
    }

    /// The section, laid out.
    pub fn finish(&self) -> (out: Vec<u8>)
        requires
            self.wf(),
        ensures
            out@ == section_of(
                self.terms(),
                self.given().0,
                self.given().1,
                self.given().2,
            ),
    {
        let mut out: Vec<u8> = Vec::new();
        put_u32(&mut out, self.terms);
        put_u32(&mut out, self.k1);
        put_u32(&mut out, self.b);
        put_u32(&mut out, self.average);
        write_bytes(&self.directory, &mut out);
        write_bytes(&self.payload, &mut out);
        assert(out@ =~= section_of(
            self.terms(),
            self.given().0,
            self.given().1,
            self.given().2,
        ));
        out
    }

    /// The wide ceilings, two bytes a block, in the order the payload has them.
    ///
    /// Read after the last [`Writer::finish_term`] and written as a section of its
    /// own.
    pub fn wide(&self) -> (bytes: &Vec<u8>)
        requires
            self.wf(),
        ensures
            bytes@ == wide_of(self.terms()),
    {
        &self.wide
    }

    /// Whether nothing was worth writing, which is a segment of short lists.
    pub fn is_empty(&self) -> (empty: bool)
        requires
            self.wf(),
        ensures
            empty == (self.terms().len() == 0),
    {
        self.terms == 0
    }
}

proof fn lemma_top_same(a: Seq<(u8, u16)>, b: Seq<(u8, u16)>, lo: int, hi: int)
    requires
        0 <= lo,
        hi <= a.len(),
        hi <= b.len(),
        forall|i: int| 0 <= i < hi ==> #[trigger] a[i] == b[i],
    ensures
        top(a, lo, hi) == top(b, lo, hi),
    decreases hi - lo,
{
    if lo < hi {
        lemma_top_same(a, b, lo, hi - 1);
    }
}

/// The best of some postings is one of them, or nothing, and none is above it.
pub proof fn law_a_ceiling_bounds_its_block(pushed: Seq<(u8, u16)>, lo: int, hi: int, at: int)
    requires
        0 <= lo <= at < hi <= pushed.len(),
    ensures
        pushed[at].0 <= top(pushed, lo, hi).0,
        pushed[at].1 <= top(pushed, lo, hi).1,
    decreases hi - lo,
{
    if at < hi - 1 {
        law_a_ceiling_bounds_its_block(pushed, lo, hi - 1, at);
    }
}

/// The best of some postings is reached by one of them, at each width.
proof fn lemma_top_reached(pushed: Seq<(u8, u16)>, lo: int, hi: int) -> (at: (int, int))
    requires
        0 <= lo < hi <= pushed.len(),
    ensures
        lo <= at.0 < hi,
        lo <= at.1 < hi,
        pushed[at.0].0 == top(pushed, lo, hi).0,
        pushed[at.1].1 == top(pushed, lo, hi).1,
    decreases hi - lo,
{
    if hi == lo + 1 {
        assert(top(pushed, lo, lo) == (0u8, 0u16));
        (lo, lo)
    } else {
        let before = lemma_top_reached(pushed, lo, hi - 1);
        let was = top(pushed, lo, hi - 1);
        (
            if pushed[hi - 1].0 > was.0 {
                hi - 1
            } else {
                before.0
            },
            if pushed[hi - 1].1 > was.1 {
                hi - 1
            } else {
                before.1
            },
        )
    }
}

/// A finished term has a ceiling for each of its blocks, the one the leftovers make
/// among them. No posting of a block is above the block's ceiling, so that a search
/// that skips a block skips nothing that scores more, and a posting of the block
/// reaches it, so that nothing is read for a ceiling that is higher than need be.
pub proof fn law_a_posting_is_under_the_ceiling_of_its_block(pushed: Seq<(u8, u16)>, at: int)
    requires
        0 <= at < pushed.len(),
    ensures
        128 * ceilings_of(pushed).len() >= pushed.len(),
        128 * (ceilings_of(pushed).len() - 1) < pushed.len(),
        pushed[at].0 <= ceilings_of(pushed)[at / 128].0,
        pushed[at].1 <= ceilings_of(pushed)[at / 128].1,
        exists|i: int|
            0 <= i < pushed.len() && i / 128 == at / 128 && (#[trigger] pushed[i]).0
                == ceilings_of(pushed)[at / 128].0,
        exists|i: int|
            0 <= i < pushed.len() && i / 128 == at / 128 && (#[trigger] pushed[i]).1
                == ceilings_of(pushed)[at / 128].1,
{
    let block = at / 128;
    let lo = 128 * block;
    let hi = if lo + 128 < pushed.len() {
        lo + 128
    } else {
        pushed.len() as int
    };
    assert(ceilings_of(pushed)[block] == top(pushed, lo, hi));
    law_a_ceiling_bounds_its_block(pushed, lo, hi, at);
    let reached = lemma_top_reached(pushed, lo, hi);
    assert(pushed[reached.0].0 == ceilings_of(pushed)[block].0);
    assert(pushed[reached.1].1 == ceilings_of(pushed)[block].1);
}

// ---------------------------------------------------------------------------
// Reading.
// ---------------------------------------------------------------------------

/// The entries of a directory.
pub open spec fn entries_of(directory: Seq<u8>, terms: nat) -> Seq<(u64, u32)> {
    Seq::new(
        terms,
        |i: int|
            (
                le_value(directory.subrange(12 * i, 12 * i + 8)) as u64,
                le_value(directory.subrange(12 * i + 8, 12 * i + 12)) as u32,
            ),
    )
}

/// The first entry that does not come after the one before it.
pub open spec fn first_unsorted(entries: Seq<(u64, u32)>, n: int) -> Option<int>
    decreases n,
{
    if n <= 1 {
        None
    } else {
        match first_unsorted(entries, n - 1) {
            Some(at) => Some(at),
            None => if entries[n - 2].0 >= entries[n - 1].0 {
                Some(n - 1)
            } else {
                None
            },
        }
    }
}

/// What a section says.
pub struct Opened {
    pub entries: Seq<(u64, u32)>,
    pub payload: Seq<u8>,
    pub k1: u32,
    pub b: u32,
    pub average: u32,
}

/// What a section says, or what is wrong with it.
pub open spec fn opened(input: Seq<u8>) -> core::result::Result<Opened, Error> {
    if input.len() < 16 {
        Err(short(4, input.len() % 4))
    } else {
        let terms = le_value(input.take(4));
        if 12 * terms > usize::MAX {
            Err(Error::Overflow)
        } else if input.len() - 16 < 12 * terms {
            Err(short((12 * terms) as nat, (input.len() - 16) as nat))
        } else {
            let entries = entries_of(input.subrange(16, (16 + 12 * terms) as int), terms);
            match first_unsorted(entries, terms as int) {
                Some(at) => Err(Error::NotSorted { at: at as u32 }),
                None => Ok(
                    Opened {
                        entries,
                        payload: input.skip((16 + 12 * terms) as int),
                        k1: le_value(input.subrange(4, 8)) as u32,
                        b: le_value(input.subrange(8, 12)) as u32,
                        average: le_value(input.subrange(12, 16)) as u32,
                    },
                ),
            }
        }
    }
}

/// The offsets ascend.
pub open spec fn ascend(entries: Seq<(u64, u32)>) -> bool {
    forall|i: int, j: int|
        0 <= i < j < entries.len() ==> (#[trigger] entries[i]).0 < (#[trigger] entries[j]).0
}

proof fn lemma_sorted(entries: Seq<(u64, u32)>, n: int)
    requires
        0 <= n <= entries.len(),
        first_unsorted(entries, n) is None,
    ensures
        forall|i: int, j: int|
            0 <= i < j < n ==> (#[trigger] entries[i]).0 < (#[trigger] entries[j]).0,
    decreases n,
{
    if n > 1 {
        lemma_sorted(entries, n - 1);
    }
}

/// Where in the payload a term's ceilings are, if it has any.
pub open spec fn range_of(entries: Seq<(u64, u32)>, len: nat, offset: u64) -> Option<(int, int)> {
    if exists|i: int| 0 <= i < entries.len() && (#[trigger] entries[i]).0 == offset {
        let i = choose|i: int| 0 <= i < entries.len() && (#[trigger] entries[i]).0 == offset;
        Some(
            (
                entries[i].1 as int,
                if i + 1 < entries.len() {
                    entries[i + 1].1 as int
                } else {
                    len as int
                },
            ),
        )
    } else {
        None
    }
}

/// The part of `bytes` a range names, or nothing if it does not name one.
pub open spec fn part(bytes: Seq<u8>, range: Option<(int, int)>) -> Seq<u8> {
    match range {
        Some((start, end)) => if 0 <= start <= end <= bytes.len() {
            bytes.subrange(start, end)
        } else {
            Seq::empty()
        },
        None => Seq::empty(),
    }
}

/// Reads the ceilings a segment carries.
#[derive(Debug, Clone, Copy)]
pub struct Reader<'a> {
    directory: &'a [u8],
    payload: &'a [u8],
    /// The same ceilings at two bytes each, or nothing when the segment does not
    /// carry them or carries a set that is not this one's.
    wide: &'a [u8],
    terms: usize,
    k1: u32,
    b: u32,
    average: u32,
}

impl<'a> Reader<'a> {
    pub closed spec fn entries(&self) -> Seq<(u64, u32)> {
        entries_of(self.directory@, self.terms as nat)
    }

    pub closed spec fn payload(&self) -> Seq<u8> {
        self.payload@
    }

    pub closed spec fn wide(&self) -> Seq<u8> {
        self.wide@
    }

    pub closed spec fn given(&self) -> (u32, u32, u32) {
        (self.k1, self.b, self.average)
    }

    pub closed spec fn wf(&self) -> bool {
        &&& self.directory@.len() == 12 * self.terms
        &&& ascend(self.entries())
        &&& self.wide@.len() == 0 || self.wide@.len() == 2 * self.payload@.len()
    }

    /// Opens the section.
    ///
    /// Reports [`Error::Truncated`] if the header or the directory is shorter than
    /// the count at the front says, and [`Error::NotSorted`] if the directory is
    /// not ascending, which is what the binary search relies on.
    pub fn new(input: &'a [u8]) -> (reader: Result<Self>)
        ensures
            match opened(input@) {
                Err(error) => reader matches Err(e) && e == error,
                Ok(held) => {
                    &&& reader matches Ok(r)
                    &&& r.wf()
                    &&& r.entries() == held.entries
                    &&& r.payload() == held.payload
                    &&& r.wide() == Seq::<u8>::empty()
                    &&& r.given() == (held.k1, held.b, held.average)
                },
            },
    {
        let ghost whole = input@;
        let (terms, rest) = match get_u32(input) {
            Ok(read) => read,
            Err(error) => {
                return Err(error);
            },
        };
        let (k1, rest) = match get_u32(rest) {
            Ok(read) => read,
            Err(error) => {
                return Err(error);
            },
        };
        let (b, rest) = match get_u32(rest) {
            Ok(read) => read,
            Err(error) => {
                return Err(error);
            },
        };
        let (average, rest) = match get_u32(rest) {
            Ok(read) => read,
            Err(error) => {
                return Err(error);
            },
        };
        proof {
            assert(whole.skip(4).take(4) =~= whole.subrange(4, 8));
            assert(whole.skip(4).skip(4).take(4) =~= whole.subrange(8, 12));
            assert(whole.skip(4).skip(4).skip(4).take(4) =~= whole.subrange(12, 16));
            assert(rest@ =~= whole.skip(16));
        }
        let terms: usize = terms as usize;
        let needed: usize = match terms.checked_mul(ENTRY) {
            Some(needed) => needed,
            None => {
                return Err(Error::Overflow);
            },
        };
        if rest.len() < needed {
            return Err(Error::Truncated { needed, available: rest.len() });
        }
        let (directory, payload) = rest.split_at(needed);
        proof {
            assert(directory@ =~= whole.subrange(16, 16 + 12 * terms));
            assert(payload@ =~= whole.skip(16 + 12 * terms));
        }
        let reader = Reader {
            directory,
            payload,
            wide: slice_subrange(payload, 0, 0),
            terms,
            k1,
            b,
            average,
        };
        assert(reader.wide@ =~= Seq::<u8>::empty());
        // The search below is a binary search, so an out of order directory would
        // not be a wrong answer, it would be a missing one.
        match reader.check() {
            Some(at) => Err(Error::NotSorted { at: at as u32 }),
            None => {
                proof {
                    lemma_sorted(reader.entries(), terms as int);
                }
                Ok(reader)
            },
        }
    }

    /// The first entry that does not come after the one before it.
    fn check(&self) -> (at: Option<usize>)
        requires
            self.directory@.len() == 12 * self.terms,
        ensures
            match first_unsorted(self.entries(), self.terms as int) {
                Some(i) => at matches Some(found) && found == i,
                None => at is None,
            },
    {
        let mut index: usize = 1;
        while index < self.terms
            invariant
                self.directory@.len() == 12 * self.terms,
                1 <= index,
                self.terms >= 1 ==> index <= self.terms,
                first_unsorted(self.entries(), index as int) is None,
            decreases self.terms - index,
        {
            let (last, _) = self.entry(index - 1);
            let (offset, _) = self.entry(index);
            if last >= offset {
                proof {
                    lemma_unsorted_stays(self.entries(), index + 1, self.terms as int);
                }
                return Some(index);
            }
            index = index + 1;
        }
        None
    }

    /// The same ceilings at two bytes a block, from the section that holds them.
    ///
    /// Anything that is not exactly twice the narrow payload is not this
    /// segment's, and is dropped rather than read into.
    pub fn with_wide(self, wide: &'a [u8]) -> (reader: Self)
        requires
            self.wf(),
        ensures
            reader.wf(),
            reader.entries() == self.entries(),
            reader.payload() == self.payload(),
            reader.given() == self.given(),
            reader.wide() == if wide@.len() == 2 * self.payload().len() {
                wide@
            } else {
                self.wide()
            },
    {
        if wide.len() % 2 == 0 && wide.len() / 2 == self.payload.len() {
            return Reader {
                directory: self.directory,
                payload: self.payload,
                wide,
                terms: self.terms,
                k1: self.k1,
                b: self.b,
                average: self.average,
            };
        }
        self
    }

    /// Whether the wide ceilings are there and are this segment's.
    pub fn is_wide(&self) -> (wide: bool)
        ensures
            wide == (self.wide().len() > 0),
    {
        self.wide.len() > 0
    }

    /// The bits of the parameters the ceilings were computed under.
    ///
    /// A searcher scoring with anything else has to ignore them.
    pub fn parameters(&self) -> (given: (u32, u32))
        ensures
            given == (self.given().0, self.given().1),
    {
        (self.k1, self.b)
    }

    /// The bits of the mean document length the ceilings were computed against.
    pub fn average_length(&self) -> (average: u32)
        ensures
            average == self.given().2,
    {
        self.average
    }

    /// How many terms have ceilings.
    pub fn len(&self) -> (n: usize)
        ensures
            n == self.entries().len(),
    {
        self.terms
    }

    /// Whether no term does.
    pub fn is_empty(&self) -> (empty: bool)
        ensures
            empty == (self.entries().len() == 0),
    {
        self.terms == 0
    }

    /// The ceilings of the term whose posting list starts at `offset`, one byte
    /// per block, or nothing when that term has none.
    ///
    /// An absent term is not an error. Short lists are left out on purpose.
    pub fn get(&self, offset: u64) -> (bytes: &'a [u8])
        requires
            self.wf(),
        ensures
            bytes@ == part(
                self.payload(),
                range_of(self.entries(), self.payload().len(), offset),
            ),
    {
        let found = match self.range(offset) {
            Some((start, end)) => if start <= end && end <= self.payload.len() {
                slice_subrange(self.payload, start, end)
            } else {
                slice_subrange(self.payload, 0, 0)
            },
            None => slice_subrange(self.payload, 0, 0),
        };
        assert(self.payload@.subrange(0, 0) =~= Seq::<u8>::empty());
        found
    }

    /// The ceilings of that term at the best width the segment carries.
    ///
    /// This is what a walk wants. [`Reader::get`] is the narrow bytes as they are
    /// stored, which is what a test or a dump wants.
    pub fn ceilings(&self, offset: u64) -> (ceilings: Ceilings<'a>)
        requires
            self.wf(),
        ensures
            ({
                let range = range_of(self.entries(), self.payload().len(), offset);
                &&& ceilings.narrow@ == part(self.payload(), range)
                &&& ceilings.wide@ == match range {
                    Some((start, end)) => if 0 <= start <= end <= self.payload().len() {
                        part(self.wide(), Some((2 * start, 2 * end)))
                    } else {
                        Seq::empty()
                    },
                    None => Seq::empty(),
                }
            }),
    {
        let empty = slice_subrange(self.payload, 0, 0);
        assert(empty@ =~= Seq::<u8>::empty());
        match self.range(offset) {
            Some((start, end)) => if start <= end && end <= self.payload.len() {
                // Twice the offsets, because the wide payload is the narrow one
                // with two bytes where it has one and nothing else different.
                let wide = if self.wide.len() == 0 {
                    empty
                } else {
                    slice_subrange(self.wide, 2 * start, 2 * end)
                };
                proof {
                    if self.wide@.len() == 0 {
                        assert(part(
                            self.wide@,
                            Some((2 * start as int, 2 * end as int)),
                        ) =~= Seq::<u8>::empty());
                    }
                }
                Ceilings { narrow: slice_subrange(self.payload, start, end), wide }
            } else {
                Ceilings { narrow: empty, wide: empty }
            },
            None => Ceilings { narrow: empty, wide: empty },
        }
    }

    /// Where in the payload a term's ceilings are, if it has any.
    fn range(&self, offset: u64) -> (range: Option<(usize, usize)>)
        requires
            self.wf(),
        ensures
            match range_of(self.entries(), self.payload@.len(), offset) {
                Some((start, end)) => range matches Some((s, e)) && s == start && e == end,
                None => range is None,
            },
    {
        match self.find(offset) {
            Some(index) => {
                let (_, start) = self.entry(index);
                let end: usize = if index + 1 < self.terms {
                    self.entry(index + 1).1 as usize
                } else {
                    self.payload.len()
                };
                proof {
                    let entries = self.entries();
                    assert(entries[index as int].0 == offset);
                    let i = choose|i: int|
                        0 <= i < entries.len() && (#[trigger] entries[i]).0 == offset;
                    if i < index {
                        assert(entries[i].0 < entries[index as int].0);
                    } else if i > index {
                        assert(entries[index as int].0 < entries[i].0);
                    }
                }
                Some((start as usize, end))
            },
            None => None,
        }
    }

    /// Where in the directory a posting list offset sits, if it is there.
    fn find(&self, offset: u64) -> (found: Option<usize>)
        requires
            self.wf(),
        ensures
            match found {
                Some(index) => index < self.terms && self.entries()[index as int].0 == offset,
                None => forall|i: int|
                    0 <= i < self.entries().len() ==> (#[trigger] self.entries()[i]).0 != offset,
            },
    {
        let mut low: usize = 0;
        let mut high: usize = self.terms;
        while low < high
            invariant
                low <= high <= self.terms,
                self.wf(),
                forall|i: int| 0 <= i < low ==> (#[trigger] self.entries()[i]).0 < offset,
                forall|i: int|
                    high <= i < self.terms ==> (#[trigger] self.entries()[i]).0 > offset,
            decreases high - low,
        {
            let middle: usize = low + (high - low) / 2;
            let (found, _) = self.entry(middle);
            if found < offset {
                low = middle + 1;
            } else if found == offset {
                return Some(middle);
            } else {
                high = middle;
            }
        }
        None
    }

    /// One directory entry: the posting list offset it is for, and where its
    /// ceilings start.
    fn entry(&self, index: usize) -> (entry: (u64, u32))
        requires
            self.directory@.len() == 12 * self.terms,
            index < self.terms,
        ensures
            entry == self.entries()[index as int],
    {
        assert(self.directory.len() <= usize::MAX);
        let at: usize = index * ENTRY;
        let bytes = slice_subrange(self.directory, at, at + ENTRY);
        proof {
            assert(bytes@.take(8) =~= self.directory@.subrange(12 * index, 12 * index + 8));
            assert(bytes@.skip(8).take(4) =~= self.directory@.subrange(
                12 * index + 8,
                12 * index + 12,
            ));
        }
        match get_u64(bytes) {
            Ok((offset, rest)) => match get_u32(rest) {
                Ok((start, _)) => (offset, start),
                Err(_) => (offset, 0),
            },
            Err(_) => (0, 0),
        }
    }
}

/// Where the ceilings of term `i` start.
pub open spec fn start_of(terms: Seq<Term>, i: int) -> int {
    payload_of(terms.take(i)).len() as int
}

proof fn lemma_wide_len(blocks: Seq<(u8, u16)>)
    ensures
        wide(blocks).len() == 2 * blocks.len(),
    decreases blocks.len(),
{
    if blocks.len() > 0 {
        lemma_wide_len(blocks.drop_last());
        lemma_le_bytes(blocks.last().1 as nat, 2);
    }
}

/// Where term `i` of the first `n` is in each of the three parts.
pub open spec fn laid_out(terms: Seq<Term>, n: int, i: int) -> bool {
    let (start, end) = (start_of(terms, i), start_of(terms, i + 1));
    &&& directory_of(terms.take(n)).subrange(12 * i, 12 * i + 8) == le_bytes(
        terms[i].0 as nat,
        8,
    )
    &&& directory_of(terms.take(n)).subrange(12 * i + 8, 12 * i + 12) == le_bytes(
        capped(start as nat),
        4,
    )
    &&& end == start + terms[i].1.len()
    &&& end <= start_of(terms, n)
    &&& payload_of(terms.take(n)).subrange(start, end) == narrow(terms[i].1)
    &&& wide_of(terms.take(n)).subrange(2 * start, 2 * end) == wide(terms[i].1)
}

proof fn lemma_lens(terms: Seq<Term>, n: int)
    requires
        0 <= n <= terms.len(),
    ensures
        directory_of(terms.take(n)).len() == 12 * n,
        wide_of(terms.take(n)).len() == 2 * start_of(terms, n),
        n > 0 ==> start_of(terms, n) == start_of(terms, n - 1) + terms[n - 1].1.len(),
    decreases n,
{
    if n > 0 {
        lemma_lens(terms, n - 1);
        let now = terms.take(n);
        assert(now.drop_last() =~= terms.take(n - 1));
        assert(now.last() == terms[n - 1]);
        lemma_le_bytes(terms[n - 1].0 as nat, 8);
        lemma_le_bytes(capped(payload_of(terms.take(n - 1)).len()), 4);
        lemma_wide_len(terms[n - 1].1);
    }
}

/// The last of the first `n` terms is where it was put.
proof fn lemma_last_laid_out(terms: Seq<Term>, n: int)
    requires
        0 < n <= terms.len(),
    ensures
        laid_out(terms, n, n - 1),
{
    let now = terms.take(n);
    let before = terms.take(n - 1);
    let i = n - 1;
    assert(now.drop_last() =~= before);
    assert(now.last() == terms[i]);
    lemma_lens(terms, n);
    lemma_lens(terms, n - 1);
    lemma_le_bytes(terms[i].0 as nat, 8);
    lemma_le_bytes(capped(payload_of(before).len()), 4);
    lemma_wide_len(terms[i].1);
    assert(directory_of(now).subrange(12 * i, 12 * i + 8) =~= le_bytes(terms[i].0 as nat, 8));
    assert(directory_of(now).subrange(12 * i + 8, 12 * i + 12) =~= le_bytes(
        capped(start_of(terms, i) as nat),
        4,
    ));
    assert(payload_of(now).subrange(start_of(terms, i), start_of(terms, n)) =~= narrow(
        terms[i].1,
    ));
    assert(wide_of(now).subrange(2 * start_of(terms, i), 2 * start_of(terms, n)) =~= wide(
        terms[i].1,
    ));
}

/// One more term leaves the ones before it where they were.
proof fn lemma_laid_out(terms: Seq<Term>, n: int, i: int)
    requires
        0 <= i < n <= terms.len(),
    ensures
        laid_out(terms, n, i),
    decreases n,
{
    if i == n - 1 {
        lemma_last_laid_out(terms, n);
    } else {
        lemma_laid_out(terms, n - 1, i);
        let now = terms.take(n);
        let before = terms.take(n - 1);
        assert(now.drop_last() =~= before);
        lemma_lens(terms, n);
        lemma_lens(terms, n - 1);
        let (start, end) = (start_of(terms, i), start_of(terms, i + 1));
        assert(directory_of(now).subrange(12 * i, 12 * i + 8) =~= directory_of(before).subrange(
            12 * i,
            12 * i + 8,
        ));
        assert(directory_of(now).subrange(12 * i + 8, 12 * i + 12) =~= directory_of(
            before,
        ).subrange(12 * i + 8, 12 * i + 12));
        assert(payload_of(now).subrange(start, end) =~= payload_of(before).subrange(start, end));
        assert(wide_of(now).subrange(2 * start, 2 * end) =~= wide_of(before).subrange(
            2 * start,
            2 * end,
        ));
    }
}

/// The ceilings that were written are the ones a term is found with: a section
/// of terms in posting list order opens, and each term's offset gives its
/// ceilings at both widths.
pub proof fn law_written_ceilings_are_read(
    terms: Seq<Term>,
    k1: u32,
    b: u32,
    average: u32,
    i: int,
)
    requires
        12 * terms.len() <= usize::MAX,
        terms.len() <= u32::MAX,
        payload_of(terms).len() <= u32::MAX,
        forall|p: int, q: int|
            0 <= p < q < terms.len() ==> (#[trigger] terms[p]).0 < (#[trigger] terms[q]).0,
        0 <= i < terms.len(),
    ensures
        opened(section_of(terms, k1, b, average)) matches Ok(held) && {
            let range = range_of(held.entries, held.payload.len(), terms[i].0);
            &&& held.k1 == k1
            &&& held.b == b
            &&& held.average == average
            &&& held.entries.len() == terms.len()
            &&& held.payload == payload_of(terms)
            &&& range == Some((start_of(terms, i), start_of(terms, i + 1)))
            &&& part(held.payload, range) == narrow(terms[i].1)
            &&& part(
                wide_of(terms),
                Some((2 * start_of(terms, i), 2 * start_of(terms, i + 1))),
            ) == wide(terms[i].1)
        },
{
    let n = terms.len() as int;
    assert(terms.take(n) =~= terms);
    lemma_section_opens(terms, k1, b, average);
    lemma_range(terms, i);
    lemma_laid_out(terms, n, i);
    lemma_lens(terms, n);
}

proof fn lemma_wide_at(blocks: Seq<(u8, u16)>, i: int)
    requires
        0 <= i < blocks.len(),
    ensures
        wide(blocks)[2 * i] + 256 * wide(blocks)[2 * i + 1] == blocks[i].1,
    decreases blocks.len(),
{
    lemma_wide_len(blocks);
    lemma_wide_len(blocks.drop_last());
    let last = le_bytes(blocks.last().1 as nat, 2);
    lemma_le_bytes(blocks.last().1 as nat, 2);
    lemma_le_unfold(0);
    if i < blocks.len() - 1 {
        lemma_wide_at(blocks.drop_last(), i);
        assert(wide(blocks)[2 * i] == wide(blocks.drop_last())[2 * i]);
        assert(wide(blocks)[2 * i + 1] == wide(blocks.drop_last())[2 * i + 1]);
    } else {
        assert(wide(blocks)[2 * i] == last[0]);
        assert(wide(blocks)[2 * i + 1] == last[1]);
        reveal_with_fuel(le_value, 3);
        assert(last.skip(1).skip(1) =~= Seq::<u8>::empty());
        assert(last.skip(1)[0] == last[1]);
    }
}

/// What is read of a term bounds its postings. Of a term with a whole block, written
/// after others, the section gives a byte for every block at its posting list's
/// offset, and the wide section two bytes. At either width the posting at `at` is under
/// what its block gives, and some posting of the block reaches it. A term with no whole
/// block is not found.
pub proof fn law_what_is_read_of_a_term_bounds_its_postings(
    before: Seq<Term>,
    offset: u64,
    pushed: Seq<(u8, u16)>,
    k1: u32,
    b: u32,
    average: u32,
    at: int,
)
    requires
        12 * (before.len() + 1) <= usize::MAX,
        before.len() < u32::MAX,
        payload_of(closed(before, offset, pushed)).len() <= u32::MAX,
        forall|p: int, q: int|
            0 <= p < q < before.len() ==> (#[trigger] before[p]).0 < (#[trigger] before[q]).0,
        forall|p: int| 0 <= p < before.len() ==> (#[trigger] before[p]).0 < offset,
        0 <= at < pushed.len(),
    ensures
        ({
            let terms = closed(before, offset, pushed);
            opened(section_of(terms, k1, b, average)) matches Ok(held) && {
                let range = range_of(held.entries, held.payload.len(), offset);
                if pushed.len() < 128 {
                    range is None
                } else {
                    let narrow = part(held.payload, range);
                    let (start, end) = range.unwrap();
                    let wide = part(wide_of(terms), Some((2 * start, 2 * end)));
                    let block = at / 128;
                    let two = wide[2 * block] + 256 * wide[2 * block + 1];
                    &&& 128 * (narrow.len() - 1) < pushed.len() <= 128 * narrow.len()
                    &&& wide.len() == 2 * narrow.len()
                    &&& pushed[at].0 <= narrow[block]
                    &&& pushed[at].1 <= two
                    &&& exists|i: int|
                        0 <= i < pushed.len() && i / 128 == block && (#[trigger] pushed[i]).0
                            == narrow[block]
                    &&& exists|i: int|
                        0 <= i < pushed.len() && i / 128 == block && (#[trigger] pushed[i]).1
                            == two
                }
            }
        }),
{
    let terms = closed(before, offset, pushed);
    if pushed.len() >= 128 {
        let i = before.len() as int;
        assert(terms[i] == (offset, ceilings_of(pushed)));
        assert forall|p: int, q: int| 0 <= p < q < terms.len() implies (#[trigger] terms[p]).0 < (
        #[trigger] terms[q]).0 by {
            assert(terms[p] == before[p]);
        }
        law_written_ceilings_are_read(terms, k1, b, average, i);
        lemma_wide_len(ceilings_of(pushed));
        lemma_wide_at(ceilings_of(pushed), at / 128);
        law_a_posting_is_under_the_ceiling_of_its_block(pushed, at);
    } else {
        lemma_section_opens(terms, k1, b, average);
        lemma_entries(terms);
        let held = opened(section_of(terms, k1, b, average))->Ok_0;
        assert forall|i: int| 0 <= i < held.entries.len() implies (#[trigger] held.entries[i]).0
            != offset by {
            assert(held.entries[i].0 == before[i].0);
        }
    }
}

proof fn lemma_entries(terms: Seq<Term>)
    requires
        payload_of(terms).len() <= u32::MAX,
    ensures
        entries_of(directory_of(terms), terms.len()) == Seq::new(
            terms.len(),
            |p: int| (terms[p].0, start_of(terms, p) as u32),
        ),
        forall|p: int| 0 <= p <= terms.len() ==> #[trigger] start_of(terms, p) <= u32::MAX,
{
    let n = terms.len() as int;
    assert(terms.take(n) =~= terms);
    lemma_le_unfold(0);
    let entries = entries_of(directory_of(terms), terms.len());
    assert forall|p: int| 0 <= p <= n implies #[trigger] start_of(terms, p) <= u32::MAX by {
        if p < n {
            lemma_laid_out(terms, n, p);
        }
    }
    assert forall|p: int| 0 <= p < n implies #[trigger] entries[p] == (
        terms[p].0,
        start_of(terms, p) as u32,
    ) by {
        lemma_laid_out(terms, n, p);
        assert(start_of(terms, p) <= u32::MAX);
        lemma_le_bytes(terms[p].0 as nat, 8);
        lemma_le_bytes(capped(start_of(terms, p) as nat), 4);
    }
    assert(entries =~= Seq::new(
        terms.len(),
        |p: int| (terms[p].0, start_of(terms, p) as u32),
    ));
}

proof fn lemma_range(terms: Seq<Term>, i: int)
    requires
        payload_of(terms).len() <= u32::MAX,
        forall|p: int, q: int|
            0 <= p < q < terms.len() ==> (#[trigger] terms[p]).0 < (#[trigger] terms[q]).0,
        0 <= i < terms.len(),
    ensures
        range_of(
            entries_of(directory_of(terms), terms.len()),
            payload_of(terms).len(),
            terms[i].0,
        ) == Some((start_of(terms, i), start_of(terms, i + 1))),
{
    lemma_entries(terms);
    let n = terms.len() as int;
    assert(terms.take(n) =~= terms);
    let entries = entries_of(directory_of(terms), terms.len());
    assert(entries[i].0 == terms[i].0);
    let at = choose|p: int| 0 <= p < entries.len() && (#[trigger] entries[p]).0 == terms[i].0;
    assert(terms[at].0 == terms[i].0);
    assert(start_of(terms, i) <= u32::MAX);
    assert(start_of(terms, i + 1) <= u32::MAX);
}

proof fn lemma_section_opens(terms: Seq<Term>, k1: u32, b: u32, average: u32)
    requires
        12 * terms.len() <= usize::MAX,
        terms.len() <= u32::MAX,
        payload_of(terms).len() <= u32::MAX,
        forall|p: int, q: int|
            0 <= p < q < terms.len() ==> (#[trigger] terms[p]).0 < (#[trigger] terms[q]).0,
    ensures
        opened(section_of(terms, k1, b, average)) == Ok::<Opened, Error>(
            Opened {
                entries: entries_of(directory_of(terms), terms.len()),
                payload: payload_of(terms),
                k1,
                b,
                average,
            },
        ),
{
    let n = terms.len() as int;
    let input = section_of(terms, k1, b, average);
    assert(terms.take(n) =~= terms);
    lemma_lens(terms, n);
    lemma_le_unfold(0);
    lemma_le_bytes(terms.len(), 4);
    lemma_le_bytes(k1 as nat, 4);
    lemma_le_bytes(b as nat, 4);
    lemma_le_bytes(average as nat, 4);
    assert(input.take(4) =~= le_bytes(terms.len(), 4));
    assert(input.subrange(4, 8) =~= le_bytes(k1 as nat, 4));
    assert(input.subrange(8, 12) =~= le_bytes(b as nat, 4));
    assert(input.subrange(12, 16) =~= le_bytes(average as nat, 4));
    assert(input.subrange(16, 16 + 12 * n) =~= directory_of(terms));
    assert(input.skip(16 + 12 * n) =~= payload_of(terms));
    let entries = entries_of(directory_of(terms), terms.len());
    assert(ascend(entries)) by {
        lemma_entries(terms);
    }
    lemma_ascending_is_sorted(entries, n);
}

proof fn lemma_ascending_is_sorted(entries: Seq<(u64, u32)>, n: int)
    requires
        0 <= n <= entries.len(),
        ascend(entries),
    ensures
        first_unsorted(entries, n) is None,
    decreases n,
{
    if n > 1 {
        lemma_ascending_is_sorted(entries, n - 1);
        assert(entries[n - 2].0 < entries[n - 1].0);
    }
}

proof fn lemma_unsorted_stays(entries: Seq<(u64, u32)>, n: int, m: int)
    requires
        1 <= n <= m,
        first_unsorted(entries, n) is Some,
    ensures
        first_unsorted(entries, m) == first_unsorted(entries, n),
    decreases m,
{
    if n < m {
        lemma_unsorted_stays(entries, n, m - 1);
    }
}

proof fn lemma_first_unsorted(entries: Seq<(u64, u32)>, n: int)
    requires
        0 <= n <= entries.len(),
    ensures
        match first_unsorted(entries, n) {
            Some(at) => 0 < at < n && entries[at - 1].0 >= entries[at].0 && forall|i: int, j: int|
                0 <= i < j < at ==> (#[trigger] entries[i]).0 < (#[trigger] entries[j]).0,
            None => forall|i: int, j: int|
                0 <= i < j < n ==> (#[trigger] entries[i]).0 < (#[trigger] entries[j]).0,
        },
    decreases n,
{
    if n > 1 {
        lemma_first_unsorted(entries, n - 1);
    }
}

/// A section opens exactly where it is as long as it says and the offsets of its terms
/// ascend, and says then what its bytes say: how many terms, the parameters, and twelve
/// bytes a term, with the ceilings behind them.
pub proof fn law_a_section_opens_where_it_is_whole_and_in_order(input: Seq<u8>)
    requires
        input.len() <= usize::MAX,
    ensures
        ({
            let terms = le_value(input.subrange(0, 4)) as int;
            let offset = |i: int| le_value(input.subrange(16 + 12 * i, 24 + 12 * i));
            let ascends = forall|i: int, j: int|
                0 <= i < j < terms ==> #[trigger] offset(i) < #[trigger] offset(j);
            &&& opened(input) is Ok <==> input.len() >= 16 && 16 + 12 * terms <= input.len()
                && ascends
            &&& opened(input) matches Ok(o) ==> {
                &&& o.entries.len() == terms
                &&& o.k1 == le_value(input.subrange(4, 8))
                &&& o.b == le_value(input.subrange(8, 12))
                &&& o.average == le_value(input.subrange(12, 16))
                &&& o.payload == input.subrange(16 + 12 * terms, input.len() as int)
                &&& forall|i: int|
                    0 <= i < terms ==> (#[trigger] o.entries[i]).0 == offset(i) && o.entries[i].1
                        == le_value(input.subrange(24 + 12 * i, 28 + 12 * i))
            }
        }),
{
    if input.len() >= 16 {
        let terms = le_value(input.subrange(0, 4)) as int;
        let offset = |i: int| le_value(input.subrange(16 + 12 * i, 24 + 12 * i));
        assert(input.take(4) =~= input.subrange(0, 4));
        lemma_le_value(input.subrange(4, 8));
        lemma_le_value(input.subrange(8, 12));
        lemma_le_value(input.subrange(12, 16));
        lemma_le_unfold(0);
        if 16 + 12 * terms <= input.len() {
            let directory = input.subrange(16, 16 + 12 * terms);
            let entries = entries_of(directory, terms as nat);
            assert forall|i: int| 0 <= i < terms implies (#[trigger] entries[i]).0 == offset(i)
                && entries[i].1 == le_value(input.subrange(24 + 12 * i, 28 + 12 * i)) by {
                assert(directory.subrange(12 * i, 12 * i + 8) =~= input.subrange(
                    16 + 12 * i,
                    24 + 12 * i,
                ));
                assert(directory.subrange(12 * i + 8, 12 * i + 12) =~= input.subrange(
                    24 + 12 * i,
                    28 + 12 * i,
                ));
                lemma_le_value(input.subrange(16 + 12 * i, 24 + 12 * i));
                lemma_le_value(input.subrange(24 + 12 * i, 28 + 12 * i));
            }
            lemma_first_unsorted(entries, terms);
            match first_unsorted(entries, terms) {
                Some(at) => {
                    assert(entries[at - 1].0 == offset(at - 1) && entries[at].0 == offset(at));
                    assert(!(offset(at - 1) < offset(at)));
                },
                None => {
                    assert forall|i: int, j: int| 0 <= i < j < terms implies #[trigger] offset(i)
                        < #[trigger] offset(j) by {
                        assert(entries[i].0 < entries[j].0);
                    }
                },
            }
            assert(input.skip(16 + 12 * terms) =~= input.subrange(
                16 + 12 * terms,
                input.len() as int,
            ));
        }
    }
}

} // verus!

//! What a query actually did.
//!
//! The numbers here are the ones that separate a query that decoded every
//! posting because the pruning never fired from one that decoded almost none of
//! them and lost the time somewhere else: how many postings were in the lists the
//! query opened, how many of them it decoded, and how many blocks it stepped over
//! without looking inside.
//!
//! # Not paying for it when nobody asked
//!
//! The walk is generic over [`Tally`], and the default implementation is [`Off`],
//! whose methods are empty.
use vstd::prelude::*;

verus! {

/// What one query did, in counts rather than in time.
///
/// Every field is a number a person can check by hand against a small index,
/// which is the property that makes it worth trusting on a large one.
#[derive(Debug, Clone, Copy, PartialEq, Eq, Structural)]
pub struct Counters {
    /// How many of the query's terms were in the index at all.
    pub terms: u32,
    /// How many postings are in the lists the query opened.
    pub postings: u64,
    /// How many blocks those lists hold, counting the short leftovers at the end
    /// of each as one.
    pub blocks: u64,
    /// How many blocks were unpacked.
    pub blocks_decoded: u64,
    /// How many blocks the walk stepped over without unpacking.
    ///
    /// Worked out at the end as the blocks that were there minus the blocks that
    /// were read, rather than counted where the walk decides to skip.
    pub blocks_skipped: u64,
    /// How many postings were unpacked, which is the block count times the block
    /// size except at the end of a list.
    pub postings_decoded: u64,
    /// How many documents had a score computed for them.
    pub documents_scored: u64,
    /// How many documents the walk stepped over because they were deleted.
    pub documents_hidden: u64,
    /// How many times a cursor was moved somewhere the walk named, rather than to
    /// the next thing in front of it.
    pub seeks: u64,
    /// How many times a cursor was moved to its next document.
    pub advances: u64,
}

/// The counts before anything has been counted.
pub open spec fn nothing_counted() -> Counters {
    Counters {
        terms: 0,
        postings: 0,
        blocks: 0,
        blocks_decoded: 0,
        blocks_skipped: 0,
        postings_decoded: 0,
        documents_scored: 0,
        documents_hidden: 0,
        seeks: 0,
        advances: 0,
    }
}

impl Default for Counters {
    fn default() -> (counters: Self)
        ensures
            counters == nothing_counted(),
    {
        Counters {
            terms: 0,
            postings: 0,
            blocks: 0,
            blocks_decoded: 0,
            blocks_skipped: 0,
            postings_decoded: 0,
            documents_scored: 0,
            documents_hidden: 0,
            seeks: 0,
            advances: 0,
        }
    }
}

impl Counters {
    /// How many of the postings in the lists were unpacked, out of how many there
    /// are.
    ///
    /// The last block of a list is padded out to a whole block, so the postings
    /// decoded can exceed the postings in the list. What is read of a list is
    /// never more than the list.
    pub fn read(&self) -> (of: (u64, u64))
        ensures
            of.1 == self.postings,
            of.0 == if self.postings_decoded < self.postings {
                self.postings_decoded
            } else {
                self.postings
            },
    {
        if self.postings_decoded < self.postings {
            (self.postings_decoded, self.postings)
        } else {
            (self.postings, self.postings)
        }
    }
}

/// Somewhere for the walk to report what it did.
///
/// Implemented by [`Counters`], which keeps the numbers, and by [`Off`], which
/// throws them away and costs nothing.
pub trait Tally {
    /// Whether one more of anything, and that many blocks and postings, can be
    /// counted.
    spec fn room(&self, blocks: u64, postings: u64) -> bool;

    /// The lists the query opened, and what is in them.
    fn opened(&mut self, terms: u32, postings: u64, blocks: u64);

    /// A document was scored.
    fn scored(&mut self)
        requires
            old(self).room(0, 0),
    ;

    /// A document was passed over because it has been deleted.
    fn hidden(&mut self)
        requires
            old(self).room(0, 0),
    ;

    /// A cursor was moved somewhere the walk named.
    fn sought(&mut self)
        requires
            old(self).room(0, 0),
    ;

    /// A cursor was moved to its next document.
    fn advanced(&mut self)
        requires
            old(self).room(0, 0),
    ;

    /// What the cursors decoded, collected once the walk is over.
    fn decoded(&mut self, blocks: u64, postings: u64)
        requires
            old(self).room(blocks, postings),
    ;
}

/// A tally that keeps nothing.
///
/// Its methods are empty and inline, so a walk that uses it pays nothing for being
/// able to count.
#[derive(Debug, Clone, Copy, PartialEq, Eq, Structural)]
pub struct Off;

impl Default for Off {
    fn default() -> (off: Self)
        ensures
            off == Off,
    {
        Off
    }
}

impl Tally for Off {
    open spec fn room(&self, blocks: u64, postings: u64) -> bool {
        true
    }

    #[inline]
    fn opened(&mut self, terms: u32, postings: u64, blocks: u64)
        ensures
            *final(self) == *old(self),
    {
    }

    #[inline]
    fn scored(&mut self)
        ensures
            *final(self) == *old(self),
    {
    }

    #[inline]
    fn hidden(&mut self)
        ensures
            *final(self) == *old(self),
    {
    }

    #[inline]
    fn sought(&mut self)
        ensures
            *final(self) == *old(self),
    {
    }

    #[inline]
    fn advanced(&mut self)
        ensures
            *final(self) == *old(self),
    {
    }

    #[inline]
    fn decoded(&mut self, blocks: u64, postings: u64)
        ensures
            *final(self) == *old(self),
    {
    }
}

impl Tally for Counters {
    open spec fn room(&self, blocks: u64, postings: u64) -> bool {
        &&& self.documents_scored < u64::MAX
        &&& self.documents_hidden < u64::MAX
        &&& self.seeks < u64::MAX
        &&& self.advances < u64::MAX
        &&& self.blocks_decoded + blocks <= u64::MAX
        &&& self.postings_decoded + postings <= u64::MAX
    }

    #[inline]
    fn opened(&mut self, terms: u32, postings: u64, blocks: u64)
        ensures
            *final(self) == (Counters { terms, postings, blocks, ..*old(self) }),
    {
        self.terms = terms;
        self.postings = postings;
        self.blocks = blocks;
    }

    #[inline]
    fn scored(&mut self)
        ensures
            *final(self) == (Counters {
                documents_scored: (old(self).documents_scored + 1) as u64,
                ..*old(self)
            }),
    {
        self.documents_scored = self.documents_scored + 1;
    }

    #[inline]
    fn hidden(&mut self)
        ensures
            *final(self) == (Counters {
                documents_hidden: (old(self).documents_hidden + 1) as u64,
                ..*old(self)
            }),
    {
        self.documents_hidden = self.documents_hidden + 1;
    }

    #[inline]
    fn sought(&mut self)
        ensures
            *final(self) == (Counters { seeks: (old(self).seeks + 1) as u64, ..*old(self) }),
    {
        self.seeks = self.seeks + 1;
    }

    #[inline]
    fn advanced(&mut self)
        ensures
            *final(self) == (Counters { advances: (old(self).advances + 1) as u64, ..*old(self) }),
    {
        self.advances = self.advances + 1;
    }

    #[inline]
    fn decoded(&mut self, blocks: u64, postings: u64)
        ensures
            *final(self) == (Counters {
                blocks_decoded: (old(self).blocks_decoded + blocks) as u64,
                postings_decoded: (old(self).postings_decoded + postings) as u64,
                blocks_skipped: if old(self).blocks > old(self).blocks_decoded + blocks {
                    (old(self).blocks - old(self).blocks_decoded - blocks) as u64
                } else {
                    0
                },
                ..*old(self)
            }),
    {
        self.blocks_decoded = self.blocks_decoded + blocks;
        self.postings_decoded = self.postings_decoded + postings;
        self.blocks_skipped = if self.blocks > self.blocks_decoded {
            self.blocks - self.blocks_decoded
        } else {
            0
        };
    }
}

} // verus!

//! Folding a store while other threads are writing into it.
//!
//! A keeper asks what is due against the view the writers are handed, which costs
//! no lock, and takes the store only to fold. What is here is what it counts and
//! what it decides from; the thread it runs on is the caller's.
//!
//! One keeper at a time, per store. Two would be two merged segments in memory
//! for no gain, since the second would be folding what the first is about to
//! replace.
use crate::error::{Error, Result};
use crate::file::publish::Compacted;
use crate::file::view::View as StoreView;
use vstd::prelude::*;

verus! {

/// How full a store is, as a policy has it.
#[derive(Debug, Clone, Copy, PartialEq, Eq, Structural)]
pub enum Pressure {
    /// Nothing is due.
    Clear,
    /// A fold is due.
    Due,
    /// The store is over the cap rather than merely due.
    Stalled,
}

/// What a keeper did, for a run that wants to say so.
///
/// The counts wrap, as counters shared between threads do.
#[derive(Debug, Clone, Copy, PartialEq, Eq, Structural)]
pub struct Tally {
    /// How many folds it committed.
    pub folds: u64,
    /// How many segments those folds replaced.
    pub segments: u64,
    /// How many documents came out of them.
    pub documents: u64,
    /// How long it spent folding, in microseconds, which is the time nothing else
    /// could commit.
    pub took: u64,
    /// How many times it found the store over the cap rather than merely due.
    pub behind: u64,
    /// The most segments it ever saw at once, which is what says whether the
    /// count sat near the cap over the run or climbed and was brought back.
    pub highest: u64,
}

impl Default for Tally {
    fn default() -> (tally: Self)
        ensures
            tally == (Tally {
                folds: 0,
                segments: 0,
                documents: 0,
                took: 0,
                behind: 0,
                highest: 0,
            }),
    {
        Tally { folds: 0, segments: 0, documents: 0, took: 0, behind: 0, highest: 0 }
    }
}

/// A sum as a counter that wraps has it.
pub open spec fn wrapping(a: u64, b: u64) -> u64 {
    ((a + b) % 0x1_0000_0000_0000_0000) as u64
}

/// A tally that has seen a store of so many segments, that full.
pub open spec fn seen(tally: Tally, segments: nat, pressure: Pressure) -> Tally {
    Tally {
        highest: if segments > tally.highest {
            segments as u64
        } else {
            tally.highest
        },
        behind: if pressure == Pressure::Stalled {
            wrapping(tally.behind, 1)
        } else {
            tally.behind
        },
        ..tally
    }
}

/// How many documents of a segment of a view are deleted.
pub open spec fn hidden_at(view: &StoreView<'_>, at: int) -> nat {
    match view.deleted_of(at) {
        Ok(Some(set)) => set.len(),
        _ => 0,
    }
}

/// What is wrong with the first of the first `n` sets of deletions of a view that
/// does not decode.
pub open spec fn undecoded(view: &StoreView<'_>, n: int) -> Option<Error>
    decreases n,
{
    if n <= 0 {
        None
    } else {
        match undecoded(view, n - 1) {
            Some(error) => Some(error),
            None => match view.deleted_of(n - 1) {
                Err(error) => Some(error),
                Ok(_) => None,
            },
        }
    }
}

proof fn lemma_undecoded_stays(view: &StoreView<'_>, n: int, m: int)
    requires
        n <= m,
        undecoded(view, n) is Some,
    ensures
        undecoded(view, m) == undecoded(view, n),
    decreases m - n,
{
    if n < m {
        lemma_undecoded_stays(view, n, m - 1);
    }
}

/// What a round adds to a tally: the most segments seen at once are no fewer than it saw
/// now or had seen, and are one of the two; it was behind once more exactly where the
/// store was over the cap; and what was folded is as it was.
pub proof fn law_a_round_is_noted(tally: Tally, segments: nat, pressure: Pressure)
    requires
        segments <= u64::MAX,
    ensures
        ({
            let next = seen(tally, segments, pressure);
            &&& next.highest >= segments && next.highest >= tally.highest
            &&& next.highest == segments || next.highest == tally.highest
            &&& pressure != Pressure::Stalled ==> next.behind == tally.behind
            &&& pressure == Pressure::Stalled && tally.behind < u64::MAX ==> next.behind
                == tally.behind + 1
            &&& next.folds == tally.folds && next.segments == tally.segments
            &&& next.documents == tally.documents && next.took == tally.took
        }),
{
}

/// The deletions of a view do not all decode exactly where those of some segment do not,
/// and what is reported is what is wrong with the first of them.
pub proof fn law_the_first_that_does_not_decode_is_reported(view: &StoreView<'_>, n: int)
    ensures
        match undecoded(view, n) {
            Some(error) => exists|at: int|
                0 <= at < n && (#[trigger] view.deleted_of(at) matches Err(e) && e == error) && (
                forall|before: int| 0 <= before < at ==> #[trigger] view.deleted_of(before) is Ok),
            None => forall|at: int| 0 <= at < n ==> #[trigger] view.deleted_of(at) is Ok,
        },
    decreases n,
{
    if n > 0 {
        law_the_first_that_does_not_decode_is_reported(view, n - 1);
        if undecoded(view, n - 1) is None && undecoded(view, n) is Some {
            assert(view.deleted_of(n - 1) matches Err(e) && e == undecoded(view, n).unwrap());
        }
    }
}

impl Tally {
    /// Notes what one round saw of a view, and gives what a run to fold is chosen
    /// by: how many documents of each segment are deleted, or nothing where
    /// nothing is due.
    ///
    /// Reports what is wrong with the first set of deletions that does not decode.
    pub fn due(&mut self, view: &StoreView<'_>, pressure: Pressure) -> (deleted: Result<
        Option<Vec<u64>>,
    >)
        requires
            view.wf(),
        ensures
            *final(self) == seen(*old(self), view.segments@.len(), pressure),
            if pressure == Pressure::Clear {
                deleted matches Ok(None)
            } else {
                match undecoded(view, view.segments@.len() as int) {
                    Some(error) => deleted matches Err(e) && e == error,
                    None => {
                        &&& deleted matches Ok(Some(counts))
                        &&& counts@.len() == view.segments@.len()
                        &&& forall|at: int|
                            0 <= at < counts@.len() ==> #[trigger] counts@[at] == hidden_at(
                                view,
                                at,
                            )
                    },
                }
            },
    {
        if !self.saw(view.len(), pressure) {
            return Ok(None);
        }
        let mut deleted: Vec<u64> = Vec::new();
        let n: usize = view.len();
        while deleted.len() < n
            invariant
                n == view.segments@.len(),
                view.wf(),
                pressure != Pressure::Clear,
                *self == seen(*old(self), view.segments@.len(), pressure),
                deleted@.len() <= n,
                undecoded(view, deleted@.len() as int) is None,
                forall|at: int|
                    0 <= at < deleted@.len() ==> #[trigger] deleted@[at] == hidden_at(view, at),
            decreases n - deleted.len(),
        {
            match view.deleted(deleted.len()) {
                Ok(Some(set)) => {
                    deleted.push(set.count());
                },
                Ok(None) => {
                    deleted.push(0);
                },
                Err(error) => {
                    proof {
                        lemma_undecoded_stays(view, deleted@.len() as int + 1, n as int);
                    }
                    return Err(error);
                },
            }
        }
        Ok(Some(deleted))
    }

    /// Notes what one round saw, and says whether a fold should be looked for.
    pub fn saw(&mut self, segments: usize, pressure: Pressure) -> (look: bool)
        ensures
            look == (pressure != Pressure::Clear),
            *final(self) == seen(*old(self), segments as nat, pressure),
    {
        if segments as u64 > self.highest {
            self.highest = segments as u64;
        }
        match pressure {
            Pressure::Clear => false,
            Pressure::Due => true,
            Pressure::Stalled => {
                self.behind = self.behind.wrapping_add(1);
                true
            },
        }
    }

    /// Notes a fold that was committed, and how long it took.
    pub fn folded(&mut self, done: &Compacted, took: u64)
        ensures
            *final(self) == (Tally {
                folds: wrapping(old(self).folds, 1),
                segments: wrapping(old(self).segments, done.folded as u64),
                documents: wrapping(old(self).documents, done.documents as u64),
                took: wrapping(old(self).took, took),
                ..*old(self)
            }),
    {
        self.folds = self.folds.wrapping_add(1);
        self.segments = self.segments.wrapping_add(done.folded as u64);
        self.documents = self.documents.wrapping_add(done.documents as u64);
        self.took = self.took.wrapping_add(took);
    }
}

/// Whether a run picked against a view is still one the store has.
///
/// Between picking the run and taking the store the only thing that can have
/// happened to the manifest is commits, which append at the end and rewrite
/// deletion sets in place, so a run that fitted the view fits the store unless
/// something else folded.
pub fn still_there(end: usize, segments: usize) -> (there: bool)
    ensures
        there == (end <= segments),
{
    end <= segments
}

} // verus!

//! Reading the log back.
//!
//! Recovery reads the log forward from the head the last commit named, a window
//! at a time, and follows the records through it until the first thing that is
//! not the next record. The reads and the decoding of a record are the caller's;
//! what is read next, and when the walk is over, is decided here.
use crate::codec::{get_u32, le_value};
use crate::error::{Error, Result};
use crate::manifest::{Manifest, Superblock};
use vstd::prelude::*;

verus! {

/// How much of the log a recovery reads at a time.
///
/// Big enough that one read covers many records, and small enough to be nothing
/// beside the region.
pub const WINDOW: u64 = 1048576;

/// What a walk of the log found.
#[derive(Debug, Clone, Copy, PartialEq, Eq, Structural)]
pub struct Walked {
    pub records: u64,
    pub bytes: u64,
    pub position: u64,
    pub sequence: u64,
}

impl Default for Walked {
    fn default() -> (walked: Self)
        ensures
            walked == (Walked { records: 0, bytes: 0, position: 0, sequence: 0 }),
    {
        Walked { records: 0, bytes: 0, position: 0, sequence: 0 }
    }
}

/// What a decoded record says of itself.
#[derive(Debug, Clone, Copy, PartialEq, Eq, Structural)]
pub struct Seen {
    /// Whether it only fills the ring up to its end.
    pub pad: bool,
    pub sequence: u64,
    pub payload: u64,
}

/// What the walk does next.
#[derive(Debug, Clone, Copy, PartialEq, Eq, Structural)]
pub enum Aim {
    /// Read `len` bytes of the file at `at`.
    Read { at: u64, len: u64 },
    /// Nothing: the walk is over.
    Done,
}

/// What a look at the window found.
#[derive(Debug, Clone, Copy, PartialEq, Eq, Structural)]
pub enum Look {
    /// A record to decode, from `start` up to `end` of the window.
    Record { start: u64, end: u64 },
    /// Nothing more in this window: aim again.
    Again,
    /// Nothing more at all.
    Done,
}

/// A walk of the log.
#[derive(Debug)]
pub struct Walk {
    ring: u64,
    base: u64,
    stop: u64,
    /// The committed sequence, which is a floor and not a starting point.
    floor: u64,
    /// The fewest bytes a record takes.
    least: u64,
    position: u64,
    expected: Option<u64>,
    window: u64,
    /// How much of the lap the window was read from was left.
    lap: u64,
    want: u64,
    offset: u64,
    over: bool,
    records: u64,
    bytes: u64,
}

/// A walk as far as it has got.
pub struct Place {
    pub ring: int,
    pub base: int,
    pub stop: int,
    pub floor: int,
    pub least: int,
    pub position: int,
    pub expected: Option<u64>,
    pub window: int,
    pub lap: int,
    pub want: int,
    pub offset: int,
    pub over: bool,
    pub records: int,
    pub bytes: int,
}

impl View for Walk {
    type V = Place;

    closed spec fn view(&self) -> Place {
        Place {
            ring: self.ring as int,
            base: self.base as int,
            stop: self.stop as int,
            floor: self.floor as int,
            least: self.least as int,
            position: self.position as int,
            expected: self.expected,
            window: self.window as int,
            lap: self.lap as int,
            want: self.want as int,
            offset: self.offset as int,
            over: self.over,
            records: self.records as int,
            bytes: self.bytes as int,
        }
    }
}

/// Where a walk starts: at the head the manifest names, with nothing found. A store
/// that has no log has nothing to walk.
pub open spec fn start_of(superblock: Superblock, manifest: Manifest, least: u64) -> Place {
    Place {
        ring: superblock.wal_len as int,
        base: superblock.wal_offset as int,
        stop: super::plus(manifest.wal_head as int, superblock.wal_len as int),
        floor: manifest.wal_sequence as int,
        least: least as int,
        position: manifest.wal_head as int,
        expected: None,
        window: WINDOW as int,
        lap: 0,
        want: 0,
        offset: 0,
        over: superblock.wal_len == 0,
        records: 0,
        bytes: 0,
    }
}

/// How much of its lap of the ring is left at a position.
pub open spec fn lap_at(position: int, ring: int) -> int {
    ring - position % ring
}

/// Where a walk reads next: a place too close to the end of the region for a
/// record to start is one where the writer wrapped.
pub open spec fn aimed(place: Place) -> int
    decreases (if place.position < place.stop {
        place.stop - place.position
    } else {
        0
    }),
    when place.ring > 0 && place.position >= 0 && place.stop <= u64::MAX
    via aimed_decreases
{
    if place.position >= place.stop || lap_at(place.position, place.ring) >= place.least {
        place.position
    } else {
        aimed(
            Place {
                position: super::plus(place.position, lap_at(place.position, place.ring)),
                ..place
            },
        )
    }
}

#[via_fn]
proof fn aimed_decreases(place: Place) {
    assert(0 <= place.position % place.ring < place.ring) by {
        vstd::arithmetic::div_mod::lemma_mod_bound(place.position, place.ring);
    }
}

/// The walk over.
pub open spec fn ended(place: Place) -> Place {
    Place { over: true, ..place }
}

/// The walk aimed at the next window.
pub open spec fn aim_of(place: Place) -> Place {
    let position = aimed(place);
    if place.over {
        place
    } else if position >= place.stop {
        ended(Place { position, lap: 0, want: 0, offset: 0, ..place })
    } else {
        let lap = lap_at(position, place.ring);
        Place {
            position,
            lap,
            want: if lap < place.window {
                lap
            } else {
                place.window
            },
            offset: 0,
            ..place
        }
    }
}

/// What there is at the walk's place in a window it read.
pub open spec fn look_of(place: Place, window: Seq<u8>) -> (Place, Look) {
    if place.over {
        (place, Look::Done)
    } else if place.offset + place.least > place.want {
        (place, Look::Again)
    } else {
        let span = le_value(window.skip(place.offset).take(4)) as int;
        if span > place.want - place.offset {
            if span > place.lap - place.offset {
                // A record cannot claim more than the lap it is in.
                (ended(place), Look::Done)
            } else {
                // It runs past the window rather than past the region, so widen
                // the window and read it again from where it starts.
                (
                    Place {
                        window: if span > place.window {
                            span
                        } else {
                            place.window
                        },
                        ..place
                    },
                    Look::Again,
                )
            }
        } else {
            (
                place,
                Look::Record { start: place.offset as u64, end: (place.offset + span) as u64 },
            )
        }
    }
}

/// The walk past a record of `span` bytes, or over where there is no record or
/// it is not the next one.
pub open spec fn seen_of(place: Place, span: int, seen: Option<Seen>) -> (Place, bool) {
    match seen {
        None => (ended(place), false),
        Some(record) => if place.expected is Some && place.expected->0 != record.sequence {
            (ended(place), false)
        } else if place.position + span > u64::MAX {
            // There are no positions past that.
            (ended(place), false)
        } else {
            let on = Place {
                offset: place.offset + span,
                position: place.position + span,
                ..place
            };
            if record.pad {
                (Place { expected: Some(record.sequence), ..on }, false)
            } else {
                (
                    Place {
                        expected: Some(
                            if record.sequence < u64::MAX {
                                (record.sequence + 1) as u64
                            } else {
                                u64::MAX
                            },
                        ),
                        records: on.records + 1,
                        bytes: super::plus(on.bytes, record.payload as int),
                        ..on
                    },
                    true,
                )
            }
        },
    }
}

/// What a walk that is over found.
pub open spec fn walked_of(place: Place) -> Walked {
    Walked {
        records: place.records as u64,
        bytes: place.bytes as u64,
        position: place.position as u64,
        sequence: match place.expected {
            Some(next) => if next as int >= place.floor {
                next
            } else {
                place.floor as u64
            },
            None => place.floor as u64,
        },
    }
}

impl Place {
    /// The walk is inside its lap of the ring, and inside its window where it
    /// has one.
    pub open spec fn ok(self) -> bool {
        &&& 0 < self.least <= self.window
        &&& self.least >= 4
        &&& self.over || 0 < self.ring
        &&& 0 <= self.position
        &&& self.stop <= u64::MAX
        &&& self.base + self.ring <= u64::MAX
        &&& 0 <= self.offset <= self.want <= self.lap <= self.ring
        &&& self.position <= u64::MAX
        &&& 0 <= self.records <= self.position
        &&& self.want <= self.window
        &&& 0 <= self.bytes <= u64::MAX
        &&& 0 <= self.floor <= u64::MAX
    }
}

impl Walk {
    pub closed spec fn wf(&self) -> bool {
        self@.ok()
    }

    /// A walk from the head the manifest names, of a log whose records take at
    /// least `least` bytes.
    pub fn new(superblock: &Superblock, manifest: &Manifest, least: u64) -> (walk: Self)
        requires
            4 <= least <= WINDOW,
            superblock.wal_offset + superblock.wal_len <= u64::MAX,
        ensures
            walk.wf(),
            walk@ == start_of(*superblock, *manifest, least),
    {
        Walk {
            ring: superblock.wal_len,
            base: superblock.wal_offset,
            // One lap and no more. Past that the walk would be reading records
            // it has already read.
            stop: manifest.wal_head.saturating_add(superblock.wal_len),
            floor: manifest.wal_sequence,
            least,
            position: manifest.wal_head,
            expected: None,
            window: WINDOW,
            lap: 0,
            want: 0,
            offset: 0,
            over: superblock.wal_len == 0,
            records: 0,
            bytes: 0,
        }
    }

    /// How far the walk has got, which is where the record it is looking at starts
    /// and, once that is seen, where it ends.
    pub fn position(&self) -> (position: u64)
        requires
            self.wf(),
        ensures
            position == self@.position,
    {
        self.position
    }

    /// Where to read next.
    pub fn aim(&mut self) -> (aim: Aim)
        requires
            old(self).wf(),
        ensures
            final(self).wf(),
            final(self)@ == aim_of(old(self)@),
            aim == if final(self)@.over {
                Aim::Done
            } else {
                Aim::Read {
                    at: (final(self)@.base + final(self)@.position % final(self)@.ring) as u64,
                    len: final(self)@.want as u64,
                }
            },
    {
        if self.over {
            assert(self@ == aim_of(old(self)@));
            return Aim::Done;
        }
        let ghost entry = self@;
        while self.position < self.stop
            invariant
                !self.over,
                entry == old(self)@,
                entry.ok(),
                self@ == (Place { position: self.position as int, ..entry }),
                entry.position <= self.position,
                aimed(self@) == aimed(entry),
            decreases u64::MAX - self.position,
        {
            let physical: u64 = self.position % self.ring;
            let lap: u64 = self.ring - physical;
            proof {
                vstd::arithmetic::div_mod::lemma_mod_bound(
                    self.position as int,
                    self.ring as int,
                );
                assert(lap == lap_at(self.position as int, self.ring as int));
            }
            if lap >= self.least {
                let want: u64 = if lap < self.window {
                    lap
                } else {
                    self.window
                };
                self.lap = lap;
                self.want = want;
                self.offset = 0;
                proof {
                    assert(aimed(entry) == self.position);
                    assert(self@ == aim_of(entry));
                }
                return Aim::Read { at: self.base + physical, len: want };
            }
            // Too close to the end of the region for a record to start, so the
            // writer wrapped here and so does this.
            self.position = self.position.saturating_add(lap);
        }
        self.over = true;
        self.lap = 0;
        self.want = 0;
        self.offset = 0;
        proof {
            assert(aimed(Place { position: self.position as int, ..entry }) == self.position);
            assert(self@ == aim_of(entry));
        }
        Aim::Done
    }

    /// The window could not be read, and says whether the walk is over for it.
    ///
    /// Where the bytes ended it is, rather than failing: a file shorter than the
    /// region it claims is the same fact as a torn record. A read that failed for
    /// any other reason says nothing of the log, so the walk is left where it was
    /// and the failure is the caller's to report.
    pub fn unread(&mut self, bytes_ended: bool) -> (over: bool)
        requires
            old(self).wf(),
        ensures
            final(self).wf(),
            over == bytes_ended,
            final(self)@ == if bytes_ended {
                ended(old(self)@)
            } else {
                old(self)@
            },
    {
        if bytes_ended {
            self.over = true;
        }
        bytes_ended
    }

    /// Looks at the place the walk has reached in the window it read.
    pub fn look(&mut self, window: &[u8]) -> (look: Result<Look>)
        requires
            old(self).wf(),
            window@.len() == old(self)@.want,
        ensures
            final(self).wf(),
            look == Ok::<Look, Error>(look_of(old(self)@, window@).1),
            final(self)@ == look_of(old(self)@, window@).0,
            look matches Ok(Look::Record { start, end }) ==> start <= end <= window@.len(),
    {
        if self.over {
            return Ok(Look::Done);
        }
        if self.want - self.offset < self.least {
            return Ok(Look::Again);
        }
        let rest = vstd::slice::slice_subrange(window, self.offset as usize, window.len());
        assert(rest@ =~= window@.skip(self.offset as int));
        let span: u64 = match get_u32(rest) {
            Ok((span, _)) => span as u64,
            Err(error) => {
                return Err(error);
            },
        };
        if span > self.want - self.offset {
            if span > self.lap - self.offset {
                self.over = true;
                return Ok(Look::Done);
            }
            if span > self.window {
                self.window = span;
            }
            return Ok(Look::Again);
        }
        Ok(Look::Record { start: self.offset, end: self.offset + span })
    }

    /// Takes what the record of `span` bytes at the walk's place decoded to, or
    /// that it did not, and says whether it is one to apply.
    pub fn seen(&mut self, span: u64, seen: Option<Seen>) -> (apply: bool)
        requires
            old(self).wf(),
            old(self)@.offset + span <= old(self)@.want,
            seen is Some ==> span > 0,
        ensures
            final(self).wf(),
            final(self)@ == seen_of(old(self)@, span as int, seen).0,
            apply == seen_of(old(self)@, span as int, seen).1,
    {
        match seen {
            None => {
                self.over = true;
                false
            },
            Some(record) => {
                match self.expected {
                    Some(expected) => {
                        if record.sequence != expected {
                            self.over = true;
                            return false;
                        }
                    },
                    None => {},
                }
                if span > u64::MAX - self.position {
                    self.over = true;
                    return false;
                }
                self.offset = self.offset + span;
                self.position = self.position + span;
                if record.pad {
                    self.expected = Some(record.sequence);
                    return false;
                }
                self.expected = Some(record.sequence.saturating_add(1));
                self.records = self.records + 1;
                self.bytes = self.bytes.saturating_add(record.payload);
                true
            },
        }
    }

    /// What the walk found.
    pub fn finish(&self) -> (walked: Walked)
        requires
            self.wf(),
        ensures
            walked == walked_of(self@),
    {
        let next: u64 = match self.expected {
            Some(next) => next,
            None => self.floor,
        };
        // A replay that ended early because a record was torn would otherwise
        // hand out numbers the ring has already seen.
        let sequence: u64 = if next >= self.floor {
            next
        } else {
            self.floor
        };
        Walked { records: self.records, bytes: self.bytes, position: self.position, sequence }
    }
}

/// The sequence a walk hands on is never below the committed one.
pub proof fn law_sequence_never_goes_back(place: Place)
    requires
        place.ok(),
    ensures
        walked_of(place).sequence >= place.floor,
{
}

/// A walk applies a record only where it follows the one before, so a record of
/// an earlier lap is never applied.
pub proof fn law_records_are_consecutive(place: Place, span: int, seen: Seen)
    requires
        place.ok(),
        place.expected is Some,
        seen_of(place, span, Some(seen)).1,
    ensures
        seen.sequence == place.expected->0,
        seen_of(place, span, Some(seen)).0.position == place.position + span,
{
}

/// Every record that follows is applied. A record that is no pad, and that is the first
/// or has the number that follows the last, is handed on, however many came before it;
/// a pad that follows is passed over; and either way the walk goes on behind it. Only a
/// record that does not follow, one that does not decode, or one that would end past
/// the last position there is, ends the walk.
pub proof fn law_a_record_that_follows_is_applied(place: Place, span: int, seen: Option<Seen>)
    ensures
        ({
            let (next, apply) = seen_of(place, span, seen);
            let follows = seen matches Some(record) && (place.expected matches Some(expected)
                ==> expected == record.sequence) && place.position + span <= u64::MAX;
            &&& apply <==> follows && !seen->0.pad
            &&& follows ==> {
                &&& next.position == place.position + span
                &&& next.offset == place.offset + span
                &&& next.over == place.over
                &&& next.window == place.window && next.want == place.want && next.lap == place.lap
                &&& seen->0.pad ==> next.expected == Some(seen->0.sequence) && next.records
                    == place.records && next.bytes == place.bytes
                &&& !seen->0.pad ==> {
                    &&& next.records == place.records + 1
                    &&& seen->0.sequence < u64::MAX ==> next.expected == Some(
                        (seen->0.sequence + 1) as u64,
                    )
                    &&& place.bytes + seen->0.payload <= u64::MAX ==> next.bytes == place.bytes
                        + seen->0.payload
                }
            }
            &&& !follows ==> next == (Place { over: true, ..place })
        }),
{
}

/// One step of a walk.
pub enum Step {
    /// It was aimed.
    Aimed,
    /// It looked at a window.
    Looked(Seq<u8>),
    /// It was told what a record of so many bytes decoded to.
    Told(int, Option<Seen>),
    /// A window could not be read because the bytes ended.
    Unread,
}

/// Where a step takes a walk.
pub open spec fn stepped(place: Place, step: Step) -> Place {
    match step {
        Step::Aimed => aim_of(place),
        Step::Looked(window) => look_of(place, window).0,
        Step::Told(span, seen) => seen_of(place, span, seen).0,
        Step::Unread => ended(place),
    }
}

/// Where the first `n` steps take a walk.
pub open spec fn walked_to(place: Place, steps: Seq<Step>, n: int) -> Place
    decreases n,
{
    if n <= 0 {
        place
    } else {
        stepped(walked_to(place, steps, n - 1), steps[n - 1])
    }
}

/// The records the first `n` steps of a walk say are to be applied, in order.
pub open spec fn applied(place: Place, steps: Seq<Step>, n: int) -> Seq<Seen>
    decreases n,
{
    if n <= 0 {
        Seq::empty()
    } else {
        let had = applied(place, steps, n - 1);
        match steps[n - 1] {
            Step::Told(span, Some(seen)) => if seen_of(
                walked_to(place, steps, n - 1),
                span,
                Some(seen),
            ).1 {
                had.push(seen)
            } else {
                had
            },
            _ => had,
        }
    }
}

/// What the payloads of some records come to, as far as the count goes.
pub open spec fn held_by(records: Seq<Seen>) -> int
    decreases records.len(),
{
    if records.len() == 0 {
        0
    } else {
        super::plus(held_by(records.drop_last()), records.last().payload as int)
    }
}

/// A whole walk counts the records it applies and what they hold, each of them
/// follows the one before it, and the sequence it hands on follows the last.
pub proof fn law_a_walk_finds_what_it_applies(place: Place, steps: Seq<Step>, n: int)
    requires
        place.expected is None,
        place.records == 0,
        place.bytes == 0,
        0 <= n <= steps.len(),
    ensures
        ({
            let records = applied(place, steps, n);
            let end = walked_to(place, steps, n);
            &&& end.records == records.len()
            &&& end.bytes == held_by(records)
            &&& end.floor == place.floor
            &&& forall|i: int|
                0 < i < records.len() ==> (#[trigger] records[i]).sequence == next_after(
                    records[i - 1].sequence,
                )
            &&& records.len() > 0 ==> end.expected == Some(next_after(records.last().sequence))
        }),
    decreases n,
{
    if n > 0 {
        law_a_walk_finds_what_it_applies(place, steps, n - 1);
        let had = applied(place, steps, n - 1);
        let records = applied(place, steps, n);
        if let Step::Told(span, Some(seen)) = steps[n - 1] {
            if seen_of(walked_to(place, steps, n - 1), span, Some(seen)).1 {
                assert(records.drop_last() =~= had);
                assert forall|i: int| 0 < i < records.len() implies (
                #[trigger] records[i]).sequence == next_after(records[i - 1].sequence) by {
                    if i < had.len() {
                        assert(had[i].sequence == next_after(had[i - 1].sequence));
                    }
                }
            }
        }
    }
}

/// The sequence of the record after one.
pub open spec fn next_after(sequence: u64) -> u64 {
    if sequence < u64::MAX {
        (sequence + 1) as u64
    } else {
        u64::MAX
    }
}

/// Every step of a walk ends it, moves it on or widens its window, so that a walk
/// ends.
pub proof fn law_walk_makes_progress(place: Place, window: Seq<u8>)
    requires
        place.ok(),
        place.offset == 0,
        place.want >= place.least,
        place.want == if place.lap < place.window {
            place.lap
        } else {
            place.window
        },
        look_of(place, window).1 == Look::Again,
    ensures
        look_of(place, window).0.window > place.window,
{
}

} // verus!

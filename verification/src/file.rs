//! The rules of a store file: what a commit may name, where bytes go, and how
//! the log is read back.
//!
//! A commit writes the whole manifest into whichever slot is not live and then
//! syncs, and that sync is the commit point. Segments and sets of deletions are
//! on the medium before the manifest that names them, never in place. What is
//! here decides what is written where and what the store then says; moving the
//! bytes is the caller's part.
use crate::bitmap::format::encoded;
use crate::bitmap::{first_gap, lemma_first_gap, Bitmap};
use crate::compact::Moved;
use crate::durability::Reach;
use crate::error::{Error, Result};
use crate::file::walk::Walked;
use crate::manifest::{blank, next_page, page_up, Manifest, Segment, Slot, Superblock};
use publish::set_end;
use vstd::prelude::*;

pub mod answers;
pub mod commits;
pub mod laws;
pub mod locate;
pub mod lookups;
pub mod publish;
pub mod reading;
pub mod rewalk;
pub mod view;
pub mod walk;
pub mod whole;

verus! {

/// Where the log of a store has got to.
#[derive(Debug, Clone, Copy, PartialEq, Eq, Structural)]
pub struct Log {
    pub head: u64,
    pub tail: u64,
    pub sequence: u64,
}

impl Log {
    /// A log that has been consumed up to `head` and written up to `tail`, in a
    /// ring of `len` bytes.
    ///
    /// Reports [`Error::BadPositions`] if the tail is behind the head or there is
    /// more between them than the ring holds.
    pub fn new(len: u64, head: u64, tail: u64, sequence: u64) -> (log: Result<Log>)
        ensures
            if head <= tail && tail - head <= len {
                log matches Ok(l) && l == (Log { head, tail, sequence })
            } else {
                log matches Err(e) && e == (Error::BadPositions { head, tail })
            },
    {
        if tail < head || tail - head > len {
            return Err(Error::BadPositions { head, tail });
        }
        Ok(Log { head, tail, sequence })
    }

    /// Whether there is nothing in it that has not been consumed.
    pub fn is_empty(&self) -> (empty: bool)
        ensures
            empty == (self.head == self.tail),
    {
        self.head == self.tail
    }
}

/// A fold of segments into one, kept so that a batch prepared before it can be
/// moved along with the documents it names.
#[derive(Debug)]
pub struct Fold {
    /// The first segment folded.
    pub start: usize,
    /// One past the last segment folded.
    pub end: usize,
    /// Where the merged segment is, or nothing if no document survived.
    pub into: Option<usize>,
    /// Where the documents went.
    pub moved: Moved,
    /// The layout of each prefix of the segments before the fold.
    pub prefixes: Vec<u64>,
}

impl Fold {
    /// How many segments fewer there are for it.
    pub fn shrank(&self) -> (n: usize)
        requires
            self.start < self.end,
        ensures
            n == self.end - self.start - if self.into is Some {
                1int
            } else {
                0int
            },
    {
        self.end - self.start - if self.into.is_some() {
            1
        } else {
            0
        }
    }

    /// Whether a batch prepared over the first `base` segments, of that layout,
    /// is one this fold can move along.
    pub fn covers(&self, base: usize, layout: u64) -> (yes: bool)
        ensures
            yes == (base < self.prefixes@.len() && self.prefixes@[base as int] == layout),
    {
        base < self.prefixes.len() && self.prefixes[base] == layout
    }
}

/// A number of a file as a length, for an error that reports both.
pub fn as_usize(value: u64) -> (length: usize)
    ensures
        length == clamped(value as nat),
{
    if value > usize::MAX as u64 {
        usize::MAX
    } else {
        value as usize
    }
}

/// A number as a length, or the largest there is.
pub open spec fn clamped(value: nat) -> nat {
    if value > usize::MAX {
        usize::MAX as nat
    } else {
        value
    }
}

pub open spec fn plus(a: int, b: int) -> int {
    if a + b > u64::MAX {
        u64::MAX as int
    } else {
        a + b
    }
}

pub open spec fn minus(a: int, b: int) -> int {
    if a < b {
        0
    } else {
        a - b
    }
}

pub open spec fn larger(a: int, b: int) -> int {
    if a >= b {
        a
    } else {
        b
    }
}

/// The end of everything the first `n` segments name.
pub open spec fn highest(superblock: Superblock, segments: Seq<Segment>, n: int) -> int
    decreases n,
{
    if n <= 0 {
        superblock.segments_offset as int
    } else {
        let s = segments[n - 1];
        larger(
            larger(
                highest(superblock, segments, n - 1),
                plus(s.offset as int, s.len as int),
            ),
            plus(s.tombstones_offset as int, s.tombstones_len as int),
        )
    }
}

/// Where the next segment may go: the first page past everything the manifest
/// names.
pub fn end_of(superblock: &Superblock, manifest: &Manifest) -> (end: u64)
    requires
        next_page(
            highest(*superblock, manifest.segments@, manifest.segments@.len() as int),
        ) <= u64::MAX,
    ensures
        end == next_page(
            highest(*superblock, manifest.segments@, manifest.segments@.len() as int),
        ),
{
    let mut end: u64 = superblock.segments_offset;
    let mut i: usize = 0;
    while i < manifest.segments.len()
        invariant
            i <= manifest.segments@.len(),
            end == highest(*superblock, manifest.segments@, i as int),
        decreases manifest.segments.len() - i,
    {
        let segment = manifest.segments[i];
        let body: u64 = segment.offset.saturating_add(segment.len);
        let marks: u64 = segment.tombstones_offset.saturating_add(segment.tombstones_len as u64);
        if body > end {
            end = body;
        }
        if marks > end {
            end = marks;
        }
        i = i + 1;
    }
    page_up(end)
}

/// The committed segment that is the same one: at the same place and ending in
/// the same footer.
pub open spec fn committed_as(committed: Seq<Segment>, segment: Segment) -> Option<Segment>
    decreases committed.len(),
{
    if committed.len() == 0 {
        None
    } else if committed[0].offset == segment.offset && committed[0].footer == segment.footer {
        Some(committed[0])
    } else {
        committed_as(committed.skip(1), segment)
    }
}

/// The first segment that goes back to older deletions than are committed.
pub open spec fn first_stale(committed: Seq<Segment>, next: Seq<Segment>) -> Option<Error>
    decreases next.len(),
{
    if next.len() == 0 {
        None
    } else {
        match committed_as(committed, next[0]) {
            Some(was) => if next[0].generation < was.generation {
                Some(
                    Error::StaleGeneration {
                        offset: next[0].offset,
                        committed: was.generation,
                        given: next[0].generation,
                    },
                )
            } else {
                first_stale(committed, next.skip(1))
            },
            None => first_stale(committed, next.skip(1)),
        }
    }
}

fn find_committed(committed: &Vec<Segment>, segment: &Segment) -> (found: Option<Segment>)
    ensures
        found == committed_as(committed@, *segment),
{
    let mut i: usize = 0;
    assert(committed@.skip(0) =~= committed@);
    while i < committed.len()
        invariant
            i <= committed@.len(),
            committed_as(committed@, *segment) == committed_as(committed@.skip(i as int), *segment),
        decreases committed.len() - i,
    {
        assert(committed@.skip(i as int)[0] == committed@[i as int]);
        assert(committed@.skip(i as int).skip(1) =~= committed@.skip(i + 1));
        let old = committed[i];
        if old.offset == segment.offset && old.footer == segment.footer {
            return Some(old);
        }
        i = i + 1;
    }
    None
}

/// Checks that a commit names no older set of deletions for a segment than the
/// committed one.
///
/// Deletions only ever accumulate until a compaction rewrites the segment, so a
/// generation that goes backwards means two writers are working from different
/// ideas of what is deleted.
pub fn deletions_only_accumulate(committed: &Manifest, next: &Manifest) -> (checked: Result<()>)
    ensures
        match first_stale(committed.segments@, next.segments@) {
            Some(error) => checked matches Err(e) && e == error,
            None => checked is Ok,
        },
{
    let mut i: usize = 0;
    assert(next.segments@.skip(0) =~= next.segments@);
    while i < next.segments.len()
        invariant
            i <= next.segments@.len(),
            first_stale(committed.segments@, next.segments@) == first_stale(
                committed.segments@,
                next.segments@.skip(i as int),
            ),
        decreases next.segments.len() - i,
    {
        let segment = next.segments[i];
        assert(next.segments@.skip(i as int)[0] == segment);
        assert(next.segments@.skip(i as int).skip(1) =~= next.segments@.skip(i + 1));
        match find_committed(&committed.segments, &segment) {
            Some(was) => {
                if segment.generation < was.generation {
                    return Err(
                        Error::StaleGeneration {
                            offset: segment.offset,
                            committed: was.generation,
                            given: segment.generation,
                        },
                    );
                }
            },
            None => {},
        }
        i = i + 1;
    }
    Ok(())
}

/// The smallest document a set of deletions does not hold.
pub open spec fn first_absent_of(deleted: Set<u32>) -> u32 {
    choose|absent: u32| first_gap(deleted, absent)
}

/// A segment with a set of deletions beside it, written at `offset`.
pub open spec fn hiding(segment: Segment, deleted: Set<u32>, offset: u64) -> Segment {
    let generation = if segment.generation < u32::MAX {
        (segment.generation + 1) as u32
    } else {
        u32::MAX
    };
    if deleted == Set::<u32>::empty() {
        Segment {
            generation,
            tombstones_offset: 0,
            tombstones_len: 0,
            first_live: 0,
            ..segment
        }
    } else {
        Segment {
            generation,
            tombstones_offset: offset,
            tombstones_len: encoded(deleted).len() as u32,
            first_live: if first_absent_of(deleted) < segment.docs {
                first_absent_of(deleted)
            } else {
                segment.docs
            },
            ..segment
        }
    }
}

/// The largest document of a set of deletions, where the segment does not have
/// it.
pub open spec fn strays(deleted: Set<u32>, docs: u32) -> bool {
    exists|d: u32| #[trigger] deleted.contains(d) && d >= docs
}

/// A set of deletions to be written, and the segment as it is then described.
#[derive(Debug)]
pub struct Tombstones {
    pub segment: Segment,
    /// The bytes to write at the segment's `tombstones_offset`; none for an
    /// empty set.
    pub bytes: Vec<u8>,
    /// Where the next append goes once they are written.
    pub end: u64,
}

/// The bytes of the largest set fit where they are counted.
pub(crate) proof fn lemma_encoded_fits(s: Set<u32>)
    ensures
        encoded(s).len() <= 0x4000_0000,
{
    crate::bitmap::format::lemma_encoded_len(s);
    let ks = crate::bitmap::format::keys_of(s);
    crate::bitmap::format::lemma_body_len(s, ks);
    crate::count::lemma_listing(
        |key: int| crate::bitmap::store::members(crate::bitmap::format::chunk_set(s, key)) > 0,
        65536,
    );
    crate::bitmap::list::lemma_list_count(ks);
}

/// What a store has committed, and where its next bytes go.
#[derive(Debug)]
pub struct Store {
    pub superblock: Superblock,
    pub manifest: Manifest,
    pub slot: Slot,
    pub log: Log,
    /// Where the next segment or set of deletions goes.
    pub segments: u64,
    pub durability: Reach,
    pub folded: Option<Fold>,
}

/// The manifest a commit of `manifest` writes: what it names, one epoch on, with
/// the log where the store has it.
pub open spec fn follows(store: Store, manifest: Manifest, written: u64, next: Manifest) -> bool {
    &&& next.segments@ == manifest.segments@
    &&& next.live == manifest.live
    &&& next.total == manifest.total
    &&& next.terms == manifest.terms
    &&& next.epoch == plus(store.manifest.epoch as int, 1)
    &&& next.written == written
    &&& next.wal_head == store.log.head
    &&& next.wal_tail == store.log.tail
    &&& next.wal_sequence == store.log.sequence
}

impl Store {
    /// A new store with nothing in it, over the regions a superblock lays out.
    ///
    /// Its first manifest is in slot A, and the next append goes at the first page
    /// of the segment region.
    pub fn create(superblock: Superblock, created: u64) -> (store: Store)
        requires
            next_page(superblock.segments_offset as int) <= u64::MAX,
        ensures
            store.superblock == superblock,
            store.manifest.segments@ == Seq::<Segment>::empty(),
            store.manifest.epoch == 1,
            store.manifest.written == created,
            store.manifest.wal_head == 0,
            store.manifest.wal_tail == 0,
            store.manifest.wal_sequence == 1,
            store.manifest.live == 0,
            store.manifest.total == 0,
            store.manifest.terms == 0,
            store.slot == Slot::A,
            store.log == (Log { head: 0, tail: 0, sequence: 1 }),
            store.segments == next_page(superblock.segments_offset as int),
            store.durability == Reach::Platter,
            store.folded is None,
    {
        let manifest = Manifest::empty(created);
        let segments: u64 = end_of(&superblock, &manifest);
        Store {
            superblock,
            manifest,
            slot: Slot::A,
            log: Log { head: 0, tail: 0, sequence: 1 },
            segments,
            durability: Reach::Platter,
            folded: None,
        }
    }

    /// The store that a superblock and its committed manifest describe, in a
    /// file of `len` bytes.
    ///
    /// Reports [`Error::Truncated`] if the file is shorter than its regions, and
    /// [`Error::BadPositions`] if the log positions of the manifest do not fit the
    /// log.
    pub fn open(superblock: Superblock, manifest: Manifest, slot: Slot, len: u64) -> (store: Result<
        Store,
    >)
        requires
            next_page(
                highest(superblock, manifest.segments@, manifest.segments@.len() as int),
            ) <= u64::MAX,
        ensures
            if len < superblock.segments_offset {
                store matches Err(Error::Truncated { needed, available }) && needed == clamped(
                    superblock.segments_offset as nat,
                ) && available == clamped(len as nat)
            } else if !(manifest.wal_head <= manifest.wal_tail && manifest.wal_tail
                - manifest.wal_head <= superblock.wal_len) {
                store matches Err(e) && e == (Error::BadPositions {
                    head: manifest.wal_head,
                    tail: manifest.wal_tail,
                })
            } else {
                &&& store matches Ok(s)
                &&& s.superblock == superblock
                &&& s.manifest == manifest
                &&& s.slot == slot
                &&& s.log == (Log {
                    head: manifest.wal_head,
                    tail: manifest.wal_tail,
                    sequence: manifest.wal_sequence,
                })
                &&& s.segments == next_page(
                    highest(superblock, manifest.segments@, manifest.segments@.len() as int),
                )
                &&& s.durability == Reach::Platter
                &&& s.folded is None
            },
    {
        if len < superblock.segments_offset {
            return Err(
                Error::Truncated {
                    needed: as_usize(superblock.segments_offset),
                    available: as_usize(len),
                },
            );
        }
        let log = match Log::new(
            superblock.wal_len,
            manifest.wal_head,
            manifest.wal_tail,
            manifest.wal_sequence,
        ) {
            Ok(log) => log,
            Err(error) => {
                return Err(error);
            },
        };
        let segments: u64 = end_of(&superblock, &manifest);
        Ok(
            Store {
                superblock,
                manifest,
                slot,
                log,
                segments,
                durability: Reach::Platter,
                folded: None,
            },
        )
    }

    /// Where the regions of the store are.
    pub fn superblock(&self) -> (superblock: &Superblock)
        ensures
            *superblock == self.superblock,
    {
        &self.superblock
    }

    /// The committed state.
    pub fn manifest(&self) -> (manifest: &Manifest)
        ensures
            *manifest == self.manifest,
    {
        &self.manifest
    }

    /// Which slot the committed state is in.
    pub fn slot(&self) -> (slot: Slot)
        ensures
            slot == self.slot,
    {
        self.slot
    }

    /// Where the log has got to.
    pub fn log(&self) -> (log: &Log)
        ensures
            *log == self.log,
    {
        &self.log
    }

    /// How far a write has to get before a sync of it returns.
    pub fn durability(&self) -> (reach: Reach)
        ensures
            reach == self.durability,
    {
        self.durability
    }

    /// Sets how far a write has to get before a sync of it returns.
    pub fn set_durability(&mut self, reach: Reach)
        ensures
            *final(self) == (Store { durability: reach, ..*old(self) }),
    {
        self.durability = reach;
    }

    /// Where the next segment or set of deletions goes.
    pub fn segments_end(&self) -> (end: u64)
        ensures
            end == self.segments,
    {
        self.segments
    }

    /// The fold the store did last, until it is forgotten.
    pub fn folded(&self) -> (fold: Option<&Fold>)
        ensures
            match self.folded {
                Some(f) => fold matches Some(kept) && *kept == f,
                None => fold is None,
            },
    {
        self.folded.as_ref()
    }

    /// Positions the log at the end of what a walk of it found, so that the next
    /// append carries on from there.
    pub fn recovered(&mut self, walked: &Walked) -> (positioned: Result<()>)
        ensures
            ({
                let head = old(self).manifest.wal_head;
                let tail = walked.position;
                if head <= tail && tail - head <= old(self).superblock.wal_len {
                    &&& positioned is Ok
                    &&& *final(self) == (Store {
                        log: Log { head, tail, sequence: walked.sequence },
                        ..*old(self)
                    })
                } else {
                    &&& positioned matches Err(e) && e == (Error::BadPositions { head, tail })
                    &&& *final(self) == *old(self)
                }
            }),
    {
        match Log::new(
            self.superblock.wal_len,
            self.manifest.wal_head,
            walked.position,
            walked.sequence,
        ) {
            Ok(log) => {
                self.log = log;
                Ok(())
            },
            Err(error) => Err(error),
        }
    }

    /// Frees the log up to `through`.
    ///
    /// Nothing is written here: the head moves in memory and reaches the file
    /// with the next commit, which is the right order, because a head that ran
    /// ahead of the commit would free records the store still needs.
    ///
    /// Reports [`Error::BadPositions`] if the position is behind the head or past
    /// the tail.
    pub fn truncate_log(&mut self, through: u64) -> (freed: Result<()>)
        ensures
            if old(self).log.head <= through <= old(self).log.tail {
                &&& freed is Ok
                &&& *final(self) == (Store {
                    log: Log { head: through, ..old(self).log },
                    ..*old(self)
                })
            } else {
                &&& freed matches Err(e) && e == (Error::BadPositions {
                    head: through,
                    tail: old(self).log.tail,
                })
                &&& *final(self) == *old(self)
            },
    {
        if through < self.log.head || self.log.tail < through {
            return Err(Error::BadPositions { head: through, tail: self.log.tail });
        }
        self.log = Log { head: through, tail: self.log.tail, sequence: self.log.sequence };
        Ok(())
    }

    /// The manifest a commit writes, into the slot that is not live.
    ///
    /// Nothing is committed until the bytes are down; [`Store::committed`] then
    /// makes it the state of the store.
    pub fn commit(&self, manifest: Manifest, written: u64) -> (next: Result<Manifest>)
        ensures
            match first_stale(self.manifest.segments@, manifest.segments@) {
                Some(error) => next matches Err(e) && e == error,
                None => next matches Ok(m) && follows(*self, manifest, written, m),
            },
    {
        match deletions_only_accumulate(&self.manifest, &manifest) {
            Ok(()) => {},
            Err(error) => {
                return Err(error);
            },
        }
        Ok(
            Manifest {
                segments: manifest.segments,
                epoch: self.manifest.epoch.saturating_add(1),
                written,
                wal_head: self.log.head,
                wal_tail: self.log.tail,
                wal_sequence: self.log.sequence,
                live: manifest.live,
                total: manifest.total,
                terms: manifest.terms,
            },
        )
    }

    /// Makes a manifest whose bytes are down the committed one, and gives its
    /// epoch.
    pub fn committed(&mut self, manifest: Manifest) -> (epoch: u64)
        ensures
            epoch == manifest.epoch,
            *final(self) == (Store { manifest, slot: old(self).slot.opposite(), ..*old(self) }),
    {
        let epoch: u64 = manifest.epoch;
        self.manifest = manifest;
        self.slot = self.slot.other();
        epoch
    }

    /// Describes a segment whose `len` bytes are down at the end of the region,
    /// and moves the end past it.
    ///
    /// Only after the bytes are down. A cursor that moved first and then failed
    /// to write would leave a gap that reads as a segment nobody wrote.
    pub fn write_segment(&mut self, docs: u32, len: u64, created: u64) -> (segment: Segment)
        requires
            next_page(old(self).segments + len) <= u64::MAX,
        ensures
            segment == (Segment { offset: old(self).segments, len, docs, created, ..blank() }),
            *final(self) == (Store {
                segments: next_page(old(self).segments + len) as u64,
                ..*old(self)
            }),
    {
        let offset: u64 = self.segments;
        self.segments = page_up(offset + len);
        Segment { offset, len, docs, created, ..Segment::default() }
    }

    /// The set of deletions to write beside a segment, at the end of the region,
    /// with the end moved past it.
    ///
    /// Nothing is overwritten: a newer set is written somewhere else and the
    /// manifest is pointed at it, so a view that is already out goes on reading
    /// the one it was made with.
    ///
    /// Reports [`Error::NoSuchDocument`] if the set names a document the segment
    /// does not have.
    pub fn append_tombstones(&mut self, segment: &Segment, deleted: &Bitmap) -> (written: Result<
        Tombstones,
    >)
        requires
            set_end(old(self).segments as int, deleted@) <= u64::MAX,
        ensures
            if strays(deleted@, segment.docs) {
                &&& written matches Err(Error::NoSuchDocument { doc, documents })
                &&& documents == segment.docs
                &&& deleted@.contains(doc)
                &&& forall|d: u32| #[trigger] deleted@.contains(d) ==> d <= doc
                &&& *final(self) == *old(self)
            } else {
                &&& written matches Ok(t)
                &&& t.segment == hiding(*segment, deleted@, old(self).segments)
                &&& t.bytes@ == if deleted@ == Set::<u32>::empty() {
                    Seq::<u8>::empty()
                } else {
                    encoded(deleted@)
                }
                &&& t.end == set_end(old(self).segments as int, deleted@)
                &&& *final(self) == (Store { segments: t.end, ..*old(self) })
            },
    {
        let written = write_tombstones(segment, deleted, self.segments)?;
        self.segments = written.end;
        Ok(written)
    }
}

/// The set of deletions to write beside a segment, at `offset`, and the segment
/// as it is described once it is written.
///
/// Reports [`Error::NoSuchDocument`] if the set names a document the segment
/// does not have.
pub fn write_tombstones(segment: &Segment, deleted: &Bitmap, offset: u64) -> (written: Result<
    Tombstones,
>)
    requires
        set_end(offset as int, deleted@) <= u64::MAX,
    ensures
        if strays(deleted@, segment.docs) {
            &&& written matches Err(Error::NoSuchDocument { doc, documents })
            &&& documents == segment.docs
            &&& deleted@.contains(doc)
            &&& forall|d: u32| #[trigger] deleted@.contains(d) ==> d <= doc
        } else {
            &&& written matches Ok(t)
            &&& t.segment == hiding(*segment, deleted@, offset)
            &&& t.bytes@ == if deleted@ == Set::<u32>::empty() {
                Seq::<u8>::empty()
            } else {
                encoded(deleted@)
            }
            &&& t.end == set_end(offset as int, deleted@)
        },
{
    match deleted.max() {
        Some(doc) => {
            if doc >= segment.docs {
                assert(deleted@.contains(doc));
                return Err(Error::NoSuchDocument { doc, documents: segment.docs });
            }
        },
        None => {},
    }
    let mut next = *segment;
    next.generation = segment.generation.saturating_add(1);
    let mut bytes: Vec<u8> = Vec::new();
    if deleted.is_empty() {
        next.tombstones_offset = 0;
        next.tombstones_len = 0;
        next.first_live = 0;
        return Ok(Tombstones { segment: next, bytes, end: offset });
    }
    proof {
        lemma_encoded_fits(deleted@);
    }
    deleted.write_to(&mut bytes);
    assert(bytes@ =~= encoded(deleted@));
    let len: u64 = bytes.len() as u64;
    let absent: u32 = deleted.first_absent();
    proof {
        let chosen = first_absent_of(deleted@);
        lemma_first_gap(deleted@, absent, chosen);
    }
    next.tombstones_offset = offset;
    next.tombstones_len = bytes.len() as u32;
    next.first_live = if absent < segment.docs {
        absent
    } else {
        segment.docs
    };
    Ok(Tombstones { segment: next, bytes, end: page_up(offset + len) })
}

/// How many documents the committed deletions of a segment hide: none where it
/// has no set, and otherwise what the set's bytes hold.
pub fn committed_deletions(segment: &Segment, bytes: &[u8]) -> (hidden: Result<u64>)
    ensures
        if segment.tombstones_offset == 0 || segment.tombstones_len == 0 {
            hidden == Ok::<u64, Error>(0)
        } else {
            match crate::bitmap::format::decoded(bytes@) {
                Ok(set) => hidden matches Ok(n) && n == set.len(),
                Err(error) => hidden matches Err(e) && e == error,
            }
        },
{
    if segment.tombstones_offset == 0 || segment.tombstones_len == 0 {
        return Ok(0);
    }
    match Bitmap::read(bytes) {
        Ok(set) => Ok(set.count()),
        Err(error) => Err(error),
    }
}

} // verus!

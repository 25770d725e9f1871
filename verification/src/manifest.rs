//! What a store says about itself: where its regions are, and which segments the
//! committed state is made of.
use vstd::prelude::*;

verus! {

/// The unit a store is laid out in.
pub const PAGE: u32 = 4096;

/// Where the regions of a store are.
#[derive(Debug, Clone, Copy, PartialEq, Eq, Structural)]
pub struct Superblock {
    /// Which store it is.
    pub store: u128,
    pub created: u64,
    pub wal_offset: u64,
    pub wal_len: u64,
    pub segments_offset: u64,
}

/// One segment of a store, and the deletions beside it.
#[derive(Debug, Clone, Copy, PartialEq, Eq, Structural)]
pub struct Segment {
    pub offset: u64,
    pub len: u64,
    pub docs: u32,
    pub created: u64,
    pub generation: u32,
    pub tombstones_offset: u64,
    pub tombstones_len: u32,
    pub first_live: u32,
    pub level: u32,
    pub footer: u64,
}

impl Default for Segment {
    fn default() -> (segment: Self)
        ensures
            segment == blank(),
    {
        Segment {
            offset: 0,
            len: 0,
            docs: 0,
            created: 0,
            generation: 0,
            tombstones_offset: 0,
            tombstones_len: 0,
            first_live: 0,
            level: 0,
            footer: 0,
        }
    }
}

/// A segment of which nothing is said yet.
pub open spec fn blank() -> Segment {
    Segment {
        offset: 0,
        len: 0,
        docs: 0,
        created: 0,
        generation: 0,
        tombstones_offset: 0,
        tombstones_len: 0,
        first_live: 0,
        level: 0,
        footer: 0,
    }
}

/// The committed state of a store.
#[derive(Debug)]
pub struct Manifest {
    /// Oldest first.
    pub segments: Vec<Segment>,
    pub epoch: u64,
    pub written: u64,
    pub wal_head: u64,
    pub wal_tail: u64,
    pub wal_sequence: u64,
    /// How many documents are not deleted.
    pub live: u64,
    /// How many documents the segments hold.
    pub total: u64,
    /// How many terms they hold, as whoever commits counts them.
    pub terms: u64,
}

impl Manifest {
    /// The first manifest of a store: it names nothing, and its log is empty.
    pub fn empty(created: u64) -> (manifest: Manifest)
        ensures
            manifest.segments@ == Seq::<Segment>::empty(),
            manifest.epoch == 1,
            manifest.written == created,
            manifest.wal_head == 0,
            manifest.wal_tail == 0,
            manifest.wal_sequence == 1,
            manifest.live == 0,
            manifest.total == 0,
            manifest.terms == 0,
    {
        Manifest {
            segments: Vec::new(),
            epoch: 1,
            written: created,
            wal_head: 0,
            wal_tail: 0,
            wal_sequence: 1,
            live: 0,
            total: 0,
            terms: 0,
        }
    }

    /// Whether two manifests say the same.
    pub open spec fn same(&self, other: &Manifest) -> bool {
        &&& self.segments@ == other.segments@
        &&& self.epoch == other.epoch
        &&& self.written == other.written
        &&& self.wal_head == other.wal_head
        &&& self.wal_tail == other.wal_tail
        &&& self.wal_sequence == other.wal_sequence
        &&& self.live == other.live
        &&& self.total == other.total
        &&& self.terms == other.terms
    }

    /// A second copy.
    pub fn copy(&self) -> (manifest: Manifest)
        ensures
            manifest.same(self),
    {
        Manifest {
            segments: vstd::slice::slice_to_vec(self.segments.as_slice()),
            epoch: self.epoch,
            written: self.written,
            wal_head: self.wal_head,
            wal_tail: self.wal_tail,
            wal_sequence: self.wal_sequence,
            live: self.live,
            total: self.total,
            terms: self.terms,
        }
    }
}

/// One of the two places a manifest is written to.
#[derive(Debug, Clone, Copy, PartialEq, Eq, Structural)]
pub enum Slot {
    A,
    B,
}

impl Slot {
    pub open spec fn opposite(self) -> Slot {
        match self {
            Slot::A => Slot::B,
            Slot::B => Slot::A,
        }
    }

    /// The slot that is not this one.
    pub fn other(self) -> (slot: Slot)
        ensures
            slot == self.opposite(),
    {
        match self {
            Slot::A => Slot::B,
            Slot::B => Slot::A,
        }
    }
}

/// The first page boundary at or past `at`.
pub open spec fn next_page(at: int) -> int {
    (at + 4095) / 4096 * 4096
}

/// The first page boundary at or past `at`.
pub fn page_up(at: u64) -> (up: u64)
    requires
        next_page(at as int) <= u64::MAX,
    ensures
        up == next_page(at as int),
        up >= at,
{
    let page: u64 = PAGE as u64;
    let over: u64 = at % page;
    if over == 0 {
        at
    } else {
        at + (page - over)
    }
}

/// Two manifests that say the same are the same in every part.
pub proof fn law_the_same_is_the_same_in_every_part(a: Manifest, b: Manifest)
    ensures
        a.same(&b) <==> {
            &&& a.segments@ == b.segments@
            &&& a.epoch == b.epoch && a.written == b.written
            &&& a.wal_head == b.wal_head && a.wal_tail == b.wal_tail
            &&& a.wal_sequence == b.wal_sequence
            &&& a.live == b.live && a.total == b.total && a.terms == b.terms
        },
{
}

/// There are two slots, and the other of the other is the first.
pub proof fn law_the_other_slot_is_another(slot: Slot)
    ensures
        slot.opposite() != slot,
        slot.opposite().opposite() == slot,
{
}

} // verus!

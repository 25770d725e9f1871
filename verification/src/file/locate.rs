//! Where the bytes a manifest names are in a file.
//!
//! Every descriptor is checked against the file before any of it is handed out,
//! so a view that exists is one where every slice is inside the file and inside
//! the segment region. A descriptor pointing into the manifest slots would
//! otherwise be a query quietly reading a manifest as though it were postings.
use crate::error::{Error, Result};
use crate::file::view::View as StoreView;
use crate::file::{as_usize, clamped, plus, Store};
use crate::manifest::{Segment, Superblock};
use vstd::prelude::*;

verus! {

/// What is wrong with bytes at a place of a file, if anything is: they are not
/// all in the file, or they start before the region that holds segments.
pub open spec fn misplaced(region: u64, offset: u64, len: u64, file: nat) -> Option<Error> {
    if offset + len > file {
        Some(
            Error::Truncated {
                needed: clamped(plus(offset as int, len as int) as nat) as usize,
                available: file as usize,
            },
        )
    } else if offset < region {
        Some(Error::SectionOutOfRange { kind: 0, offset, length: len })
    } else {
        None
    }
}

/// Whether a segment has deletions beside it.
pub open spec fn has_deletions(segment: Segment) -> bool {
    segment.tombstones_offset != 0 && segment.tombstones_len != 0
}

/// What is wrong with the deletions of a segment, if anything is.
pub open spec fn misplaced_deletions(region: u64, segment: Segment, file: nat) -> Option<Error> {
    if has_deletions(segment) {
        misplaced(region, segment.tombstones_offset, segment.tombstones_len as u64, file)
    } else {
        None
    }
}

/// The first of `n` segments whose bytes are misplaced.
pub open spec fn first_misplaced(
    region: u64,
    segments: Seq<Segment>,
    file: nat,
    n: int,
) -> Option<Error>
    decreases n,
{
    if n <= 0 {
        None
    } else {
        match first_misplaced(region, segments, file, n - 1) {
            Some(error) => Some(error),
            None => misplaced(region, segments[n - 1].offset, segments[n - 1].len, file),
        }
    }
}

/// The first of `n` segments whose deletions are misplaced.
pub open spec fn first_misplaced_deletions(
    region: u64,
    segments: Seq<Segment>,
    file: nat,
    n: int,
) -> Option<Error>
    decreases n,
{
    if n <= 0 {
        None
    } else {
        match first_misplaced_deletions(region, segments, file, n - 1) {
            Some(error) => Some(error),
            None => misplaced_deletions(region, segments[n - 1], file),
        }
    }
}

/// Where bytes of a file start and end.
fn place(region: u64, offset: u64, len: u64, file: usize) -> (range: Result<(usize, usize)>)
    ensures
        match misplaced(region, offset, len, file as nat) {
            Some(error) => range matches Err(e) && e == error,
            None => range matches Ok((start, end)) && start == offset && end == offset + len && end
                <= file,
        },
{
    let available: u64 = file as u64;
    if offset > available || len > available - offset {
        return Err(
            Error::Truncated { needed: as_usize(offset.saturating_add(len)), available: file },
        );
    }
    if offset < region {
        return Err(Error::SectionOutOfRange { kind: 0, offset, length: len });
    }
    Ok((offset as usize, (offset + len) as usize))
}

proof fn lemma_misplaced_stays(region: u64, segments: Seq<Segment>, file: nat, n: int, m: int)
    requires
        n <= m,
    ensures
        first_misplaced(region, segments, file, n) is Some ==> first_misplaced(
            region,
            segments,
            file,
            m,
        ) == first_misplaced(region, segments, file, n),
        first_misplaced_deletions(region, segments, file, n) is Some ==> first_misplaced_deletions(
            region,
            segments,
            file,
            m,
        ) == first_misplaced_deletions(region, segments, file, n),
    decreases m,
{
    if n < m && m > 0 {
        lemma_misplaced_stays(region, segments, file, n, m - 1);
    }
}

/// Where each segment is in a file of `file` bytes, or what is wrong with the
/// first that is not there.
pub fn locate(superblock: &Superblock, segments: &Vec<Segment>, file: usize) -> (ranges: Result<
    Vec<(usize, usize)>,
>)
    ensures
        match first_misplaced(
            superblock.segments_offset,
            segments@,
            file as nat,
            segments@.len() as int,
        ) {
            Some(error) => ranges matches Err(e) && e == error,
            None => ranges matches Ok(r) && r@.len() == segments@.len() && forall|i: int|
                0 <= i < r@.len() ==> {
                    let segment = segments@[i];
                    &&& (#[trigger] r@[i]).0 == segment.offset
                    &&& r@[i].1 == segment.offset + segment.len
                    &&& r@[i].1 <= file
                    &&& superblock.segments_offset <= r@[i].0
                },
        },
{
    let mut ranges: Vec<(usize, usize)> = Vec::new();
    let mut i: usize = 0;
    while i < segments.len()
        invariant
            i <= segments@.len(),
            ranges@.len() == i,
            first_misplaced(superblock.segments_offset, segments@, file as nat, i as int) is None,
            forall|k: int|
                0 <= k < i ==> {
                    let segment = segments@[k];
                    &&& (#[trigger] ranges@[k]).0 == segment.offset
                    &&& ranges@[k].1 == segment.offset + segment.len
                    &&& ranges@[k].1 <= file
                    &&& superblock.segments_offset <= ranges@[k].0
                },
        decreases segments.len() - i,
    {
        let segment = segments[i];
        match place(superblock.segments_offset, segment.offset, segment.len, file) {
            Ok(range) => {
                ranges.push(range);
            },
            Err(error) => {
                proof {
                    lemma_misplaced_stays(
                        superblock.segments_offset,
                        segments@,
                        file as nat,
                        i + 1,
                        segments@.len() as int,
                    );
                }
                return Err(error);
            },
        }
        i = i + 1;
    }
    Ok(ranges)
}

/// Where the deletions of each segment are, for the segments that have any.
pub fn tombstones(superblock: &Superblock, segments: &Vec<Segment>, file: usize) -> (ranges: Result<
    Vec<Option<(usize, usize)>>,
>)
    ensures
        match first_misplaced_deletions(
            superblock.segments_offset,
            segments@,
            file as nat,
            segments@.len() as int,
        ) {
            Some(error) => ranges matches Err(e) && e == error,
            None => ranges matches Ok(r) && r@.len() == segments@.len() && forall|i: int|
                0 <= i < r@.len() ==> match #[trigger] r@[i] {
                    Some((start, end)) => has_deletions(segments@[i]) && start
                        == segments@[i].tombstones_offset && end == start
                        + segments@[i].tombstones_len && end <= file,
                    None => !has_deletions(segments@[i]),
                },
        },
{
    let mut ranges: Vec<Option<(usize, usize)>> = Vec::new();
    let mut i: usize = 0;
    while i < segments.len()
        invariant
            i <= segments@.len(),
            ranges@.len() == i,
            first_misplaced_deletions(
                superblock.segments_offset,
                segments@,
                file as nat,
                i as int,
            ) is None,
            forall|k: int|
                0 <= k < i ==> match #[trigger] ranges@[k] {
                    Some((start, end)) => has_deletions(segments@[k]) && start
                        == segments@[k].tombstones_offset && end == start
                        + segments@[k].tombstones_len && end <= file,
                    None => !has_deletions(segments@[k]),
                },
        decreases segments.len() - i,
    {
        let segment = segments[i];
        if segment.tombstones_offset == 0 || segment.tombstones_len == 0 {
            ranges.push(None);
        } else {
            match place(
                superblock.segments_offset,
                segment.tombstones_offset,
                segment.tombstones_len as u64,
                file,
            ) {
                Ok(range) => {
                    ranges.push(Some(range));
                },
                Err(error) => {
                    proof {
                        lemma_misplaced_stays(
                            superblock.segments_offset,
                            segments@,
                            file as nat,
                            i + 1,
                            segments@.len() as int,
                        );
                    }
                    return Err(error);
                },
            }
        }
        i = i + 1;
    }
    Ok(ranges)
}

/// What a view of a store over the bytes of its file comes to.
pub open spec fn views(store: Store, map: Seq<u8>, layout: u64, view: Result<StoreView<'_>>) -> bool {
    let region = store.superblock.segments_offset;
    let segments = store.manifest.segments@;
    let n = segments.len() as int;
    match first_misplaced(region, segments, map.len(), n) {
        Some(error) => view matches Err(e) && e == error,
        None => match first_misplaced_deletions(region, segments, map.len(), n) {
            Some(error) => view matches Err(e) && e == error,
            None => {
                &&& view matches Ok(v)
                &&& v.wf()
                &&& v.map@ == map
                &&& v.epoch == store.manifest.epoch
                &&& v.layout == layout
                &&& v.segments@ == segments
                &&& forall|i: int|
                    0 <= i < n ==> {
                        &&& v.segment_bytes(i) == Some(
                            map.subrange(
                                (#[trigger] segments[i]).offset as int,
                                segments[i].offset + segments[i].len,
                            ),
                        )
                        &&& v.tombstone_bytes(i) == if has_deletions(segments[i]) {
                            Some(
                                map.subrange(
                                    segments[i].tombstones_offset as int,
                                    segments[i].tombstones_offset + segments[i].tombstones_len,
                                ),
                            )
                        } else {
                            None
                        }
                        &&& v.tables@[i] is None
                    }
            },
        },
    }
}

impl Store {
    /// The committed state over the bytes of the file, with no key table open.
    ///
    /// Reports [`Error::Truncated`] if a segment the manifest names is not
    /// entirely inside the file, or [`Error::SectionOutOfRange`] if one starts
    /// before the segment region does. The same two apply to the deletions.
    pub fn view<'a>(&self, map: &'a [u8], layout: u64) -> (view: Result<StoreView<'a>>)
        ensures
            views(*self, map@, layout, view),
    {
        let ranges = match locate(&self.superblock, &self.manifest.segments, map.len()) {
            Ok(ranges) => ranges,
            Err(error) => {
                return Err(error);
            },
        };
        let deletions = match tombstones(&self.superblock, &self.manifest.segments, map.len()) {
            Ok(deletions) => deletions,
            Err(error) => {
                return Err(error);
            },
        };
        let mut tables: Vec<Option<&'a [u8]>> = Vec::new();
        while tables.len() < self.manifest.segments.len()
            invariant
                tables@.len() <= self.manifest.segments@.len(),
                forall|i: int| 0 <= i < tables@.len() ==> #[trigger] tables@[i] is None,
            decreases self.manifest.segments.len() - tables.len(),
        {
            tables.push(None);
        }
        let view = StoreView {
            map,
            epoch: self.manifest.epoch,
            layout,
            segments: vstd::slice::slice_to_vec(self.manifest.segments.as_slice()),
            ranges,
            deletions,
            tables,
        };
        proof {
            let segments = self.manifest.segments@;
            assert forall|i: int| 0 <= i < segments.len() implies {
                &&& view.segment_bytes(i) == Some(
                    map@.subrange(
                        (#[trigger] segments[i]).offset as int,
                        segments[i].offset + segments[i].len,
                    ),
                )
                &&& view.tombstone_bytes(i) == if has_deletions(segments[i]) {
                    Some(
                        map@.subrange(
                            segments[i].tombstones_offset as int,
                            segments[i].tombstones_offset + segments[i].tombstones_len,
                        ),
                    )
                } else {
                    None
                }
                &&& view.tables@[i] is None
            } by {
                assert(ranges@[i].0 == segments[i].offset);
                assert(deletions@[i] is Some == has_deletions(segments[i]));
            }
        }
        Ok(view)
    }

    /// Forgets the fold that batches could still have been moved along by.
    pub fn forget_fold(&mut self)
        ensures
            *final(self) == (Store { folded: None, ..*old(self) }),
    {
        self.folded = None;
    }
}

} // verus!

//! What commits and folds do, and what they are refused for.
use super::publish::{
    added_all, bytes_in, can_merge, deepest, deletes, docs_in, draft_of, first_stray, folds,
    gone_from, hidden_all, lemma_segments_end, lemma_sets_end, misnamed, publishes, segments_end,
    Draft, Folding, Opened, Published,
};
use super::{committed_as, first_stale, follows, highest, strays, Store, Tombstones};
use crate::bitmap::format::encoded;
use crate::compact::{carried_kind, first_uncarried, Merged};
use crate::error::{Error, Result};
use crate::file::view::View as StoreView;
use crate::manifest::{next_page, Manifest, Segment, Superblock};
use crate::segment::{kind, Section};
use vstd::prelude::*;

verus! {

// ---------------------------------------------------------------------------
// A commit.
// ---------------------------------------------------------------------------

/// A commit writes the segments and the counts it is given and the time it is told, one
/// epoch on from the one before, with the log as far as the store has got in it.
pub proof fn law_a_commit_is_the_next_epoch(
    store: Store,
    manifest: Manifest,
    written: u64,
    next: Manifest,
)
    requires
        follows(store, manifest, written, next),
    ensures
        next.segments@ == manifest.segments@,
        next.live == manifest.live && next.total == manifest.total && next.terms == manifest.terms,
        store.manifest.epoch < u64::MAX ==> next.epoch == store.manifest.epoch + 1,
        next.written == written,
        next.wal_head == store.log.head && next.wal_tail == store.log.tail,
        next.wal_sequence == store.log.sequence,
{
}

/// The committed segment at `j` is the first at the same place with the same footer.
pub open spec fn twin(committed: Seq<Segment>, segment: Segment, j: int) -> bool {
    &&& 0 <= j < committed.len()
    &&& committed[j].offset == segment.offset && committed[j].footer == segment.footer
    &&& forall|k: int|
        0 <= k < j ==> (#[trigger] committed[k]).offset != segment.offset || committed[k].footer
            != segment.footer
}

/// A segment goes back to older deletions than are committed.
pub open spec fn goes_back(committed: Seq<Segment>, segment: Segment) -> bool {
    exists|j: int| #[trigger]
        twin(committed, segment, j) && segment.generation < committed[j].generation
}

proof fn lemma_twin(committed: Seq<Segment>, segment: Segment)
    ensures
        match committed_as(committed, segment) {
            Some(was) => exists|j: int| #[trigger] twin(committed, segment, j) && committed[j] == was,
            None => forall|j: int|
                0 <= j < committed.len() ==> (#[trigger] committed[j]).offset != segment.offset
                    || committed[j].footer != segment.footer,
        },
    decreases committed.len(),
{
    if committed.len() > 0 {
        let rest = committed.skip(1);
        if committed[0].offset == segment.offset && committed[0].footer == segment.footer {
            assert(twin(committed, segment, 0));
        } else {
            lemma_twin(rest, segment);
            match committed_as(rest, segment) {
                Some(was) => {
                    let j = choose|j: int| #[trigger] twin(rest, segment, j) && rest[j] == was;
                    assert forall|k: int| 0 <= k < j + 1 implies (#[trigger] committed[k]).offset
                        != segment.offset || committed[k].footer != segment.footer by {
                        if k > 0 {
                            assert(rest[k - 1] == committed[k]);
                        }
                    }
                    assert(twin(committed, segment, j + 1));
                },
                None => {
                    assert forall|k: int| 0 <= k < committed.len() implies (
                    #[trigger] committed[k]).offset != segment.offset || committed[k].footer
                        != segment.footer by {
                        if k > 0 {
                            assert(rest[k - 1] == committed[k]);
                        }
                    }
                },
            }
        }
    }
}

proof fn lemma_goes_back(committed: Seq<Segment>, segment: Segment)
    ensures
        goes_back(committed, segment) <==> (committed_as(committed, segment) matches Some(was)
            && segment.generation < was.generation),
{
    lemma_twin(committed, segment);
    if goes_back(committed, segment) {
        let j = choose|j: int| #[trigger]
            twin(committed, segment, j) && segment.generation < committed[j].generation;
        assert(committed[j].offset == segment.offset);
        let was = committed_as(committed, segment).unwrap();
        let k = choose|k: int| #[trigger] twin(committed, segment, k) && committed[k] == was;
        assert(j == k) by {
            if j < k {
                assert(committed[j].offset != segment.offset || committed[j].footer
                    != segment.footer);
            }
            if k < j {
                assert(committed[k].offset != segment.offset || committed[k].footer
                    != segment.footer);
            }
        }
    }
}

/// A commit is refused exactly where some segment it names goes back to older deletions
/// than are committed for it, and the refusal names the first such segment and the two
/// generations.
pub proof fn law_a_commit_is_refused_for_older_deletions(
    committed: Seq<Segment>,
    next: Seq<Segment>,
)
    ensures
        match first_stale(committed, next) {
            Some(error) => exists|i: int|
                0 <= i < next.len() && #[trigger] goes_back(committed, next[i]) && (
                error matches Error::StaleGeneration { offset, committed: had, given } && offset
                    == next[i].offset && given == next[i].generation && given < had && exists|
                    j: int,
                |
                    #[trigger] twin(committed, next[i], j) && committed[j].generation == had) && (
                forall|before: int|
                    0 <= before < i ==> !#[trigger] goes_back(committed, next[before])),
            None => forall|i: int| 0 <= i < next.len() ==> !#[trigger] goes_back(
                committed,
                next[i],
            ),
        },
    decreases next.len(),
{
    if next.len() > 0 {
        let rest = next.skip(1);
        lemma_goes_back(committed, next[0]);
        lemma_twin(committed, next[0]);
        law_a_commit_is_refused_for_older_deletions(committed, rest);
        if goes_back(committed, next[0]) {
            let was = committed_as(committed, next[0]).unwrap();
            let j = choose|j: int| #[trigger] twin(committed, next[0], j) && committed[j] == was;
            assert(twin(committed, next[0], j) && committed[j].generation == was.generation);
            assert(goes_back(committed, next[0]));
        } else {
            match first_stale(committed, rest) {
                Some(error) => {
                    let i = choose|i: int|
                        0 <= i < rest.len() && #[trigger] goes_back(committed, rest[i]) && (
                        error matches Error::StaleGeneration { offset, committed: had, given }
                            && offset == rest[i].offset && given == rest[i].generation && given
                            < had && exists|j: int,| #[trigger]
                            twin(committed, rest[i], j) && committed[j].generation == had) && (
                        forall|before: int|
                            0 <= before < i ==> !#[trigger] goes_back(committed, rest[before]));
                    assert(next[i + 1] == rest[i]);
                    assert(goes_back(committed, next[i + 1]));
                    assert forall|before: int| 0 <= before < i + 1 implies !#[trigger] goes_back(
                        committed,
                        next[before],
                    ) by {
                        if before > 0 {
                            assert(next[before] == rest[before - 1]);
                            assert(!goes_back(committed, rest[before - 1]));
                        }
                    }
                },
                None => {
                    assert forall|i: int| 0 <= i < next.len() implies !#[trigger] goes_back(
                        committed,
                        next[i],
                    ) by {
                        if i > 0 {
                            assert(next[i] == rest[i - 1]);
                            assert(!goes_back(committed, rest[i - 1]));
                        }
                    }
                },
            }
        }
    }
}

// ---------------------------------------------------------------------------
// Where the next bytes go.
// ---------------------------------------------------------------------------

/// A page is of 4096 bytes, and the first boundary at or past a place is less than one
/// page from it.
pub proof fn law_a_page_up_is_less_than_a_page(at: int)
    ensures
        at <= next_page(at) < at + 4096,
        next_page(at) % 4096 == 0,
{
}

proof fn lemma_highest_reached(superblock: Superblock, segments: Seq<Segment>, n: int)
    requires
        0 <= n <= segments.len(),
        highest(superblock, segments, n) < u64::MAX,
    ensures
        highest(superblock, segments, n) == superblock.segments_offset || exists|i: int|
            0 <= i < n && (highest(superblock, segments, n) == (#[trigger] segments[i]).offset
                + segments[i].len || highest(superblock, segments, n)
                == segments[i].tombstones_offset + segments[i].tombstones_len),
    decreases n,
{
    if n > 0 {
        let s = segments[n - 1];
        let rest = highest(superblock, segments, n - 1);
        if highest(superblock, segments, n) == rest {
            lemma_highest_reached(superblock, segments, n - 1);
        } else {
            assert(highest(superblock, segments, n) == segments[n - 1].offset + segments[n - 1].len
                || highest(superblock, segments, n) == segments[n - 1].tombstones_offset
                + segments[n - 1].tombstones_len);
        }
    }
}

/// A store appends at the first page past everything its manifest names: less than a
/// page past the end of the region's head, of some segment or of some set of deletions,
/// and so no further than it has to.
pub proof fn law_a_store_appends_no_further_than_it_has_to(
    superblock: Superblock,
    segments: Seq<Segment>,
)
    requires
        next_page(highest(superblock, segments, segments.len() as int)) <= u64::MAX,
    ensures
        ({
            let end = next_page(highest(superblock, segments, segments.len() as int));
            ||| end < superblock.segments_offset + 4096
            ||| exists|i: int|
                0 <= i < segments.len() && (end < (#[trigger] segments[i]).offset + segments[i].len
                    + 4096 || end < segments[i].tombstones_offset + segments[i].tombstones_len
                    + 4096)
        }),
{
    let n = segments.len() as int;
    lemma_highest_reached(superblock, segments, n);
    if highest(superblock, segments, n) != superblock.segments_offset {
        let i = choose|i: int|
            0 <= i < n && (highest(superblock, segments, n) == (#[trigger] segments[i]).offset
                + segments[i].len || highest(superblock, segments, n)
                == segments[i].tombstones_offset + segments[i].tombstones_len);
        assert(0 <= i < segments.len());
    }
}

// ---------------------------------------------------------------------------
// A publish.
// ---------------------------------------------------------------------------

proof fn lemma_misnamed_why(named: Seq<(usize, Set<u32>)>, limit: int, n: int)
    requires
        0 <= n <= named.len(),
    ensures
        match misnamed(named, limit, n) {
            Some(error) => {
                ||| exists|k: int, l: int|
                    0 <= k < l < n && (#[trigger] named[k]).0 == (#[trigger] named[l]).0 && error
                        == (Error::RepeatedSegment { at: named[l].0 })
                ||| exists|k: int|
                    0 <= k < n && (#[trigger] named[k]).0 >= limit && error
                        == (Error::MissingSection { kind: 0 })
            },
            None => {
                &&& forall|k: int| 0 <= k < n ==> (#[trigger] named[k]).0 < limit
                &&& forall|k: int, l: int|
                    0 <= k < l < n ==> (#[trigger] named[k]).0 != (#[trigger] named[l]).0
            },
        },
    decreases n,
{
    if n > 0 {
        lemma_misnamed_why(named, limit, n - 1);
        if misnamed(named, limit, n - 1) is None {
            if exists|k: int| 0 <= k < n - 1 && (#[trigger] named[k]).0 == named[n - 1].0 {
                let k = choose|k: int|
                    0 <= k < n - 1 && (#[trigger] named[k]).0 == named[n - 1].0;
                assert(named[k].0 == named[n - 1].0);
            } else if named[n - 1].0 >= limit {
                assert(named[n - 1].0 >= limit);
            }
        }
    }
}

proof fn lemma_docs_kept(draft: Draft, segments: Seq<(u32, u64)>, created: u64, n: int, i: int)
    requires
        0 <= n <= segments.len(),
        0 <= i < draft.segments.len() + n,
    ensures
        ({
            let now = added_all(draft, segments, created, n).segments;
            let old = draft.segments.len();
            &&& now.len() == old + n
            &&& now[i].docs == if i < old {
                draft.segments[i].docs
            } else {
                segments[i - old].0
            }
        }),
    decreases n,
{
    if n > 0 {
        if i < draft.segments.len() + n - 1 {
            lemma_docs_kept(draft, segments, created, n - 1, i);
        } else if n > 1 {
            lemma_docs_kept(draft, segments, created, n - 1, draft.segments.len() as int);
        } else if draft.segments.len() > 0 {
            lemma_docs_kept(draft, segments, created, n - 1, 0);
        }
    }
}

proof fn lemma_first_stray(draft: Draft, named: Seq<(usize, Set<u32>)>, n: int)
    ensures
        first_stray(draft, named, n) matches Some(k) ==> 0 <= k < n && strays(
            named[k].1,
            draft.segments[named[k].0 as int].docs,
        ),
    decreases n,
{
    if n > 0 {
        lemma_first_stray(draft, named, n - 1);
    }
}

/// What a publish is refused with says why: a segment that is named twice, or that there
/// is a segment named that there will not be, or the last document of a set that its
/// segment does not have with how many it has.
pub proof fn law_a_refused_publish_says_why(
    store: Store,
    segments: Seq<(u32, u64)>,
    created: u64,
    named: Seq<(usize, Set<u32>)>,
    before: Seq<u64>,
    error: Error,
)
    requires
        publishes(store, segments, created, named, before, Err::<Published, Error>(error)),
    ensures
        ({
            let was = store.manifest.segments@;
            ||| exists|k: int, l: int|
                0 <= k < l < named.len() && (#[trigger] named[k]).0 == (#[trigger] named[l]).0
                    && error == (Error::RepeatedSegment { at: named[l].0 })
            ||| exists|k: int|
                0 <= k < named.len() && (#[trigger] named[k]).0 >= was.len() + segments.len()
                    && error == (Error::MissingSection { kind: 0 })
            ||| exists|k: int|
                0 <= k < named.len() && {
                    let at = (#[trigger] named[k]).0 as int;
                    &&& error matches Error::NoSuchDocument { doc, documents }
                    &&& documents == if at < was.len() {
                        was[at].docs
                    } else {
                        segments[at - was.len()].0
                    }
                    &&& doc >= documents
                    &&& named[k].1.contains(doc)
                    &&& forall|d: u32| #[trigger] named[k].1.contains(d) ==> d <= doc
                }
        }),
{
    let start = draft_of(store);
    let was = store.manifest.segments@;
    let m = segments.len() as int;
    let n = named.len() as int;
    let limit = was.len() + m;
    let grown = added_all(start, segments, created, m);
    lemma_misnamed_why(named, limit, n);
    if misnamed(named, limit, n) is None {
        lemma_first_stray(grown, named, n);
        let k = first_stray(grown, named, n).unwrap();
        assert(named[k].0 < limit);
        lemma_docs_kept(start, segments, created, m, named[k].0 as int);
        let set = named[k].1;
        let docs = grown.segments[named[k].0 as int].docs;
        let d = choose|d: u32| #[trigger] set.contains(d) && d >= docs;
        assert(set.contains(d));
    }
}

proof fn lemma_laid_at(draft: Draft, segments: Seq<(u32, u64)>, created: u64, n: int, i: int)
    requires
        0 <= i < n <= segments.len(),
    ensures
        ({
            let now = added_all(draft, segments, created, n);
            let old = draft.segments.len();
            &&& now.segments.len() == old + n
            &&& now.segments[old + i].offset == added_all(draft, segments, created, i).end as u64
            &&& now.wrote
        }),
    decreases n,
{
    if n == 1 {
    } else if i < n - 1 {
        lemma_laid_at(draft, segments, created, n - 1, i);
    } else {
        lemma_laid_at(draft, segments, created, n - 1, 0);
    }
}

proof fn lemma_hides_len(draft: Draft, named: Seq<(usize, Set<u32>)>, before: Seq<u64>, n: int)
    requires
        0 <= n <= named.len(),
        forall|k: int| 0 <= k < named.len() ==> (#[trigger] named[k]).0 < draft.segments.len(),
    ensures
        hidden_all(draft, named, before, n).segments.len() == draft.segments.len(),
        hidden_all(draft, named, before, n).wrote <==> draft.wrote || exists|k: int|
            0 <= k < n && (#[trigger] named[k]).1 != Set::<u32>::empty(),
    decreases n,
{
    if n > 0 {
        lemma_hides_len(draft, named, before, n - 1);
        assert(named[n - 1].0 < draft.segments.len());
        if named[n - 1].1 != Set::<u32>::empty() {
            assert(named[n - 1].1 != Set::<u32>::empty());
        }
    }
}

proof fn lemma_offset_kept(
    draft: Draft,
    named: Seq<(usize, Set<u32>)>,
    before: Seq<u64>,
    n: int,
    i: int,
)
    requires
        0 <= n <= named.len(),
        0 <= i < draft.segments.len(),
        forall|k: int| 0 <= k < named.len() ==> (#[trigger] named[k]).0 < draft.segments.len(),
    ensures
        hidden_all(draft, named, before, n).segments[i].offset == draft.segments[i].offset,
    decreases n,
{
    if n > 0 {
        lemma_offset_kept(draft, named, before, n - 1, i);
        lemma_hides_len(draft, named, before, n - 1);
        assert(named[n - 1].0 < draft.segments.len());
    }
}

/// A publish writes one thing behind another: its first segment where the store appends,
/// each after it on the first page behind the one before, then the sets of deletions in
/// the order they are named, each that holds anything on the first page behind what was
/// written before it. There is something to sync exactly where there is a segment or a
/// set that holds anything.
pub proof fn law_a_publish_writes_one_thing_behind_another(
    store: Store,
    segments: Seq<(u32, u64)>,
    created: u64,
    named: Seq<(usize, Set<u32>)>,
    before: Seq<u64>,
    published: Published,
)
    requires
        publishes(store, segments, created, named, before, Ok::<Published, Error>(published)),
        super::publish::fits(store.segments, segments, named),
    ensures
        ({
            let was = store.manifest.segments@.len() as int;
            let now = published.manifest.segments@;
            let sets = published.tombstones@;
            let m = segments.len() as int;
            &&& m > 0 ==> now[was].offset == store.segments
            &&& forall|i: int|
                0 < i < m ==> (#[trigger] now[was + i]).offset == next_page(
                    now[was + i - 1].offset + segments[i - 1].1,
                )
            &&& sets.len() == named.len()
            &&& forall|k: int|
                0 <= k < sets.len() ==> {
                    let from = if k > 0 {
                        sets[k - 1].end as int
                    } else if m > 0 {
                        next_page(now[was + m - 1].offset + segments[m - 1].1)
                    } else {
                        store.segments as int
                    };
                    if named[k].1 == Set::<u32>::empty() {
                        (#[trigger] sets[k]).bytes@.len() == 0 && sets[k].end == from
                    } else {
                        &&& sets[k].bytes@ == encoded(named[k].1)
                        &&& sets[k].segment.tombstones_offset == from
                        &&& sets[k].end == next_page(from + sets[k].bytes@.len())
                    }
                }
            &&& published.end == if sets.len() > 0 {
                sets.last().end as int
            } else if m > 0 {
                next_page(now[was + m - 1].offset + segments[m - 1].1)
            } else {
                store.segments as int
            }
            &&& published.wrote <==> m > 0 || exists|k: int|
                0 <= k < named.len() && (#[trigger] named[k]).1 != Set::<u32>::empty()
            &&& published.manifest.terms == store.manifest.terms
        }),
{
    let start = draft_of(store);
    let was = store.manifest.segments@.len() as int;
    let now = published.manifest.segments@;
    let sets = published.tombstones@;
    let m = segments.len() as int;
    let n = named.len() as int;
    let grown = added_all(start, segments, created, m);
    let limit = was + m;
    lemma_misnamed_why(named, limit, n);
    if m > 0 {
        lemma_laid_at(start, segments, created, m, 0);
    }
    assert(grown.segments.len() == limit);
    lemma_hides_len(grown, named, before, n);
    assert forall|i: int| 0 <= i < m implies (#[trigger] now[was + i]).offset == segments_end(
        store.segments as int,
        segments,
        i,
    ) by {
        lemma_laid_at(start, segments, created, m, i);
        lemma_segments_end(start, segments, created, i, m);
        lemma_segments_end(start, segments, created, m, m);
        lemma_sets_end(grown, named, before, 0, n);
        lemma_offset_kept(grown, named, before, n, was + i);
    }
    assert forall|i: int| 0 < i < m implies (#[trigger] now[was + i]).offset == next_page(
        now[was + i - 1].offset + segments[i - 1].1,
    ) by {
        assert(now[was + (i - 1)].offset == segments_end(store.segments as int, segments, i - 1));
        assert(now[was + i].offset == segments_end(store.segments as int, segments, i));
    }
    lemma_segments_end(start, segments, created, m, m);
    if m > 0 {
        assert(now[was + (m - 1)].offset == segments_end(store.segments as int, segments, m - 1));
    }
    assert(grown.end == if m > 0 {
        next_page(now[was + m - 1].offset + segments[m - 1].1)
    } else {
        store.segments as int
    });
    assert forall|k: int| 0 <= k < sets.len() implies {
        let from = if k > 0 {
            sets[k - 1].end as int
        } else if m > 0 {
            next_page(now[was + m - 1].offset + segments[m - 1].1)
        } else {
            store.segments as int
        };
        if named[k].1 == Set::<u32>::empty() {
            (#[trigger] sets[k]).bytes@.len() == 0 && sets[k].end == from
        } else {
            &&& sets[k].bytes@ == encoded(named[k].1)
            &&& sets[k].segment.tombstones_offset == from
            &&& sets[k].end == next_page(from + sets[k].bytes@.len())
        }
    } by {
        if k > 0 {
            assert(sets[k - 1].end == hidden_all(grown, named, before, k).end);
        }
        lemma_sets_end(grown, named, before, k, n);
        lemma_hides_len(grown, named, before, k);
        assert(named[k].0 < limit);
        assert(sets[k].end == hidden_all(grown, named, before, k + 1).end);
    }
    if n > 0 {
        assert(sets[n - 1].end == hidden_all(grown, named, before, n).end);
    }
}

/// What a delete comes to: a live count that has back what the segment hid before and
/// lacks what it hides now, with everything else as it was, and the set written where the
/// store appends, on to the next page. It is refused exactly where there is no such
/// segment, or where the set names a document the segment does not have.
pub proof fn law_a_delete_counts_what_it_hides(
    store: Store,
    at: usize,
    deleted: Set<u32>,
    before: u64,
    published: Result<(Manifest, Tombstones)>,
)
    requires
        deletes(store, at, deleted, before, published),
        super::publish::set_end(store.segments as int, deleted) <= u64::MAX,
    ensures
        ({
            let segments = store.manifest.segments@;
            &&& published is Ok <==> at < segments.len() && forall|d: u32| #[trigger]
                deleted.contains(d) ==> d < segments[at as int].docs
            &&& published matches Err(e) ==> if at >= segments.len() {
                e == (Error::MissingSection { kind: 0 })
            } else {
                &&& e matches Error::NoSuchDocument { doc, documents }
                &&& documents == segments[at as int].docs
                &&& doc >= documents
                &&& deleted.contains(doc)
                &&& forall|d: u32| #[trigger] deleted.contains(d) ==> d <= doc
            }
            &&& published matches Ok((manifest, set)) ==> {
                &&& store.manifest.live + before <= u64::MAX && deleted.len()
                    <= store.manifest.live + before ==> manifest.live == store.manifest.live
                    + before - deleted.len()
                &&& manifest.total == store.manifest.total
                &&& manifest.terms == store.manifest.terms
                &&& set.segment == manifest.segments@[at as int]
                &&& if deleted == Set::<u32>::empty() {
                    set.bytes@.len() == 0 && set.end == store.segments
                } else {
                    &&& set.bytes@ == encoded(deleted)
                    &&& set.segment.tombstones_offset == store.segments
                    &&& store.segments + set.bytes@.len() <= set.end < store.segments
                        + set.bytes@.len() + 4096
                    &&& set.end % 4096 == 0
                }
            }
        }),
{
    if at < store.manifest.segments@.len() {
        let docs = store.manifest.segments@[at as int].docs;
        if strays(deleted, docs) {
            let d = choose|d: u32| #[trigger] deleted.contains(d) && d >= docs;
            assert(deleted.contains(d));
        } else {
            assert forall|d: u32| #[trigger] deleted.contains(d) implies d < docs by {}
        }
    }
}

// ---------------------------------------------------------------------------
// A fold.
// ---------------------------------------------------------------------------

proof fn lemma_folded_sums(segments: Seq<Segment>)
    requires
        forall|i: int|
            0 <= i < segments.len() ==> (#[trigger] segments[i]).len + segments[i].tombstones_len
                <= u64::MAX,
    ensures
        docs_in(segments) == segments.fold_left(
            0nat,
            |held: nat, segment: Segment| held + segment.docs as nat,
        ),
        bytes_in(segments) == segments.fold_left(
            0nat,
            |taken: nat, segment: Segment| taken + segment.len as nat
                + segment.tombstones_len as nat,
        ),
    decreases segments.len(),
{
    reveal(Seq::fold_left);
    if segments.len() > 0 {
        assert forall|i: int| 0 <= i < segments.drop_last().len() implies (
        #[trigger] segments.drop_last()[i]).len + segments.drop_last()[i].tombstones_len
            <= u64::MAX by {
            assert(segments[i] == segments.drop_last()[i]);
        }
        assert(segments[segments.len() - 1].len + segments[segments.len() - 1].tombstones_len
            <= u64::MAX);
        lemma_folded_sums(segments.drop_last());
    }
}

proof fn lemma_deepest(segments: Seq<Segment>)
    ensures
        forall|i: int| 0 <= i < segments.len() ==> (#[trigger] segments[i]).level <= deepest(
            segments,
        ),
        segments.len() > 0 ==> exists|i: int|
            0 <= i < segments.len() && (#[trigger] segments[i]).level == deepest(segments),
    decreases segments.len(),
{
    if segments.len() > 0 {
        let rest = segments.drop_last();
        lemma_deepest(rest);
        assert forall|i: int| 0 <= i < segments.len() implies (#[trigger] segments[i]).level
            <= deepest(segments) by {
            if i < rest.len() {
                assert(rest[i] == segments[i]);
            }
        }
        if segments.last().level > deepest(rest) || rest.len() == 0 {
            assert(segments[segments.len() - 1].level == deepest(segments));
        } else {
            let i = choose|i: int|
                0 <= i < rest.len() && (#[trigger] rest[i]).level == deepest(rest);
            assert(segments[i].level == deepest(segments));
        }
    }
}

/// What a fold comes to. The run is replaced, in its place, by one segment of the merged
/// documents where the store appends, or by none where no document survived; the segments
/// before it and after it are as they were. Unless it is told a level, the segment is one
/// deeper than the deepest of the run. As many documents are live as were, and as many
/// held as were, less those of the run, plus those of the merged segment. It reports what
/// the merge did, and how many bytes of the file the run and its deletions leave behind.
/// It is refused exactly where there is no such run.
pub proof fn law_a_fold_replaces_a_run(
    store: Store,
    start: usize,
    end: usize,
    level: Option<u32>,
    merged: Merged,
    len: u64,
    created: u64,
    prefixes: Vec<u64>,
    folding: Result<Folding>,
)
    requires
        folds(store, start, end, level, merged, len, created, prefixes, folding),
        next_page(store.segments + len) <= u64::MAX,
        start < end <= store.manifest.segments@.len() ==> {
            let run = store.manifest.segments@.subrange(start as int, end as int);
            bytes_in(run) <= u64::MAX && docs_in(run) <= u64::MAX
        },
    ensures
        ({
            let was = store.manifest.segments@;
            let run = was.subrange(start as int, end as int);
            let one = if merged.documents > 0 {
                1int
            } else {
                0int
            };
            let held = run.fold_left(
                0nat,
                |held: nat, segment: Segment| held + segment.docs as nat,
            );
            let taken = run.fold_left(
                0nat,
                |taken: nat, segment: Segment| taken + segment.len as nat
                    + segment.tombstones_len as nat,
            );
            &&& folding is Ok <==> start < end <= was.len()
            &&& folding matches Err(e) ==> e == (Error::MissingSection { kind: 0 })
            &&& folding matches Ok(f) ==> {
                let now = f.manifest.segments@;
                &&& now.len() == was.len() - (end - start) + one
                &&& forall|i: int| 0 <= i < start ==> #[trigger] now[i] == was[i]
                &&& forall|i: int|
                    end <= i < was.len() ==> now[i - (end - start) + one] == #[trigger] was[i]
                &&& merged.documents > 0 ==> {
                    let made = now[start as int];
                    &&& f.replacement == Some(made)
                    &&& made.offset == store.segments && made.len == len
                    &&& made.docs == merged.documents && made.created == created
                    &&& made.tombstones_offset == 0 && made.tombstones_len == 0
                    &&& level matches Some(asked) ==> made.level == asked
                    &&& level is None ==> {
                        &&& forall|i: int|
                            start <= i < end && made.level < u32::MAX ==> (#[trigger] was[i]).level
                                < made.level
                        &&& exists|i: int|
                            start <= i < end && ((#[trigger] was[i]).level + 1 == made.level || (
                            was[i].level == u32::MAX && made.level == u32::MAX))
                    }
                    &&& f.fold.into == Some(start)
                    &&& store.segments + len <= f.end < store.segments + len + 4096
                    &&& f.end % 4096 == 0
                    &&& f.report.bytes == len
                }
                &&& merged.documents == 0 ==> {
                    &&& f.replacement is None
                    &&& f.fold.into is None
                    &&& f.end == store.segments
                    &&& f.report.bytes == 0
                }
                &&& f.manifest.live == store.manifest.live
                &&& f.manifest.terms == store.manifest.terms
                &&& (forall|i: int|
                    start <= i < end ==> (#[trigger] was[i]).len + was[i].tombstones_len
                        <= u64::MAX) ==> {
                    &&& held <= store.manifest.total && store.manifest.total - held
                        + merged.documents <= u64::MAX ==> f.manifest.total == store.manifest.total
                        - held + merged.documents
                    &&& f.report.stranded == taken
                }
                &&& f.report.folded == end - start
                &&& f.report.documents == merged.documents
                &&& f.report.dropped == merged.dropped
                &&& f.report.terms == merged.terms
                &&& f.fold.start == start && f.fold.end == end
                &&& f.fold.moved == merged.moved
                &&& f.fold.prefixes == prefixes
            }
        }),
{
    let was = store.manifest.segments@;
    if start < end <= was.len() {
        let run = was.subrange(start as int, end as int);
        lemma_deepest(run);
        assert forall|i: int| start <= i < end implies (#[trigger] was[i]).level <= deepest(
            run,
        ) by {
            assert(run[i - start] == was[i]);
        }
        let d = choose|d: int| 0 <= d < run.len() && (#[trigger] run[d]).level == deepest(run);
        assert(was[start + d] == run[d]);
        if forall|i: int|
            start <= i < end ==> (#[trigger] was[i]).len + was[i].tombstones_len <= u64::MAX {
            assert forall|i: int| 0 <= i < run.len() implies (#[trigger] run[i]).len
                + run[i].tombstones_len <= u64::MAX by {
                assert(run[i] == was[start + i]);
            }
            lemma_folded_sums(run);
        }
    }
}

// ---------------------------------------------------------------------------
// What goes into a merge.
// ---------------------------------------------------------------------------

/// Whether a merge knows what to do with a section of a kind: the dictionary, the
/// postings, the lengths and their roundings, the bounds, the fields, and the keys with
/// their filter. There is no other.
pub open spec fn known_to_a_merge(kind: u16) -> bool {
    ||| kind == kind::TERMS || kind == kind::POSTINGS
    ||| kind == kind::NORMS || kind == kind::ROUNDED
    ||| kind == kind::BOUNDS || kind == kind::WIDE_BOUNDS
    ||| kind == kind::FIELDS
    ||| kind == kind::KEYS || kind == kind::KEY_FILTER
}

/// A section a merge does not know is a reason to refuse, and the first of them is the
/// one that is named.
pub proof fn law_the_first_unknown_section_is_named(sections: Seq<Section>)
    ensures
        match first_uncarried(sections) {
            Some(kind) => exists|i: int|
                0 <= i < sections.len() && (#[trigger] sections[i]).kind == kind
                    && !known_to_a_merge(kind) && forall|before: int|
                    0 <= before < i ==> known_to_a_merge((#[trigger] sections[before]).kind),
            None => forall|i: int|
                0 <= i < sections.len() ==> known_to_a_merge((#[trigger] sections[i]).kind),
        },
    decreases sections.len(),
{
    if sections.len() > 0 {
        let rest = sections.skip(1);
        law_the_first_unknown_section_is_named(rest);
        if !carried_kind(sections[0].kind) {
            assert(sections[0].kind == first_uncarried(sections).unwrap());
        } else {
            match first_uncarried(rest) {
                Some(kind) => {
                    let i = choose|i: int|
                        0 <= i < rest.len() && (#[trigger] rest[i]).kind == kind
                            && !known_to_a_merge(kind) && forall|before: int|
                            0 <= before < i ==> known_to_a_merge((#[trigger] rest[before]).kind);
                    assert(sections[i + 1] == rest[i]);
                    assert forall|before: int| 0 <= before < i + 1 implies known_to_a_merge(
                        (#[trigger] sections[before]).kind,
                    ) by {
                        if before > 0 {
                            assert(rest[before - 1] == sections[before]);
                        }
                    }
                },
                None => {
                    assert forall|i: int| 0 <= i < sections.len() implies known_to_a_merge(
                        (#[trigger] sections[i]).kind,
                    ) by {
                        if i > 0 {
                            assert(rest[i - 1] == sections[i]);
                        }
                    }
                },
            }
        }
    }
}

/// A segment of a view goes into a merge exactly where its bytes are there, its sections
/// and its index were read, a merge knows all of its sections, and its deletions decode
/// and are of documents it has; and it goes in without the documents they name.
pub proof fn law_a_segment_goes_into_a_merge(view: &StoreView<'_>, at: int, opened: Opened)
    requires
        opened.wf(),
    ensures
        can_merge(view, at, opened) <==> {
            &&& view.segment_bytes(at) is Some
            &&& opened.segment matches Ok(segment) && forall|i: int|
                0 <= i < segment.sections@.len() ==> known_to_a_merge(
                    (#[trigger] segment.sections@[i]).kind,
                )
            &&& opened.index is Ok
            &&& view.deleted_of(at) matches Ok(gone) && (gone matches Some(set) ==> forall|d: u32|
                #[trigger]
                set.contains(d) ==> d < opened.index->Ok_0.lengths@.len())
        },
        view.deleted_of(at) matches Ok(Some(set)) ==> gone_from(view, at) == set,
        view.deleted_of(at) matches Ok(None) ==> forall|d: u32| !#[trigger] gone_from(
            view,
            at,
        ).contains(d),
{
    if let Ok(segment) = opened.segment {
        law_the_first_unknown_section_is_named(segment.sections@);
        if first_uncarried(segment.sections@) is Some {
            let kind = first_uncarried(segment.sections@).unwrap();
            let i = choose|i: int|
                0 <= i < segment.sections@.len() && (#[trigger] segment.sections@[i]).kind == kind
                    && !known_to_a_merge(kind) && forall|before: int|
                    0 <= before < i ==> known_to_a_merge(
                        (#[trigger] segment.sections@[before]).kind,
                    );
            assert(!known_to_a_merge(segment.sections@[i].kind));
        }
    }
}

/// Where a publish ends can be said before it is made: what is worked out beforehand is
/// where it ends.
pub proof fn law_a_publish_ends_where_it_was_said_to(
    store: Store,
    segments: Seq<(u32, u64)>,
    created: u64,
    named: Seq<(usize, Set<u32>)>,
    before: Seq<u64>,
    published: Published,
)
    requires
        publishes(store, segments, created, named, before, Ok::<Published, Error>(published)),
        super::publish::fits(store.segments, segments, named),
    ensures
        published.end == super::publish::sets_end(
            segments_end(store.segments as int, segments, segments.len() as int),
            named,
            named.len() as int,
        ),
{
    let start = draft_of(store);
    let m = segments.len() as int;
    let n = named.len() as int;
    let grown = added_all(start, segments, created, m);
    lemma_segments_end(start, segments, created, m, m);
    lemma_sets_end(grown, named, before, n, n);
}

} // verus!

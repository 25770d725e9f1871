//! What a view reads of what was committed.
use super::{first_absent_of, hiding, lemma_encoded_fits, Store, Tombstones};
use super::locate::{first_misplaced, first_misplaced_deletions, views};
use super::publish::{
    added_all, deletes, draft_of, first_stray, fits, hidden, hidden_all, lemma_added_len,
    lemma_named_below, lemma_segments_end, lemma_sets_end, misnamed, publishes, Draft, Published,
};
use super::view::View as StoreView;
use crate::bitmap::first_gap;
use crate::bitmap::format::{decoded, encoded};
use crate::bitmap::round_trip::law_round_trip;
use crate::error::{Error, Result};
use crate::manifest::{Manifest, Segment};
use vstd::prelude::*;

verus! {

// ---------------------------------------------------------------------------
// A view.
// ---------------------------------------------------------------------------

proof fn lemma_in_place(region: u64, segments: Seq<Segment>, file: nat, n: int)
    requires
        0 <= n <= segments.len(),
    ensures
        first_misplaced(region, segments, file, n) is None <==> forall|i: int|
            0 <= i < n ==> region <= (#[trigger] segments[i]).offset && segments[i].offset
                + segments[i].len <= file,
        first_misplaced_deletions(region, segments, file, n) is None <==> forall|i: int|
            0 <= i < n ==> (#[trigger] segments[i]).tombstones_offset == 0
                || segments[i].tombstones_len == 0 || (region <= segments[i].tombstones_offset
                && segments[i].tombstones_offset + segments[i].tombstones_len <= file),
    decreases n,
{
    if n > 0 {
        lemma_in_place(region, segments, file, n - 1);
        let last = segments[n - 1];
        if first_misplaced(region, segments, file, n) is None {
            assert forall|i: int| 0 <= i < n implies region <= (#[trigger] segments[i]).offset
                && segments[i].offset + segments[i].len <= file by {}
        } else {
            if forall|i: int|
                0 <= i < n ==> region <= (#[trigger] segments[i]).offset && segments[i].offset
                    + segments[i].len <= file {
                assert(region <= segments[n - 1].offset);
            }
        }
        if first_misplaced_deletions(region, segments, file, n) is Some {
            if forall|i: int|
                0 <= i < n ==> (#[trigger] segments[i]).tombstones_offset == 0
                    || segments[i].tombstones_len == 0 || (region <= segments[i].tombstones_offset
                    && segments[i].tombstones_offset + segments[i].tombstones_len <= file) {
                assert(segments[n - 1].tombstones_offset == 0 || segments[n - 1].tombstones_len == 0
                    || region <= segments[n - 1].tombstones_offset);
            }
        }
    }
}

/// A view of a store is given exactly where every byte its manifest names is in the
/// file and in the region that holds segments: the segments, and the deletions of those
/// that have any.
pub proof fn law_a_view_is_given_where_all_of_it_is_there(
    store: Store,
    map: Seq<u8>,
    layout: u64,
    view: Result<StoreView<'_>>,
)
    requires
        views(store, map, layout, view),
    ensures
        ({
            let region = store.superblock.segments_offset;
            let segments = store.manifest.segments@;
            view is Ok <==> forall|i: int|
                0 <= i < segments.len() ==> {
                    &&& region <= (#[trigger] segments[i]).offset
                    &&& segments[i].offset + segments[i].len <= map.len()
                    &&& segments[i].tombstones_offset == 0 || segments[i].tombstones_len == 0 || (
                    region <= segments[i].tombstones_offset && segments[i].tombstones_offset
                        + segments[i].tombstones_len <= map.len())
                }
        }),
{
    let segments = store.manifest.segments@;
    let n = segments.len() as int;
    lemma_in_place(store.superblock.segments_offset, segments, map.len(), n);
}

/// An error says that some bytes are not where they are said to be: not all in the file,
/// with how far the file would have to go and how far it goes, or in front of the region
/// that holds segments.
pub open spec fn blames(region: u64, offset: u64, len: u64, file: nat, error: Error) -> bool {
    ||| {
        &&& offset + len > file
        &&& error matches Error::Truncated { needed, available }
        &&& available == file
        &&& offset + len <= usize::MAX && offset + len <= u64::MAX ==> needed == offset + len
    }
    ||| {
        &&& offset + len <= file
        &&& offset < region
        &&& error == (Error::SectionOutOfRange { kind: 0, offset, length: len })
    }
}

proof fn lemma_blamed(region: u64, segments: Seq<Segment>, file: nat, n: int)
    requires
        0 <= n <= segments.len(),
        file <= usize::MAX,
    ensures
        first_misplaced(region, segments, file, n) matches Some(error) ==> exists|i: int|
            0 <= i < n && blames(
                region,
                (#[trigger] segments[i]).offset,
                segments[i].len,
                file,
                error,
            ),
        first_misplaced_deletions(region, segments, file, n) matches Some(error) ==> exists|i: int|
            0 <= i < n && (#[trigger] segments[i]).tombstones_offset != 0
                && segments[i].tombstones_len != 0 && blames(
                region,
                segments[i].tombstones_offset,
                segments[i].tombstones_len as u64,
                file,
                error,
            ),
    decreases n,
{
    if n > 0 {
        lemma_blamed(region, segments, file, n - 1);
        let s = segments[n - 1];
        if first_misplaced(region, segments, file, n - 1) is None {
            if let Some(error) = first_misplaced(region, segments, file, n) {
                assert(blames(region, segments[n - 1].offset, segments[n - 1].len, file, error));
            }
        }
        if first_misplaced_deletions(region, segments, file, n - 1) is None {
            if let Some(error) = first_misplaced_deletions(region, segments, file, n) {
                assert(blames(
                    region,
                    segments[n - 1].tombstones_offset,
                    segments[n - 1].tombstones_len as u64,
                    file,
                    error,
                ));
            }
        }
    }
}

/// A view that is not given says which bytes are not there: those of a segment, or those
/// of the deletions of one that has any.
pub proof fn law_a_refused_view_says_what_is_not_there(
    store: Store,
    map: Seq<u8>,
    layout: u64,
    error: Error,
)
    requires
        views(store, map, layout, Err::<StoreView<'_>, Error>(error)),
        map.len() <= usize::MAX,
    ensures
        ({
            let region = store.superblock.segments_offset;
            let segments = store.manifest.segments@;
            exists|i: int|
                0 <= i < segments.len() && (blames(
                    region,
                    (#[trigger] segments[i]).offset,
                    segments[i].len,
                    map.len(),
                    error,
                ) || (segments[i].tombstones_offset != 0 && segments[i].tombstones_len != 0
                    && blames(
                    region,
                    segments[i].tombstones_offset,
                    segments[i].tombstones_len as u64,
                    map.len(),
                    error,
                )))
        }),
{
    let region = store.superblock.segments_offset;
    let segments = store.manifest.segments@;
    let n = segments.len() as int;
    lemma_blamed(region, segments, map.len(), n);
    if first_misplaced(region, segments, map.len(), n) is Some {
        let i = choose|i: int|
            0 <= i < n && blames(
                region,
                (#[trigger] segments[i]).offset,
                segments[i].len,
                map.len(),
                error,
            );
        assert(0 <= i < segments.len());
    } else {
        let i = choose|i: int|
            0 <= i < n && (#[trigger] segments[i]).tombstones_offset != 0
                && segments[i].tombstones_len != 0 && blames(
                region,
                segments[i].tombstones_offset,
                segments[i].tombstones_len as u64,
                map.len(),
                error,
            );
        assert(0 <= i < segments.len());
    }
}

/// A view reads what the manifest names: the bytes of each segment where it is said to
/// be, and beside it the set that its deletions decode to. A segment has no deletions
/// only where the manifest gives them no offset or no length.
pub proof fn law_a_view_reads_what_is_named(
    store: Store,
    map: Seq<u8>,
    layout: u64,
    view: StoreView<'_>,
    at: int,
)
    requires
        views(store, map, layout, Ok::<StoreView<'_>, Error>(view)),
        0 <= at < store.manifest.segments@.len(),
    ensures
        ({
            let segment = store.manifest.segments@[at];
            &&& view.segments@ == store.manifest.segments@
            &&& view.epoch == store.manifest.epoch
            &&& view.segment_bytes(at) == Some(
                map.subrange(segment.offset as int, segment.offset + segment.len),
            )
            &&& if segment.tombstones_offset == 0 || segment.tombstones_len == 0 {
                view.deleted_of(at) matches Ok(None)
            } else {
                match decoded(
                    map.subrange(
                        segment.tombstones_offset as int,
                        segment.tombstones_offset + segment.tombstones_len,
                    ),
                ) {
                    Ok(set) => view.deleted_of(at) == Ok::<Option<Set<u32>>, Error>(Some(set)),
                    Err(error) => view.deleted_of(at) == Err::<Option<Set<u32>>, Error>(error),
                }
            }
        }),
{
    assert(store.manifest.segments@[at] == view.segments@[at]);
}

// ---------------------------------------------------------------------------
// A descriptor.
// ---------------------------------------------------------------------------

proof fn lemma_some_gap(s: Set<u32>, from: u32) -> (absent: u32)
    requires
        forall|d: u32| d < from ==> #[trigger] s.contains(d),
    ensures
        first_gap(s, absent),
    decreases u32::MAX - from,
{
    if from == u32::MAX || !s.contains(from) {
        from
    } else {
        lemma_some_gap(s, (from + 1) as u32)
    }
}

/// A segment described with a set of deletions beside it says where the set is and how
/// many bytes it takes, and how many documents from the first on it hides at least. It
/// is a generation on, and nothing else of it changes. An empty set is none.
pub proof fn law_a_descriptor_says_where_its_deletions_are(
    segment: Segment,
    deleted: Set<u32>,
    offset: u64,
)
    ensures
        ({
            let next = hiding(segment, deleted, offset);
            &&& next.offset == segment.offset
            &&& next.len == segment.len
            &&& next.docs == segment.docs
            &&& next.created == segment.created
            &&& next.level == segment.level
            &&& next.footer == segment.footer
            &&& segment.generation < u32::MAX ==> next.generation == segment.generation + 1
            &&& segment.generation == u32::MAX ==> next.generation == u32::MAX
            &&& if forall|d: u32| !#[trigger] deleted.contains(d) {
                next.tombstones_offset == 0 && next.tombstones_len == 0 && next.first_live == 0
            } else {
                &&& next.tombstones_offset == offset
                &&& next.tombstones_len == encoded(deleted).len()
                &&& next.tombstones_len > 0
                &&& next.first_live <= segment.docs
                &&& forall|d: u32| d < next.first_live ==> #[trigger] deleted.contains(d)
                &&& next.first_live < segment.docs ==> !deleted.contains(next.first_live)
            }
        }),
{
    if forall|d: u32| !#[trigger] deleted.contains(d) {
        assert(deleted =~= Set::<u32>::empty());
    } else {
        lemma_encoded_fits(deleted);
        super::publish::lemma_encoded_some(deleted);
        let absent = lemma_some_gap(deleted, 0);
        assert(first_gap(deleted, absent));
        assert(first_gap(deleted, first_absent_of(deleted)));
        let d = choose|d: u32| #[trigger] deleted.contains(d);
        assert(deleted != Set::<u32>::empty());
        if hiding(segment, deleted, offset).first_live < segment.docs {
            assert(first_absent_of(deleted) < u32::MAX);
        }
    }
}

// ---------------------------------------------------------------------------
// A publish.
// ---------------------------------------------------------------------------

/// The segments a commit adds to.
proof fn lemma_added_at(draft: Draft, segments: Seq<(u32, u64)>, created: u64, n: int, i: int)
    requires
        0 <= n <= segments.len(),
        0 <= i < draft.segments.len() + n,
    ensures
        ({
            let now = added_all(draft, segments, created, n).segments;
            let old = draft.segments.len();
            &&& now.len() == old + n
            &&& i < old ==> now[i] == draft.segments[i]
            &&& i >= old ==> {
                &&& now[i].docs == segments[i - old].0
                &&& now[i].len == segments[i - old].1
                &&& now[i].created == created
                &&& now[i].generation == 0
                &&& now[i].level == 0
                &&& now[i].first_live == 0
                &&& now[i].tombstones_offset == 0
                &&& now[i].tombstones_len == 0
            }
        }),
    decreases n,
{
    if n > 0 {
        lemma_added_len(draft, segments, created, n - 1);
        if i < draft.segments.len() + n - 1 {
            lemma_added_at(draft, segments, created, n - 1, i);
        }
    }
}

/// A segment that the first `n` sets name once is described with that set, and one they
/// do not name is as it was.
proof fn lemma_hidden_at(
    grown: Draft,
    named: Seq<(usize, Set<u32>)>,
    before: Seq<u64>,
    n: int,
    i: int,
)
    requires
        0 <= n <= named.len(),
        0 <= i < grown.segments.len(),
        forall|k: int| 0 <= k < named.len() ==> (#[trigger] named[k]).0 < grown.segments.len(),
        forall|k: int, l: int|
            0 <= k < l < named.len() ==> (#[trigger] named[k]).0 != (#[trigger] named[l]).0,
    ensures
        ({
            let now = hidden_all(grown, named, before, n).segments;
            &&& now.len() == grown.segments.len()
            &&& (forall|k: int| 0 <= k < n ==> (#[trigger] named[k]).0 != i) ==> now[i]
                == grown.segments[i]
            &&& forall|k: int|
                0 <= k < n && (#[trigger] named[k]).0 == i ==> now[i] == hiding(
                    grown.segments[i],
                    named[k].1,
                    hidden_all(grown, named, before, k).end as u64,
                ) && now[i] == hidden_all(grown, named, before, k + 1).segments[i]
        }),
    decreases n,
{
    if n > 0 {
        lemma_hidden_at(grown, named, before, n - 1, i);
        let had = hidden_all(grown, named, before, n - 1);
        let now = hidden_all(grown, named, before, n);
        assert(now == hidden(had, named[n - 1].0 as int, named[n - 1].1, before[n - 1]));
        assert forall|k: int| 0 <= k < n && (#[trigger] named[k]).0 == i implies now.segments[i]
            == hiding(
            grown.segments[i],
            named[k].1,
            hidden_all(grown, named, before, k).end as u64,
        ) && now.segments[i] == hidden_all(grown, named, before, k + 1).segments[i] by {
            if k < n - 1 {
                assert(named[k].0 != named[n - 1].0);
            } else {
                assert forall|l: int| 0 <= l < n - 1 implies (#[trigger] named[l]).0 != i by {
                    assert(named[l].0 != named[k].0);
                }
            }
        }
        if forall|k: int| 0 <= k < n ==> (#[trigger] named[k]).0 != i {
            assert(named[n - 1].0 != i);
        }
    }
}

/// What a publish makes of the segments of a store. Those it does not name are as they
/// were, and those it adds come after them in the order they are given, with the
/// documents and the bytes they are said to have. One it names keeps its place, its
/// bytes and its documents, and is described with the set it is named with.
pub proof fn law_a_publish_adds_and_hides_what_it_says(
    store: Store,
    segments: Seq<(u32, u64)>,
    created: u64,
    named: Seq<(usize, Set<u32>)>,
    before: Seq<u64>,
    published: Published,
    i: int,
)
    requires
        publishes(store, segments, created, named, before, Ok::<Published, Error>(published)),
        0 <= i < store.manifest.segments@.len() + segments.len(),
    ensures
        ({
            let was = store.manifest.segments@;
            let now = published.manifest.segments@;
            &&& now.len() == was.len() + segments.len()
            &&& i < was.len() ==> {
                &&& now[i].offset == was[i].offset
                &&& now[i].len == was[i].len
                &&& now[i].docs == was[i].docs
                &&& now[i].created == was[i].created
                &&& now[i].level == was[i].level
                &&& (forall|k: int| 0 <= k < named.len() ==> (#[trigger] named[k]).0 != i)
                    ==> now[i] == was[i]
            }
            &&& i >= was.len() ==> {
                &&& now[i].docs == segments[i - was.len()].0
                &&& now[i].len == segments[i - was.len()].1
                &&& now[i].created == created
                &&& now[i].level == 0
                &&& (forall|k: int| 0 <= k < named.len() ==> (#[trigger] named[k]).0 != i)
                    ==> now[i].tombstones_offset == 0 && now[i].tombstones_len == 0
            }
            &&& forall|k: int|
                0 <= k < named.len() && (#[trigger] named[k]).0 == i
                    ==> published.tombstones@[k].segment == now[i]
        }),
{
    let start = draft_of(store);
    let m = segments.len() as int;
    let n = named.len() as int;
    let grown = added_all(start, segments, created, m);
    lemma_added_at(start, segments, created, m, i);
    lemma_added_len(start, segments, created, m);
    lemma_named_below(named, start.segments.len() + m, n);
    lemma_hidden_at(grown, named, before, n, i);
    if exists|k: int| 0 <= k < n && (#[trigger] named[k]).0 == i {
        let k = choose|k: int| 0 <= k < n && (#[trigger] named[k]).0 == i;
        law_a_descriptor_says_where_its_deletions_are(
            grown.segments[i],
            named[k].1,
            hidden_all(grown, named, before, k).end as u64,
        );
    }
}

proof fn lemma_misnamed(named: Seq<(usize, Set<u32>)>, limit: int, n: int)
    requires
        0 <= n <= named.len(),
        forall|k: int| 0 <= k < n ==> (#[trigger] named[k]).0 < limit,
        forall|k: int, l: int|
            0 <= k < l < n ==> (#[trigger] named[k]).0 != (#[trigger] named[l]).0,
    ensures
        misnamed(named, limit, n) is None,
    decreases n,
{
    if n > 0 {
        lemma_misnamed(named, limit, n - 1);
        assert(named[n - 1].0 < limit);
        if exists|k: int| 0 <= k < n - 1 && (#[trigger] named[k]).0 == named[n - 1].0 {
            let k = choose|k: int| 0 <= k < n - 1 && (#[trigger] named[k]).0 == named[n - 1].0;
            assert(named[k].0 != named[n - 1].0);
        }
    }
}

proof fn lemma_strays(draft: Draft, named: Seq<(usize, Set<u32>)>, n: int)
    requires
        0 <= n <= named.len(),
    ensures
        first_stray(draft, named, n) is None <==> forall|k: int, d: u32|
            0 <= k < n && #[trigger] named[k].1.contains(d) ==> d
                < draft.segments[named[k].0 as int].docs,
    decreases n,
{
    if n > 0 {
        lemma_strays(draft, named, n - 1);
        if first_stray(draft, named, n) is Some {
            if forall|k: int, d: u32|
                0 <= k < n && #[trigger] named[k].1.contains(d) ==> d
                    < draft.segments[named[k].0 as int].docs {
                let last = named[n - 1].1;
                assert forall|d: u32| #[trigger] last.contains(d) implies d
                    < draft.segments[named[n - 1].0 as int].docs by {
                    assert(named[n - 1].1.contains(d));
                }
            }
        } else {
            assert forall|k: int, d: u32|
                0 <= k < n && #[trigger] named[k].1.contains(d) implies d
                < draft.segments[named[k].0 as int].docs by {
                if k == n - 1 {
                    assert(!super::strays(
                        named[n - 1].1,
                        draft.segments[named[n - 1].0 as int].docs,
                    ));
                }
            }
        }
    }
}

/// A publish is refused for what its deletions name and for nothing else: a segment
/// twice, one there will not be, or a document that its segment does not have.
pub proof fn law_a_publish_is_refused_for_what_it_names(
    store: Store,
    segments: Seq<(u32, u64)>,
    created: u64,
    named: Seq<(usize, Set<u32>)>,
    before: Seq<u64>,
    published: Result<Published>,
)
    requires
        publishes(store, segments, created, named, before, published),
    ensures
        ({
            let was = store.manifest.segments@;
            published is Ok <==> {
                &&& forall|k: int|
                    0 <= k < named.len() ==> (#[trigger] named[k]).0 < was.len() + segments.len()
                &&& forall|k: int, l: int|
                    0 <= k < l < named.len() ==> (#[trigger] named[k]).0 != (#[trigger] named[l]).0
                &&& forall|k: int, d: u32|
                    0 <= k < named.len() && #[trigger] named[k].1.contains(d) ==> d < if named[k].0
                        < was.len() {
                        was[named[k].0 as int].docs
                    } else {
                        segments[named[k].0 - was.len()].0
                    }
            }
        }),
{
    let start = draft_of(store);
    let was = store.manifest.segments@;
    let m = segments.len() as int;
    let n = named.len() as int;
    let limit = was.len() + m;
    let grown = added_all(start, segments, created, m);
    if misnamed(named, limit, n) is None {
        lemma_named_below(named, limit, n);
        lemma_strays(grown, named, n);
        assert forall|k: int| 0 <= k < n implies grown.segments[(#[trigger] named[k]).0 as int].docs
            == if named[k].0 < was.len() {
            was[named[k].0 as int].docs
        } else {
            segments[named[k].0 - was.len()].0
        } by {
            lemma_added_at(start, segments, created, m, named[k].0 as int);
        }
    } else {
        if {
            &&& forall|k: int| 0 <= k < named.len() ==> (#[trigger] named[k]).0 < limit
            &&& forall|k: int, l: int|
                0 <= k < l < named.len() ==> (#[trigger] named[k]).0 != (#[trigger] named[l]).0
        } {
            lemma_misnamed(named, limit, n);
        }
    }
}

/// A document that was deleted stays hidden. A view of a store after a publish, over a
/// file that holds the bytes of the sets where the publish put them, gives for every
/// segment that was named the set it was named with, whatever else there is to say of
/// the segment, and no deletions where the set was empty.
pub proof fn law_what_a_publish_deletes_is_hidden(
    store: Store,
    segments: Seq<(u32, u64)>,
    created: u64,
    named: Seq<(usize, Set<u32>)>,
    before: Seq<u64>,
    published: Published,
    after: Store,
    map: Seq<u8>,
    layout: u64,
    view: StoreView<'_>,
    k: int,
)
    requires
        publishes(store, segments, created, named, before, Ok::<Published, Error>(published)),
        fits(store.segments, segments, named),
        store.segments > 0,
        after.manifest.segments@ == published.manifest.segments@,
        views(after, map, layout, Ok::<StoreView<'_>, Error>(view)),
        0 <= k < named.len(),
        published.tombstones@[k].bytes@.len() > 0 ==> map.subrange(
            published.tombstones@[k].segment.tombstones_offset as int,
            published.tombstones@[k].segment.tombstones_offset
                + published.tombstones@[k].bytes@.len(),
        ) == published.tombstones@[k].bytes@,
    ensures
        view.deleted_of(named[k].0 as int) == Ok::<Option<Set<u32>>, Error>(
            if forall|d: u32| !#[trigger] named[k].1.contains(d) {
                None
            } else {
                Some(named[k].1)
            },
        ),
{
    let start = draft_of(store);
    let m = segments.len() as int;
    let n = named.len() as int;
    let grown = added_all(start, segments, created, m);
    let at = named[k].0 as int;
    let set = named[k].1;
    lemma_added_len(start, segments, created, m);
    lemma_named_below(named, start.segments.len() + m, n);
    lemma_segments_end(start, segments, created, m, m);
    lemma_sets_end(grown, named, before, k, n);
    lemma_hidden_at(grown, named, before, n, at);
    let end = hidden_all(grown, named, before, k).end as u64;
    law_a_descriptor_says_where_its_deletions_are(grown.segments[at], set, end);
    law_a_view_reads_what_is_named(after, map, layout, view, at);
    if forall|d: u32| !#[trigger] set.contains(d) {
        assert(set =~= Set::<u32>::empty());
    } else {
        lemma_read_back(set);
    }
}

proof fn lemma_read_back(set: Set<u32>)
    requires
        exists|d: u32| #[trigger] set.contains(d),
    ensures
        set != Set::<u32>::empty(),
        decoded(encoded(set)) == Ok::<Set<u32>, Error>(set),
{
    law_round_trip(set, Seq::empty());
    assert(encoded(set) + Seq::<u8>::empty() =~= encoded(set));
    let d = choose|d: u32| #[trigger] set.contains(d);
    assert(set.contains(d));
}

/// The same of documents that are deleted by themselves: a view of the store over a file
/// that holds the set gives the set for that segment. Every other segment is as it was.
pub proof fn law_what_is_deleted_is_hidden(
    store: Store,
    at: usize,
    deleted: Set<u32>,
    before: u64,
    manifest: Manifest,
    set: Tombstones,
    after: Store,
    map: Seq<u8>,
    layout: u64,
    view: StoreView<'_>,
)
    requires
        deletes(store, at, deleted, before, Ok::<(Manifest, Tombstones), Error>((manifest, set))),
        store.segments > 0,
        after.manifest.segments@ == manifest.segments@,
        views(after, map, layout, Ok::<StoreView<'_>, Error>(view)),
        set.bytes@.len() > 0 ==> map.subrange(
            set.segment.tombstones_offset as int,
            set.segment.tombstones_offset + set.bytes@.len(),
        ) == set.bytes@,
    ensures
        view.deleted_of(at as int) == Ok::<Option<Set<u32>>, Error>(
            if forall|d: u32| !#[trigger] deleted.contains(d) {
                None
            } else {
                Some(deleted)
            },
        ),
        manifest.segments@.len() == store.manifest.segments@.len(),
        forall|i: int|
            0 <= i < manifest.segments@.len() && i != at ==> #[trigger] manifest.segments@[i]
                == store.manifest.segments@[i],
        forall|d: u32| #[trigger]
            deleted.contains(d) ==> d < store.manifest.segments@[at as int].docs,
{
    let segment = store.manifest.segments@[at as int];
    law_a_descriptor_says_where_its_deletions_are(segment, deleted, store.segments);
    law_a_view_reads_what_is_named(after, map, layout, view, at as int);
    if forall|d: u32| !#[trigger] deleted.contains(d) {
        assert(deleted =~= Set::<u32>::empty());
    } else {
        lemma_read_back(deleted);
    }
}

} // verus!

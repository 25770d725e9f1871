//! What a commit keeps of a store: the bytes that are already named, and the
//! counts of its documents.
use super::publish::{
    added, added_all, docs_in, draft_of, first_stray, fits, folds, hidden, hidden_all,
    law_appends_do_not_overlap, lemma_added_len, lemma_named_below, lemma_segments_end,
    lemma_sets_end, publishes, sets_end, spliced, Draft,
    Folding, Published,
};
use super::{hiding, highest, plus, strays, Store};
use crate::bitmap::lemma_below;
use crate::compact::{live_before, Merged, Source};
use crate::count::{below, count, lemma_count_set};
use crate::error::Error;
use crate::manifest::{next_page, Segment, Superblock};
use vstd::prelude::*;

verus! {

// ---------------------------------------------------------------------------
// Nothing that is named is written over.
// ---------------------------------------------------------------------------

/// Everything some segments name ends by `end`.
pub open spec fn ends_by(segments: Seq<Segment>, end: int) -> bool {
    forall|i: int|
        0 <= i < segments.len() ==> {
            &&& (#[trigger] segments[i]).offset + segments[i].len <= end
            &&& segments[i].tombstones_offset + segments[i].tombstones_len <= end
        }
}

proof fn lemma_highest(superblock: Superblock, segments: Seq<Segment>, n: int)
    requires
        0 <= n <= segments.len(),
    ensures
        superblock.segments_offset <= highest(superblock, segments, n),
        forall|i: int|
            0 <= i < n ==> {
                &&& plus((#[trigger] segments[i]).offset as int, segments[i].len as int) <= highest(
                    superblock,
                    segments,
                    n,
                )
                &&& plus(
                    segments[i].tombstones_offset as int,
                    segments[i].tombstones_len as int,
                ) <= highest(superblock, segments, n)
            },
    decreases n,
{
    if n > 0 {
        lemma_highest(superblock, segments, n - 1);
    }
}

/// A store that has just been opened appends past everything its manifest names,
/// the sets of deletions too, and on a page.
pub proof fn law_an_opened_store_appends_past_what_it_names(
    superblock: Superblock,
    segments: Seq<Segment>,
)
    requires
        next_page(highest(superblock, segments, segments.len() as int)) <= u64::MAX,
    ensures
        ({
            let end = next_page(highest(superblock, segments, segments.len() as int));
            &&& ends_by(segments, end)
            &&& superblock.segments_offset <= end
            &&& end % 4096 == 0
        }),
{
    lemma_highest(superblock, segments, segments.len() as int);
}

proof fn lemma_hidden_all(
    grown: Draft,
    named: Seq<(usize, Set<u32>)>,
    before: Seq<u64>,
    n: int,
)
    requires
        0 <= n <= named.len(),
        forall|k: int| 0 <= k < named.len() ==> (#[trigger] named[k]).0 < grown.segments.len(),
        grown.end >= 0,
        grown.end % 4096 == 0,
        ends_by(grown.segments, grown.end),
        sets_end(grown.end, named, n) <= u64::MAX,
    ensures
        ({
            let now = hidden_all(grown, named, before, n);
            &&& now.segments.len() == grown.segments.len()
            &&& now.end % 4096 == 0
            &&& grown.end <= now.end == sets_end(grown.end, named, n)
            &&& ends_by(now.segments, now.end)
            &&& forall|i: int|
                0 <= i < now.segments.len() ==> {
                    &&& (#[trigger] now.segments[i]).offset == grown.segments[i].offset
                    &&& now.segments[i].len == grown.segments[i].len
                    &&& now.segments[i].docs == grown.segments[i].docs
                }
        }),
    decreases n,
{
    if n > 0 {
        lemma_sets_end(grown, named, before, n - 1, n);
        lemma_hidden_all(grown, named, before, n - 1);
        let had = hidden_all(grown, named, before, n - 1);
        let now = hidden_all(grown, named, before, n);
        let at = named[n - 1].0 as int;
        super::lemma_encoded_fits(named[n - 1].1);
        assert(now == hidden(had, at, named[n - 1].1, before[n - 1]));
        assert(now.segments[at] == hiding(had.segments[at], named[n - 1].1, had.end as u64));
        assert forall|i: int| 0 <= i < now.segments.len() implies {
            &&& (#[trigger] now.segments[i]).offset + now.segments[i].len <= now.end
            &&& now.segments[i].tombstones_offset + now.segments[i].tombstones_len <= now.end
            &&& now.segments[i].offset == grown.segments[i].offset
            &&& now.segments[i].len == grown.segments[i].len
            &&& now.segments[i].docs == grown.segments[i].docs
        } by {
            assert(had.segments[i].offset == grown.segments[i].offset);
            if i != at {
                assert(now.segments[i] == had.segments[i]);
            }
        }
    }
}

proof fn lemma_ends_ascend(
    grown: Draft,
    named: Seq<(usize, Set<u32>)>,
    before: Seq<u64>,
    n: int,
    m: int,
)
    requires
        0 <= n <= m <= named.len(),
    ensures
        hidden_all(grown, named, before, n).end <= hidden_all(grown, named, before, m).end,
    decreases m - n,
{
    if n < m {
        lemma_ends_ascend(grown, named, before, n, m - 1);
    }
}

/// Nothing in a file is written over: what a publish writes, its segments and its
/// sets of deletions, goes past everything the committed manifest names, one after
/// another, and what the next manifest names ends before the next append. So a
/// view taken before the publish reads bytes nothing has touched.
pub proof fn law_a_publish_writes_past_what_is_named(
    store: Store,
    segments: Seq<(u32, u64)>,
    created: u64,
    named: Seq<(usize, Set<u32>)>,
    before: Seq<u64>,
    published: Published,
)
    requires
        publishes(store, segments, created, named, before, Ok::<Published, Error>(published)),
        fits(store.segments, segments, named),
        ends_by(store.manifest.segments@, store.segments as int),
        store.segments % 4096 == 0,
    ensures
        ({
            let now = published.manifest.segments@;
            let sets = published.tombstones@;
            &&& published.end % 4096 == 0
            &&& store.segments <= published.end
            &&& ends_by(now, published.end as int)
            &&& forall|i: int|
                store.manifest.segments@.len() <= i < now.len() ==> store.segments <= (
                #[trigger] now[i]).offset
            &&& forall|i: int, j: int|
                store.manifest.segments@.len() <= i < j < now.len() ==> (#[trigger] now[i]).offset
                    + now[i].len <= (#[trigger] now[j]).offset
            &&& forall|k: int|
                0 <= k < sets.len() && (#[trigger] sets[k]).bytes@.len() > 0 ==> {
                    &&& store.segments <= sets[k].segment.tombstones_offset
                    &&& sets[k].segment.tombstones_offset + sets[k].bytes@.len() <= sets[k].end
                        <= published.end
                }
            &&& forall|i: int, k: int|
                store.manifest.segments@.len() <= i < now.len() && 0 <= k < sets.len()
                    && sets[k].bytes@.len() > 0 ==> (#[trigger] now[i]).offset + now[i].len <= (
                #[trigger] sets[k]).segment.tombstones_offset
            &&& forall|k: int, l: int|
                0 <= k < l < sets.len() && sets[l].bytes@.len() > 0 ==> (#[trigger] sets[k]).end
                    <= (#[trigger] sets[l]).segment.tombstones_offset
        }),
{
    let start = draft_of(store);
    let m = segments.len() as int;
    let n = named.len() as int;
    let grown = added_all(start, segments, created, m);
    let old_len = start.segments.len() as int;
    lemma_segments_end(start, segments, created, m, m);
    lemma_sets_end(grown, named, before, 0, n);
    assert(grown.end <= u64::MAX);
    law_appends_do_not_overlap(start, segments, created, m);
    lemma_named_below(named, old_len + m, n);
    assert(ends_by(grown.segments, grown.end)) by {
        assert forall|i: int| 0 <= i < grown.segments.len() implies {
            &&& (#[trigger] grown.segments[i]).offset + grown.segments[i].len <= grown.end
            &&& grown.segments[i].tombstones_offset + grown.segments[i].tombstones_len <= grown.end
        } by {
            if i < old_len {
                assert(grown.segments[i] == start.segments[i]);
            } else {
                lemma_added_blank(start, segments, created, m, i);
            }
        }
    }
    lemma_hidden_all(grown, named, before, n);
    let now = published.manifest.segments@;
    let sets = published.tombstones@;
    assert forall|i: int| old_len <= i < now.len() implies store.segments <= (
    #[trigger] now[i]).offset by {
        assert(now[i].offset == grown.segments[i].offset);
    }
    assert forall|i: int, j: int| old_len <= i < j < now.len() implies (#[trigger] now[i]).offset
        + now[i].len <= (#[trigger] now[j]).offset by {
        assert(grown.segments[i].offset + grown.segments[i].len <= grown.segments[j].offset);
    }
    assert forall|k: int| 0 <= k < sets.len() && (#[trigger] sets[k]).bytes@.len() > 0 implies {
        &&& grown.end <= sets[k].segment.tombstones_offset
        &&& sets[k].segment.tombstones_offset == hidden_all(grown, named, before, k).end
        &&& sets[k].segment.tombstones_offset + sets[k].bytes@.len() <= sets[k].end
            <= published.end
    } by {
        lemma_sets_end(grown, named, before, k, n);
        lemma_hidden_all(grown, named, before, k);
        let had = hidden_all(grown, named, before, k);
        let made = hidden_all(grown, named, before, k + 1);
        let at = named[k].0 as int;
        assert(made == hidden(had, at, named[k].1, before[k]));
        assert(made.segments[at] == hiding(had.segments[at], named[k].1, had.end as u64));
        lemma_ends_ascend(grown, named, before, k + 1, n);
        super::lemma_encoded_fits(named[k].1);
    }
    assert forall|i: int, k: int|
        old_len <= i < now.len() && 0 <= k < sets.len() && sets[k].bytes@.len() > 0 implies (
    #[trigger] now[i]).offset + now[i].len <= (
    #[trigger] sets[k]).segment.tombstones_offset by {
        assert(grown.segments[i].offset + grown.segments[i].len <= grown.end);
    }
    assert forall|k: int, l: int| 0 <= k < l < sets.len() && sets[l].bytes@.len() > 0 implies (
    #[trigger] sets[k]).end <= (#[trigger] sets[l]).segment.tombstones_offset by {
        lemma_ends_ascend(grown, named, before, k + 1, l);
    }
}

proof fn lemma_added_blank(
    start: Draft,
    segments: Seq<(u32, u64)>,
    created: u64,
    n: int,
    i: int,
)
    requires
        0 <= n,
        start.segments.len() <= i < start.segments.len() + n,
    ensures
        ({
            let now = added_all(start, segments, created, n);
            &&& now.segments.len() == start.segments.len() + n
            &&& now.segments[i].tombstones_offset == 0
            &&& now.segments[i].tombstones_len == 0
        }),
    decreases n,
{
    if i < start.segments.len() + n - 1 {
        lemma_added_blank(start, segments, created, n - 1, i);
    } else {
        lemma_added_len(start, segments, created, n - 1);
    }
}

/// A fold writes its segment past everything the committed manifest names, and
/// what the next manifest names ends before the next append.
pub proof fn law_a_fold_writes_past_what_is_named(
    store: Store,
    start: usize,
    end: usize,
    level: Option<u32>,
    merged: Merged,
    len: u64,
    created: u64,
    prefixes: Vec<u64>,
    folding: Folding,
)
    requires
        folds(
            store,
            start,
            end,
            level,
            merged,
            len,
            created,
            prefixes,
            Ok::<Folding, Error>(folding),
        ),
        next_page(store.segments + len) <= u64::MAX,
        ends_by(store.manifest.segments@, store.segments as int),
        store.segments % 4096 == 0,
    ensures
        folding.end % 4096 == 0,
        store.segments <= folding.end,
        ends_by(folding.manifest.segments@, folding.end as int),
        folding.replacement matches Some(segment) ==> segment.offset == store.segments
            && segment.offset + segment.len <= folding.end,
{
    let was = store.manifest.segments@;
    let now = folding.manifest.segments@;
    super::publish::law_fold_keeps_the_rest(
        was,
        start as int,
        end as int,
        folding.replacement,
    );
    let one = if folding.replacement is Some {
        1int
    } else {
        0int
    };
    assert forall|i: int| 0 <= i < now.len() implies {
        &&& (#[trigger] now[i]).offset + now[i].len <= folding.end
        &&& now[i].tombstones_offset + now[i].tombstones_len <= folding.end
    } by {
        if i < start {
            assert(now[i] == was[i]);
        } else if i >= start + one {
            assert(now[i] == was[i + (end - start) - one]);
        }
    }
}

/// A view reads the same bytes out of a file that has only been added to: where
/// everything it names ends by `end`, nothing written past `end` shows in it.
pub proof fn law_an_older_view_reads_the_same(
    segments: Seq<Segment>,
    end: int,
    map: Seq<u8>,
    later: Seq<u8>,
    at: int,
)
    requires
        ends_by(segments, end),
        0 <= at < segments.len(),
        segments[at].offset + segments[at].len <= map.len(),
        segments[at].tombstones_offset + segments[at].tombstones_len <= map.len(),
        map.len() <= later.len(),
        forall|j: int| 0 <= j < end && j < map.len() ==> #[trigger] later[j] == map[j],
    ensures
        later.subrange(
            segments[at].offset as int,
            segments[at].offset + segments[at].len,
        ) == map.subrange(segments[at].offset as int, segments[at].offset + segments[at].len),
        later.subrange(
            segments[at].tombstones_offset as int,
            segments[at].tombstones_offset + segments[at].tombstones_len,
        ) == map.subrange(
            segments[at].tombstones_offset as int,
            segments[at].tombstones_offset + segments[at].tombstones_len,
        ),
{
}

// ---------------------------------------------------------------------------
// The counts.
// ---------------------------------------------------------------------------

/// How many documents of some segments are not deleted, where `hides` is how many
/// each hides.
pub open spec fn live_in(segments: Seq<Segment>, hides: Seq<nat>) -> int
    decreases segments.len(),
{
    if segments.len() == 0 {
        0
    } else {
        let last = segments.len() - 1;
        live_in(segments.drop_last(), hides.take(last)) + segments[last].docs - hides[last]
    }
}

/// A manifest counts what its segments hold and what of it is not deleted.
pub open spec fn counted(segments: Seq<Segment>, hides: Seq<nat>, live: int, total: int) -> bool {
    &&& hides.len() == segments.len()
    &&& forall|i: int| 0 <= i < segments.len() ==> #[trigger] hides[i] <= segments[i].docs
    &&& live == live_in(segments, hides)
    &&& total == docs_in(segments)
}

/// How many documents some new segments hold.
pub open spec fn docs_of(segments: Seq<(u32, u64)>, n: int) -> nat
    decreases n,
{
    if n <= 0 {
        0
    } else {
        docs_of(segments, n - 1) + segments[n - 1].0 as nat
    }
}

/// How many documents each segment hides once the first `n` sets are beside the
/// segments they name.
pub open spec fn hides_after(hides: Seq<nat>, named: Seq<(usize, Set<u32>)>, n: int) -> Seq<nat>
    decreases n,
{
    if n <= 0 {
        hides
    } else {
        hides_after(hides, named, n - 1).update(named[n - 1].0 as int, named[n - 1].1.len())
    }
}

proof fn lemma_push_counts(segments: Seq<Segment>, hides: Seq<nat>, segment: Segment, hidden: nat)
    requires
        hides.len() == segments.len(),
    ensures
        docs_in(segments.push(segment)) == docs_in(segments) + segment.docs,
        live_in(segments.push(segment), hides.push(hidden)) == live_in(segments, hides)
            + segment.docs - hidden,
{
    assert(segments.push(segment).drop_last() =~= segments);
    assert(hides.push(hidden).take(segments.len() as int) =~= hides);
}

/// One segment described anew, with as many documents, and another number of them
/// hidden.
proof fn lemma_update_counts(
    segments: Seq<Segment>,
    hides: Seq<nat>,
    at: int,
    segment: Segment,
    hidden: nat,
)
    requires
        hides.len() == segments.len(),
        0 <= at < segments.len(),
        segment.docs == segments[at].docs,
        forall|i: int| 0 <= i < segments.len() ==> #[trigger] hides[i] <= segments[i].docs,
    ensures
        docs_in(segments.update(at, segment)) == docs_in(segments),
        live_in(segments.update(at, segment), hides.update(at, hidden)) == live_in(segments, hides)
            + hides[at] - hidden,
        segments[at].docs <= live_in(segments, hides) + hides[at] <= docs_in(segments),
    decreases segments.len(),
{
    let last = segments.len() - 1;
    let now = segments.update(at, segment);
    let then = hides.update(at, hidden);
    if at == last {
        assert(now.drop_last() =~= segments.drop_last());
        assert(then.take(last) =~= hides.take(last));
        lemma_live_bounds(segments.drop_last(), hides.take(last));
    } else {
        assert(now.drop_last() =~= segments.drop_last().update(at, segment));
        assert(then.take(last) =~= hides.take(last).update(at, hidden));
        assert forall|i: int| 0 <= i < last implies #[trigger] hides.take(last)[i]
            <= segments.drop_last()[i].docs by {
            assert(hides[i] <= segments[i].docs);
        }
        lemma_update_counts(segments.drop_last(), hides.take(last), at, segment, hidden);
        assert(hides[last] <= segments[last].docs);
    }
}

proof fn lemma_live_bounds(segments: Seq<Segment>, hides: Seq<nat>)
    requires
        hides.len() == segments.len(),
        forall|i: int| 0 <= i < segments.len() ==> #[trigger] hides[i] <= segments[i].docs,
    ensures
        0 <= live_in(segments, hides) <= docs_in(segments),
    decreases segments.len(),
{
    if segments.len() > 0 {
        let last = segments.len() - 1;
        assert forall|i: int| 0 <= i < last implies #[trigger] hides.take(last)[i]
            <= segments.drop_last()[i].docs by {
            assert(hides[i] <= segments[i].docs);
        }
        lemma_live_bounds(segments.drop_last(), hides.take(last));
        assert(hides[last] <= segments[last].docs);
    }
}

proof fn lemma_added_counts(
    start: Draft,
    segments: Seq<(u32, u64)>,
    created: u64,
    hides: Seq<nat>,
    n: int,
)
    requires
        0 <= n <= segments.len(),
        counted(start.segments, hides, start.live, start.total),
        start.total + docs_of(segments, n) <= u64::MAX,
    ensures
        ({
            let now = added_all(start, segments, created, n);
            counted(now.segments, hides + Seq::new(n as nat, |i: int| 0nat), now.live, now.total)
        }),
        added_all(start, segments, created, n).total == start.total + docs_of(segments, n),
    decreases n,
{
    if n > 0 {
        lemma_added_counts(start, segments, created, hides, n - 1);
        let had = added_all(start, segments, created, n - 1);
        let now = added_all(start, segments, created, n);
        let then = hides + Seq::new((n - 1) as nat, |i: int| 0nat);
        let after = hides + Seq::new(n as nat, |i: int| 0nat);
        assert(now == added(had, segments[n - 1].0, segments[n - 1].1, created));
        assert(after =~= then.push(0nat));
        lemma_push_counts(had.segments, then, now.segments.last(), 0);
        lemma_live_bounds(had.segments, then);
        assert(now.segments =~= had.segments.push(now.segments.last()));
        assert forall|i: int| 0 <= i < now.segments.len() implies #[trigger] after[i]
            <= now.segments[i].docs by {
            if i < had.segments.len() {
                assert(then[i] <= had.segments[i].docs);
            }
        }
    } else {
        assert(hides + Seq::new(0, |i: int| 0nat) =~= hides);
    }
}

proof fn lemma_hidden_counts(
    grown: Draft,
    named: Seq<(usize, Set<u32>)>,
    before: Seq<u64>,
    hides: Seq<nat>,
    n: int,
)
    requires
        0 <= n <= named.len() == before.len(),
        counted(grown.segments, hides, grown.live, grown.total),
        grown.total <= u64::MAX,
        forall|k: int| 0 <= k < named.len() ==> (#[trigger] named[k]).0 < grown.segments.len(),
        forall|k: int, l: int|
            0 <= k < l < named.len() ==> (#[trigger] named[k]).0 != (#[trigger] named[l]).0,
        first_stray(grown, named, n) is None,
        forall|k: int|
            0 <= k < named.len() ==> #[trigger] before[k] == hides[named[k].0 as int],
    ensures
        ({
            let now = hidden_all(grown, named, before, n);
            &&& counted(now.segments, hides_after(hides, named, n), now.live, now.total)
            &&& now.total == grown.total
            &&& now.segments.len() == grown.segments.len()
            &&& forall|i: int|
                0 <= i < now.segments.len() ==> (#[trigger] now.segments[i]).docs
                    == grown.segments[i].docs
            &&& forall|i: int|
                0 <= i < hides.len() && (forall|k: int|
                    0 <= k < n ==> (#[trigger] named[k]).0 != i) ==> #[trigger] hides_after(
                    hides,
                    named,
                    n,
                )[i] == hides[i]
        }),
    decreases n,
{
    if n > 0 {
        lemma_hidden_counts(grown, named, before, hides, n - 1);
        let had = hidden_all(grown, named, before, n - 1);
        let now = hidden_all(grown, named, before, n);
        let then = hides_after(hides, named, n - 1);
        let after = hides_after(hides, named, n);
        let at = named[n - 1].0 as int;
        let deleted = named[n - 1].1;
        assert(now == hidden(had, at, deleted, before[n - 1]));
        let next = hiding(had.segments[at], deleted, had.end as u64);
        assert(now.segments == had.segments.update(at, next));
        assert(next.docs == had.segments[at].docs);
        assert(!strays(deleted, grown.segments[at].docs));
        assert forall|d: u32| #[trigger] deleted.contains(d) implies d
            < grown.segments[at].docs by {}
        lemma_below(deleted, grown.segments[at].docs);
        assert(then[at] == hides[at]) by {
            assert forall|k: int| 0 <= k < n - 1 implies (#[trigger] named[k]).0 != at by {
                assert(named[k].0 != named[n - 1].0);
            }
        }
        lemma_update_counts(had.segments, then, at, next, deleted.len());
        assert(before[n - 1] == hides[at]);
        assert(now.live == had.live + hides[at] - deleted.len());
        assert forall|i: int| 0 <= i < now.segments.len() implies #[trigger] after[i]
            <= now.segments[i].docs by {
            assert(then[i] <= had.segments[i].docs);
            assert(had.segments[i].docs == grown.segments[i].docs);
        }
        assert forall|i: int| 0 <= i < now.segments.len() implies (
        #[trigger] now.segments[i]).docs == grown.segments[i].docs by {
            assert(had.segments[i].docs == grown.segments[i].docs);
        }
        assert forall|i: int|
            0 <= i < hides.len() && (forall|k: int|
                0 <= k < n ==> (#[trigger] named[k]).0 != i) implies #[trigger] after[i]
            == hides[i] by {
            assert(named[n - 1].0 != i);
            assert(then[i] == hides[i]);
        }
    }
}

/// The counts of a manifest are right after a publish where they were right
/// before: how many documents its segments hold, and how many of them are not
/// deleted.
pub proof fn law_a_publish_keeps_the_counts(
    store: Store,
    segments: Seq<(u32, u64)>,
    created: u64,
    named: Seq<(usize, Set<u32>)>,
    before: Seq<u64>,
    published: Published,
    hides: Seq<nat>,
)
    requires
        publishes(store, segments, created, named, before, Ok::<Published, Error>(published)),
        counted(
            store.manifest.segments@,
            hides,
            store.manifest.live as int,
            store.manifest.total as int,
        ),
        before.len() == named.len(),
        forall|k: int|
            0 <= k < named.len() ==> #[trigger] before[k] == if named[k].0 < hides.len() {
                hides[named[k].0 as int]
            } else {
                0
            },
        store.manifest.total + docs_of(segments, segments.len() as int) <= u64::MAX,
    ensures
        counted(
            published.manifest.segments@,
            hides_after(
                hides + Seq::new(segments.len(), |i: int| 0nat),
                named,
                named.len() as int,
            ),
            published.manifest.live as int,
            published.manifest.total as int,
        ),
        published.manifest.total == store.manifest.total + docs_of(
            segments,
            segments.len() as int,
        ),
{
    let start = draft_of(store);
    let m = segments.len() as int;
    let n = named.len() as int;
    let grown = added_all(start, segments, created, m);
    let then = hides + Seq::new(segments.len(), |i: int| 0nat);
    lemma_added_counts(start, segments, created, hides, m);
    lemma_added_len(start, segments, created, m);
    lemma_named_below(named, start.segments.len() + m, n);
    assert forall|k: int| 0 <= k < named.len() implies #[trigger] before[k]
        == then[named[k].0 as int] by {}
    lemma_hidden_counts(grown, named, before, then, n);
}

/// The counts of a manifest are right after documents are deleted where they were
/// right before.
pub proof fn law_a_delete_keeps_the_counts(
    store: Store,
    at: int,
    deleted: Set<u32>,
    hides: Seq<nat>,
)
    requires
        0 <= at < store.manifest.segments@.len(),
        !strays(deleted, store.manifest.segments@[at].docs),
        counted(
            store.manifest.segments@,
            hides,
            store.manifest.live as int,
            store.manifest.total as int,
        ),
    ensures
        ({
            let made = hidden(draft_of(store), at, deleted, hides[at] as u64);
            counted(made.segments, hides.update(at, deleted.len()), made.live, made.total)
        }),
{
    let start = draft_of(store);
    let made = hidden(start, at, deleted, hides[at] as u64);
    let next = hiding(start.segments[at], deleted, start.end as u64);
    assert forall|d: u32| #[trigger] deleted.contains(d) implies d < start.segments[at].docs by {}
    lemma_below(deleted, start.segments[at].docs);
    lemma_update_counts(start.segments, hides, at, next, deleted.len());
    assert(hides[at] <= start.segments[at].docs);
    assert(made.segments == start.segments.update(at, next));
    let after = hides.update(at, deleted.len());
    assert forall|i: int| 0 <= i < made.segments.len() implies #[trigger] after[i]
        <= made.segments[i].docs by {
        assert(hides[i] <= start.segments[i].docs);
    }
}

proof fn lemma_joined_counts(
    a: Seq<Segment>,
    b: Seq<Segment>,
    x: Seq<nat>,
    y: Seq<nat>,
)
    requires
        a.len() == x.len(),
        b.len() == y.len(),
    ensures
        docs_in(a + b) == docs_in(a) + docs_in(b),
        live_in(a + b, x + y) == live_in(a, x) + live_in(b, y),
    decreases b.len(),
{
    if b.len() == 0 {
        assert(a + b =~= a);
        assert(x + y =~= x);
    } else {
        let last = b.len() - 1;
        lemma_joined_counts(a, b.drop_last(), x, y.take(last));
        assert((a + b).drop_last() =~= a + b.drop_last());
        assert((x + y).take((a + b).len() - 1) =~= x + y.take(last));
    }
}

/// How many documents of a source are live: those it holds, without those it
/// hides.
proof fn lemma_live_count(source: Source)
    requires
        source.index.wf(),
        forall|d: u32|
            #[trigger] source.deleted@.contains(d) ==> d < source.index.lengths@.len(),
    ensures
        source.deleted@.len() <= source.index.lengths@.len(),
        source.live_count() == source.index.lengths@.len() - source.deleted@.len(),
{
    let n = source.index.lengths@.len() as int;
    let gone = |d: int| 0 <= d < n && source.deleted@.contains(d as u32);
    lemma_below(source.deleted@, n as u32);
    lemma_count_set(gone, n);
    assert(below(gone, n) =~= source.deleted@);
    lemma_count_other(source.lives(), gone, n);
}

/// Of a range, what one predicate does not count the opposite one does.
proof fn lemma_count_other(f: spec_fn(int) -> bool, g: spec_fn(int) -> bool, n: int)
    requires
        0 <= n,
        forall|i: int| 0 <= i < n ==> #[trigger] f(i) == !g(i),
    ensures
        count(f, 0, n) + count(g, 0, n) == n,
    decreases n,
{
    if n > 0 {
        lemma_count_other(f, g, n - 1);
        assert(f(n - 1) == !g(n - 1));
    }
}

/// What a merge numbers is what its sources hold without what they hide.
proof fn lemma_live_before(
    sources: Seq<Source>,
    segments: Seq<Segment>,
    hides: Seq<nat>,
    n: int,
)
    requires
        0 <= n <= sources.len() == segments.len() == hides.len(),
        forall|s: int|
            0 <= s < sources.len() ==> {
                &&& (#[trigger] sources[s]).index.wf()
                &&& sources[s].index.lengths@.len() == segments[s].docs
                &&& sources[s].deleted@.len() == hides[s]
                &&& forall|d: u32| #[trigger]
                    sources[s].deleted@.contains(d) ==> d < segments[s].docs
            },
    ensures
        live_before(sources, n) == live_in(segments.take(n), hides.take(n)),
    decreases n,
{
    if n > 0 {
        lemma_live_before(sources, segments, hides, n - 1);
        assert(sources[n - 1].index.wf());
        lemma_live_count(sources[n - 1]);
        assert(segments.take(n).drop_last() =~= segments.take(n - 1));
        assert(hides.take(n).take(n - 1) =~= hides.take(n - 1));
    }
}

/// The counts of a manifest are right after a fold where they were right before:
/// a fold drops what was deleted, so that fewer documents are held and as many
/// are not deleted.
pub proof fn law_a_fold_keeps_the_counts(
    store: Store,
    start: usize,
    end: usize,
    level: Option<u32>,
    sources: Seq<Source>,
    merged: Merged,
    len: u64,
    created: u64,
    prefixes: Vec<u64>,
    folding: Folding,
    hides: Seq<nat>,
)
    requires
        folds(
            store,
            start,
            end,
            level,
            merged,
            len,
            created,
            prefixes,
            Ok::<Folding, Error>(folding),
        ),
        counted(
            store.manifest.segments@,
            hides,
            store.manifest.live as int,
            store.manifest.total as int,
        ),
        sources.len() == end - start,
        forall|s: int|
            0 <= s < sources.len() ==> {
                &&& (#[trigger] sources[s]).index.wf()
                &&& sources[s].index.lengths@.len() == store.manifest.segments@[start + s].docs
                &&& sources[s].deleted@.len() == hides[start + s]
                &&& forall|d: u32| #[trigger]
                    sources[s].deleted@.contains(d) ==> d < store.manifest.segments@[start
                        + s].docs
            },
        merged.documents == live_before(sources, sources.len() as int),
    ensures
        ({
            let kept = if merged.documents == 0 {
                hides.take(start as int) + hides.skip(end as int)
            } else {
                hides.take(start as int).push(0nat) + hides.skip(end as int)
            };
            counted(
                folding.manifest.segments@,
                kept,
                folding.manifest.live as int,
                folding.manifest.total as int,
            )
        }),
{
    let was = store.manifest.segments@;
    let n = was.len() as int;
    let run = was.subrange(start as int, end as int);
    let hidden_in = hides.subrange(start as int, end as int);
    let front = was.take(start as int);
    let back = was.skip(end as int);
    let x = hides.take(start as int);
    let y = hides.skip(end as int);
    assert forall|s: int| 0 <= s < sources.len() implies {
        &&& (#[trigger] sources[s]).index.wf()
        &&& sources[s].index.lengths@.len() == run[s].docs
        &&& sources[s].deleted@.len() == hidden_in[s]
        &&& forall|d: u32| #[trigger] sources[s].deleted@.contains(d) ==> d < run[s].docs
    } by {
        assert(run[s] == was[start + s]);
    }
    lemma_live_before(sources, run, hidden_in, sources.len() as int);
    assert(run.take(sources.len() as int) =~= run);
    assert(hidden_in.take(sources.len() as int) =~= hidden_in);
    assert(was =~= (front + run) + back);
    assert(hides =~= (x + hidden_in) + y);
    lemma_joined_counts(front + run, back, x + hidden_in, y);
    lemma_joined_counts(front, run, x, hidden_in);
    assert forall|i: int| 0 <= i < run.len() implies #[trigger] hidden_in[i] <= run[i].docs by {
        assert(hides[start + i] <= was[start + i].docs);
    }
    lemma_live_bounds(run, hidden_in);
    let now = folding.manifest.segments@;
    let kept = if merged.documents == 0 {
        x + y
    } else {
        x.push(0nat) + y
    };
    match folding.replacement {
        Some(segment) => {
            lemma_push_counts(front, x, segment, 0);
            lemma_joined_counts(front.push(segment), back, x.push(0nat), y);
        },
        None => {
            lemma_joined_counts(front, back, x, y);
        },
    }
    assert(now == spliced(was, start as int, end as int, folding.replacement));
    assert forall|i: int| 0 <= i < now.len() implies #[trigger] kept[i] <= now[i].docs by {
        if i < start {
            assert(hides[i] <= was[i].docs);
        } else {
            let one = if folding.replacement is Some {
                1int
            } else {
                0int
            };
            if i >= start + one {
                let j = i - one + (end - start);
                assert(hides[j] <= was[j].docs);
            }
        }
    }
}

} // verus!

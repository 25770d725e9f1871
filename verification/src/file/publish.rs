//! What a commit of segments and deletions makes of a store.
use super::{hiding, minus, plus, strays, write_tombstones, Fold, Store, Tombstones};
use crate::bitmap::format::encoded;
use crate::bitmap::{lemma_below, Bitmap};
use crate::compact::{carries, first_uncarried, Indexed, Merged, Source};
use crate::error::{Error, Result};
use crate::file::view::View as StoreView;
use crate::manifest::{blank, next_page, page_up, Manifest, Segment};
use crate::segment;
use vstd::prelude::*;

verus! {

/// A set of deletions for one segment of a manifest.
pub open spec fn sets(deletions: Seq<(usize, Bitmap)>) -> Seq<(usize, Set<u32>)> {
    deletions.map_values(|d: (usize, Bitmap)| (d.0, d.1@))
}

/// The first thing wrong with which segments some deletions name: one named
/// twice, or one that is not among the first `limit`.
pub open spec fn misnamed(
    deletions: Seq<(usize, Set<u32>)>,
    limit: int,
    n: int,
) -> Option<Error>
    decreases n,
{
    if n <= 0 {
        None
    } else {
        match misnamed(deletions, limit, n - 1) {
            Some(error) => Some(error),
            None => {
                let at = deletions[n - 1].0;
                if exists|k: int| 0 <= k < n - 1 && (#[trigger] deletions[k]).0 == at {
                    Some(Error::RepeatedSegment { at })
                } else if at >= limit {
                    Some(Error::MissingSection { kind: 0 })
                } else {
                    None
                }
            },
        }
    }
}

/// A segment of a run as it was opened: its sections and its index, or what is wrong
/// with either.
pub struct Opened {
    pub segment: Result<segment::Segment>,
    pub index: Result<Indexed>,
}

impl Opened {
    pub open spec fn wf(&self) -> bool {
        self.index matches Ok(index) ==> index.wf()
    }
}

/// Whether a segment of a view can go into a merge: its bytes are there, its
/// deletions decode and are its own, it is an index, and it holds nothing a merge
/// would drop.
pub open spec fn can_merge(view: &StoreView<'_>, at: int, opened: Opened) -> bool {
    &&& view.segment_bytes(at) is Some
    &&& view.deleted_of(at) is Ok
    &&& opened.segment matches Ok(segment) && first_uncarried(segment.sections@) is None
    &&& opened.index is Ok
    &&& view.deleted_of(at) matches Ok(Some(gone)) ==> !strays(
        gone,
        opened.index->Ok_0.lengths@.len() as u32,
    )
}

/// What is said of a segment that cannot.
pub open spec fn cannot_merge(
    view: &StoreView<'_>,
    at: int,
    opened: Opened,
    error: Error,
) -> bool {
    if view.segment_bytes(at) is None {
        error == (Error::MissingSection { kind: 0 })
    } else {
        match (view.deleted_of(at), opened.segment) {
            (Err(wrong), _) => error == wrong,
            (Ok(_), Err(wrong)) => error == wrong,
            (Ok(gone), Ok(segment)) => match (first_uncarried(segment.sections@), opened.index) {
                (Some(kind), _) => error == (Error::UncarriedSection { kind }),
                (None, Err(wrong)) => error == wrong,
                (None, Ok(index)) => {
                    &&& gone matches Some(set)
                    &&& error matches Error::NoSuchDocument { doc, documents }
                    &&& set.contains(doc)
                    &&& forall|d: u32| #[trigger] set.contains(d) ==> d <= doc
                    &&& documents == index.lengths@.len()
                },
            },
        }
    }
}

/// What a segment of a view hides.
pub open spec fn gone_from(view: &StoreView<'_>, at: int) -> Set<u32> {
    match view.deleted_of(at) {
        Ok(Some(gone)) => gone,
        _ => Set::empty(),
    }
}

/// Segment `s` of a run is the first that cannot go into a merge, for the reason
/// that `error` gives.
pub open spec fn refused_at(
    view: &StoreView<'_>,
    start: int,
    opened: Seq<Opened>,
    s: int,
    error: Error,
) -> bool {
    &&& 0 <= s < opened.len()
    &&& forall|p: int|
        0 <= p < s ==> can_merge(view, start + p, #[trigger] opened[p])
    &&& !can_merge(view, start + s, opened[s])
    &&& cannot_merge(view, start + s, opened[s], error)
}

/// The sources of a merge of the segments from `start` on: each segment of a run as
/// it was opened, with the deletions that the view has beside it.
///
/// Reports what is wrong with the first that cannot go into a merge:
/// [`Error::MissingSection`] if its bytes are not there, what is wrong with its
/// deletions or with its sections, [`Error::UncarriedSection`] if it holds one that a
/// merge cannot carry across, what is wrong with its index, and
/// [`Error::NoSuchDocument`] if its deletions name a document it
/// does not hold.
pub fn gather(
    view: &StoreView<'_>,
    start: usize,
    opened: Vec<Opened>,
) -> (sources: Result<Vec<Source>>)
    requires
        start + opened@.len() <= usize::MAX,
        forall|s: int| 0 <= s < opened@.len() ==> (#[trigger] opened@[s]).wf(),
    ensures
        match sources {
            Ok(sources) => {
                &&& sources@.len() == opened@.len()
                &&& forall|s: int|
                    0 <= s < opened@.len() ==> {
                        &&& can_merge(view, start + s, opened@[s])
                        &&& opened@[s].index == Ok::<Indexed, Error>((#[trigger] sources@[s]).index)
                        &&& sources@[s].deleted@ == gone_from(view, start + s)
                    }
            },
            Err(error) => exists|s: int| #[trigger] refused_at(view, start as int, opened@, s, error),
        },
{
    let mut left = opened;
    let mut sources: Vec<Source> = Vec::new();
    while left.len() > 0
        invariant
            start + opened@.len() <= usize::MAX,
            sources@.len() + left@.len() == opened@.len(),
            left@ == opened@.skip(sources@.len() as int),
            forall|s: int| 0 <= s < opened@.len() ==> (#[trigger] opened@[s]).wf(),
            forall|p: int|
                0 <= p < sources@.len() ==> can_merge(view, start + p, #[trigger] opened@[p]),
            forall|p: int|
                0 <= p < sources@.len() ==> {
                    &&& opened@[p].index == Ok::<Indexed, Error>((#[trigger] sources@[p]).index)
                    &&& sources@[p].deleted@ == gone_from(view, start + p)
                },
        decreases left.len(),
    {
        let ghost s = sources@.len() as int;
        let at: usize = start + sources.len();
        assert(left@[0] == opened@[s]);
        let next = left.remove(0);
        assert(left@ =~= opened@.skip(s + 1));
        match source_at(view, at, next) {
            Ok(source) => {
                sources.push(source);
            },
            Err(error) => {
                assert(refused_at(view, start as int, opened@, s, error));
                return Err(error);
            },
        }
    }
    Ok(sources)
}

/// One source of a merge.
fn source_at(view: &StoreView<'_>, at: usize, opened: Opened) -> (source: Result<Source>)
    requires
        opened.wf(),
    ensures
        match source {
            Ok(source) => {
                &&& can_merge(view, at as int, opened)
                &&& opened.index == Ok::<Indexed, Error>(source.index)
                &&& source.deleted@ == gone_from(view, at as int)
            },
            Err(error) => {
                &&& !can_merge(view, at as int, opened)
                &&& cannot_merge(view, at as int, opened, error)
            },
        },
{
    if view.bytes(at).is_none() {
        return Err(Error::MissingSection { kind: 0 });
    }
    let deleted = match view.deleted(at) {
        Ok(deleted) => deleted,
        Err(error) => {
            return Err(error);
        },
    };
    let segment = match opened.segment {
        Ok(segment) => segment,
        Err(error) => {
            return Err(error);
        },
    };
    match carries(&segment) {
        Ok(()) => {},
        Err(error) => {
            return Err(error);
        },
    }
    match opened.index {
        Ok(index) => Source::new(&segment, index, deleted),
        Err(error) => Err(error),
    }
}

/// A store as a commit under way makes it.
pub struct Draft {
    pub segments: Seq<Segment>,
    pub live: int,
    pub total: int,
    pub end: int,
    pub wrote: bool,
}

/// A segment of `docs` documents and `len` bytes added.
pub open spec fn added(draft: Draft, docs: u32, len: u64, created: u64) -> Draft {
    Draft {
        segments: draft.segments.push(
            Segment { offset: draft.end as u64, len, docs, created, ..blank() },
        ),
        live: plus(draft.live, docs as int),
        total: plus(draft.total, docs as int),
        end: next_page(draft.end + len),
        wrote: true,
    }
}

pub open spec fn added_all(
    draft: Draft,
    segments: Seq<(u32, u64)>,
    created: u64,
    n: int,
) -> Draft
    decreases n,
{
    if n <= 0 {
        draft
    } else {
        added(
            added_all(draft, segments, created, n - 1),
            segments[n - 1].0,
            segments[n - 1].1,
            created,
        )
    }
}

/// Where a set of deletions written at `end` ends: an empty one takes nothing.
pub open spec fn set_end(end: int, deleted: Set<u32>) -> int {
    if deleted == Set::<u32>::empty() {
        end
    } else {
        next_page(end + encoded(deleted).len())
    }
}

/// A set of deletions put beside a segment that hid `was` documents before.
pub open spec fn hidden(draft: Draft, at: int, deleted: Set<u32>, was: u64) -> Draft {
    let next = hiding(draft.segments[at], deleted, draft.end as u64);
    Draft {
        segments: draft.segments.update(at, next),
        live: minus(plus(draft.live, was as int), deleted.len() as int),
        total: draft.total,
        end: set_end(draft.end, deleted),
        wrote: draft.wrote || deleted != Set::<u32>::empty(),
    }
}

pub open spec fn hidden_all(
    draft: Draft,
    deletions: Seq<(usize, Set<u32>)>,
    before: Seq<u64>,
    n: int,
) -> Draft
    decreases n,
{
    if n <= 0 {
        draft
    } else {
        hidden(
            hidden_all(draft, deletions, before, n - 1),
            deletions[n - 1].0 as int,
            deletions[n - 1].1,
            before[n - 1],
        )
    }
}

/// The place of the first set that names a document its segment does not have.
pub open spec fn first_stray(
    draft: Draft,
    deletions: Seq<(usize, Set<u32>)>,
    n: int,
) -> Option<int>
    decreases n,
{
    if n <= 0 {
        None
    } else {
        match first_stray(draft, deletions, n - 1) {
            Some(k) => Some(k),
            None => if strays(
                deletions[n - 1].1,
                draft.segments[deletions[n - 1].0 as int].docs,
            ) {
                Some(n - 1)
            } else {
                None
            },
        }
    }
}

/// What a commit writes.
#[derive(Debug)]
pub struct Published {
    /// What the store says once it is committed, before the epoch and the log
    /// positions are filled in.
    pub manifest: Manifest,
    /// The sets of deletions to write, each at its segment's
    /// `tombstones_offset`, in order.
    pub tombstones: Vec<Tombstones>,
    /// Whether anything was written that has to be synced before the manifest.
    pub wrote: bool,
    /// Where the next append goes.
    pub end: u64,
}

impl Published {
    /// The plan is the draft.
    pub open spec fn is(&self, draft: Draft) -> bool {
        &&& self.manifest.segments@ == draft.segments
        &&& self.manifest.live == draft.live
        &&& self.manifest.total == draft.total
        &&& self.end == draft.end
        &&& self.wrote == draft.wrote
    }
}

/// The draft a commit starts from.
pub open spec fn draft_of(store: Store) -> Draft {
    Draft {
        segments: store.manifest.segments@,
        live: store.manifest.live as int,
        total: store.manifest.total as int,
        end: store.segments as int,
        wrote: false,
    }
}

/// What publishing `segments` with the deletions `named` comes to, where
/// `before` is how many documents each segment the deletions name hides now.
pub open spec fn publishes(
    store: Store,
    segments: Seq<(u32, u64)>,
    created: u64,
    named: Seq<(usize, Set<u32>)>,
    before: Seq<u64>,
    published: Result<Published>,
) -> bool {
    let n = named.len() as int;
    let grown = added_all(draft_of(store), segments, created, segments.len() as int);
    match misnamed(named, (store.manifest.segments@.len() + segments.len()) as int, n) {
        Some(error) => published matches Err(e) && e == error,
        None => match first_stray(grown, named, n) {
            Some(k) => {
                &&& published matches Err(Error::NoSuchDocument { doc, documents })
                &&& documents == grown.segments[named[k].0 as int].docs
                &&& named[k].1.contains(doc)
                &&& forall|d: u32| #[trigger] named[k].1.contains(d) ==> d <= doc
            },
            None => {
                &&& published matches Ok(p)
                &&& p.is(hidden_all(grown, named, before, n))
                &&& p.manifest.terms == store.manifest.terms
                &&& p.tombstones@.len() == n
                &&& forall|k: int|
                    0 <= k < n ==> {
                        let made = hidden_all(grown, named, before, k + 1);
                        &&& (#[trigger] p.tombstones@[k]).segment
                            == made.segments[named[k].0 as int]
                        &&& p.tombstones@[k].end == made.end
                        &&& p.tombstones@[k].bytes@ == if named[k].1 == Set::<u32>::empty() {
                            Seq::<u8>::empty()
                        } else {
                            encoded(named[k].1)
                        }
                    }
            },
        },
    }
}

/// Where the first `n` segments end, written one after another from `end` on.
pub open spec fn segments_end(end: int, segments: Seq<(u32, u64)>, n: int) -> int
    decreases n,
{
    if n <= 0 {
        end
    } else {
        next_page(segments_end(end, segments, n - 1) + segments[n - 1].1)
    }
}

/// Where the first `n` sets of deletions end, written one after another from `end` on.
pub open spec fn sets_end(end: int, named: Seq<(usize, Set<u32>)>, n: int) -> int
    decreases n,
{
    if n <= 0 {
        end
    } else {
        set_end(sets_end(end, named, n - 1), named[n - 1].1)
    }
}

/// What deleting documents of one segment comes to, where the segment hides `before`
/// documents now.
pub open spec fn deletes(
    store: Store,
    at: usize,
    deleted: Set<u32>,
    before: u64,
    published: Result<(Manifest, Tombstones)>,
) -> bool {
    if at >= store.manifest.segments@.len() {
        published matches Err(e) && e == (Error::MissingSection { kind: 0 })
    } else if strays(deleted, store.manifest.segments@[at as int].docs) {
        &&& published matches Err(Error::NoSuchDocument { doc, documents })
        &&& documents == store.manifest.segments@[at as int].docs
        &&& deleted.contains(doc)
        &&& forall|d: u32| #[trigger] deleted.contains(d) ==> d <= doc
    } else {
        let made = hidden(draft_of(store), at as int, deleted, before);
        &&& published matches Ok((manifest, tombstones))
        &&& manifest.segments@ == made.segments
        &&& manifest.live == made.live
        &&& manifest.total == made.total
        &&& manifest.terms == store.manifest.terms
        &&& tombstones.segment == made.segments[at as int]
        &&& tombstones.end == made.end
        &&& tombstones.bytes@ == if deleted == Set::<u32>::empty() {
            Seq::<u8>::empty()
        } else {
            encoded(deleted)
        }
    }
}

/// Everything a commit writes from `end` on ends within what an offset can say.
pub open spec fn fits(
    end: u64,
    segments: Seq<(u32, u64)>,
    named: Seq<(usize, Set<u32>)>,
) -> bool {
    sets_end(
        segments_end(end as int, segments, segments.len() as int),
        named,
        named.len() as int,
    ) <= u64::MAX
}

pub(crate) proof fn lemma_segments_end(
    draft: Draft,
    segments: Seq<(u32, u64)>,
    created: u64,
    n: int,
    m: int,
)
    requires
        0 <= n <= m,
        draft.end >= 0,
    ensures
        draft.end <= segments_end(draft.end, segments, n) <= segments_end(draft.end, segments, m),
        added_all(draft, segments, created, n).end == segments_end(draft.end, segments, n),
    decreases n, m,
{
    if n > 0 {
        lemma_segments_end(draft, segments, created, n - 1, n - 1);
    }
    if n < m {
        lemma_segments_end(draft, segments, created, n, m - 1);
    }
}

pub(crate) proof fn lemma_sets_end(
    draft: Draft,
    named: Seq<(usize, Set<u32>)>,
    before: Seq<u64>,
    n: int,
    m: int,
)
    requires
        0 <= n <= m,
        draft.end >= 0,
    ensures
        draft.end <= sets_end(draft.end, named, n) <= sets_end(draft.end, named, m),
        hidden_all(draft, named, before, n).end == sets_end(draft.end, named, n),
    decreases n, m,
{
    if n > 0 {
        lemma_sets_end(draft, named, before, n - 1, n - 1);
    }
    if n < m {
        lemma_sets_end(draft, named, before, n, m - 1);
    }
}

/// Checks which segments some deletions name, of `limit` there will be.
pub fn check_named(deletions: &Vec<(usize, Bitmap)>, limit: usize) -> (checked: Result<()>)
    ensures
        match misnamed(sets(deletions@), limit as int, deletions@.len() as int) {
            Some(error) => checked matches Err(e) && e == error,
            None => checked is Ok,
        },
{
    let ghost named = sets(deletions@);
    let mut n: usize = 0;
    while n < deletions.len()
        invariant
            n <= deletions@.len(),
            named == sets(deletions@),
            misnamed(named, limit as int, n as int) is None,
        decreases deletions.len() - n,
    {
        let at: usize = deletions[n].0;
        assert(named[n as int].0 == at);
        let mut repeated: bool = false;
        let mut k: usize = 0;
        while k < n
            invariant
                k <= n < deletions@.len(),
                named == sets(deletions@),
                repeated == exists|j: int| 0 <= j < k && (#[trigger] named[j]).0 == at,
            decreases n - k,
        {
            assert(named[k as int].0 == deletions@[k as int].0);
            if deletions[k].0 == at {
                repeated = true;
            }
            k = k + 1;
        }
        if repeated {
            proof {
                lemma_misnamed_stays(named, limit as int, n + 1, deletions@.len() as int);
            }
            return Err(Error::RepeatedSegment { at });
        }
        if at >= limit {
            proof {
                lemma_misnamed_stays(named, limit as int, n + 1, deletions@.len() as int);
            }
            return Err(Error::MissingSection { kind: 0 });
        }
        n = n + 1;
    }
    Ok(())
}

proof fn lemma_misnamed_stays(deletions: Seq<(usize, Set<u32>)>, limit: int, n: int, m: int)
    requires
        0 <= n <= m,
        misnamed(deletions, limit, n) is Some,
    ensures
        misnamed(deletions, limit, m) == misnamed(deletions, limit, n),
    decreases m - n,
{
    if n < m {
        lemma_misnamed_stays(deletions, limit, n, m - 1);
    }
}

pub(crate) proof fn lemma_named_below(deletions: Seq<(usize, Set<u32>)>, limit: int, n: int)
    requires
        0 <= n,
        misnamed(deletions, limit, n) is None,
    ensures
        forall|k: int| 0 <= k < n ==> (#[trigger] deletions[k]).0 < limit,
        forall|k: int, l: int|
            0 <= k < l < n ==> (#[trigger] deletions[k]).0 != (#[trigger] deletions[l]).0,
    decreases n,
{
    if n > 0 {
        lemma_named_below(deletions, limit, n - 1);
    }
}

pub(crate) proof fn lemma_added_len(draft: Draft, segments: Seq<(u32, u64)>, created: u64, n: int)
    requires
        0 <= n,
    ensures
        added_all(draft, segments, created, n).segments.len() == draft.segments.len() + n,
    decreases n,
{
    if n > 0 {
        lemma_added_len(draft, segments, created, n - 1);
    }
}

proof fn lemma_stray_stays(draft: Draft, deletions: Seq<(usize, Set<u32>)>, n: int, m: int)
    requires
        0 <= n <= m,
        first_stray(draft, deletions, n) is Some,
    ensures
        first_stray(draft, deletions, m) == first_stray(draft, deletions, n),
    decreases m - n,
{
    if n < m {
        lemma_stray_stays(draft, deletions, n, m - 1);
    }
}

/// Segments appended one after another start on a page, past everything that was
/// there, and do not land on top of each other.
pub proof fn law_appends_do_not_overlap(
    draft: Draft,
    segments: Seq<(u32, u64)>,
    created: u64,
    n: int,
)
    requires
        0 <= n <= segments.len(),
        draft.end >= 0,
        draft.end % 4096 == 0,
        added_all(draft, segments, created, n).end <= u64::MAX,
    ensures
        ({
            let now = added_all(draft, segments, created, n);
            let old_len = draft.segments.len();
            &&& now.end % 4096 == 0
            &&& now.end >= draft.end
            &&& now.segments.len() == old_len + n
            &&& forall|i: int|
                0 <= i < old_len ==> #[trigger] now.segments[i] == draft.segments[i]
            &&& forall|i: int|
                old_len <= i < now.segments.len() ==> {
                    &&& (#[trigger] now.segments[i]).offset % 4096 == 0
                    &&& draft.end <= now.segments[i].offset
                    &&& now.segments[i].offset + now.segments[i].len <= now.end
                }
            &&& forall|i: int, j: int|
                old_len <= i < j < now.segments.len() ==> (#[trigger] now.segments[i]).offset
                    + now.segments[i].len <= (#[trigger] now.segments[j]).offset
        }),
    decreases n,
{
    if n > 0 {
        let had = added_all(draft, segments, created, n - 1);
        let len = segments[n - 1].1;
        let now = added_all(draft, segments, created, n);
        assert(now.end == next_page(had.end + len));
        assert(had.end <= now.end) by {
            lemma_added_end(draft, segments, created, n - 1);
        }
        law_appends_do_not_overlap(draft, segments, created, n - 1);
        let old_len = draft.segments.len();
        assert forall|i: int| old_len <= i < now.segments.len() implies {
            &&& (#[trigger] now.segments[i]).offset % 4096 == 0
            &&& draft.end <= now.segments[i].offset
            &&& now.segments[i].offset + now.segments[i].len <= now.end
        } by {
            if i < had.segments.len() {
                assert(now.segments[i] == had.segments[i]);
            }
        }
        assert forall|i: int, j: int| old_len <= i < j < now.segments.len() implies (
        #[trigger] now.segments[i]).offset + now.segments[i].len <= (
        #[trigger] now.segments[j]).offset by {
            assert(now.segments[i] == had.segments[i]);
            if j < had.segments.len() {
                assert(now.segments[j] == had.segments[j]);
            }
        }
    }
}

proof fn lemma_added_end(draft: Draft, segments: Seq<(u32, u64)>, created: u64, n: int)
    requires
        draft.end >= 0,
    ensures
        added_all(draft, segments, created, n).end >= 0,
    decreases n,
{
    if n > 0 {
        lemma_added_end(draft, segments, created, n - 1);
    }
}

/// The segments of a commit that adds at most one.
pub open spec fn at_most_one(segment: Option<(u32, u64)>) -> Seq<(u32, u64)> {
    match segment {
        Some(added) => seq![added],
        None => Seq::empty(),
    }
}

impl Store {
    /// What a commit of at most one new segment and of deletions writes, and what
    /// the store then says.
    ///
    /// This is what replacing a document takes: the new copy and the deletion of
    /// the old one become visible together. As [`Store::publish_all`] in the rest.
    pub fn publish(
        &self,
        segment: Option<(u32, u64)>,
        created: u64,
        deletions: &Vec<(usize, Bitmap)>,
        before: &Vec<u64>,
    ) -> (published: Result<Published>)
        requires
            before@.len() == deletions@.len(),
            self.manifest.segments@.len() + at_most_one(segment).len() <= usize::MAX,
            fits(self.segments, at_most_one(segment), sets(deletions@)),
        ensures
            publishes(
                *self,
                at_most_one(segment),
                created,
                sets(deletions@),
                before@,
                published,
            ),
    {
        let mut segments: Vec<(u32, u64)> = Vec::new();
        if let Some(added) = segment {
            segments.push(added);
        }
        assert(segments@ =~= at_most_one(segment));
        self.publish_all(&segments, created, deletions, before)
    }

    /// What a commit of new segments and of deletions writes, and what the store
    /// then says.
    ///
    /// `segments` are the documents and the bytes of each new segment, and
    /// `before` is how many documents each segment the deletions name hides now:
    /// none for one that this commit adds, which answers to the position it is
    /// about to take.
    ///
    /// Reports [`Error::RepeatedSegment`] if a segment is named twice,
    /// [`Error::MissingSection`] if one is named that there will not be, and
    /// [`Error::NoSuchDocument`] if a set names a document its segment does not
    /// have.
    pub fn publish_all(
        &self,
        segments: &Vec<(u32, u64)>,
        created: u64,
        deletions: &Vec<(usize, Bitmap)>,
        before: &Vec<u64>,
    ) -> (published: Result<Published>)
        requires
            before@.len() == deletions@.len(),
            self.manifest.segments@.len() + segments@.len() <= usize::MAX,
            fits(self.segments, segments@, sets(deletions@)),
        ensures
            publishes(*self, segments@, created, sets(deletions@), before@, published),
    {
        let ghost named = sets(deletions@);
        let ghost start = draft_of(*self);
        let ghost grown = added_all(start, segments@, created, segments@.len() as int);
        proof {
            let all = segments@.len() as int;
            lemma_segments_end(start, segments@, created, all, all);
            lemma_sets_end(grown, named, before@, 0, deletions@.len() as int);
        }
        // The segments being added answer to the positions they are about to
        // take, and there is nothing committed there to read a count back from.
        assert(self.manifest.segments.len() + segments.len() <= usize::MAX);
        let limit: usize = self.manifest.segments.len() + segments.len();
        match check_named(deletions, limit) {
            Ok(()) => {},
            Err(error) => {
                return Err(error);
            },
        }
        let mut manifest = self.manifest.copy();
        let mut wrote: bool = false;
        let mut end: u64 = self.segments;
        let mut n: usize = 0;
        while n < segments.len()
            invariant
                n <= segments@.len(),
                start == draft_of(*self),
                segments_end(start.end, segments@, segments@.len() as int) <= u64::MAX,
                manifest.segments@ == added_all(start, segments@, created, n as int).segments,
                manifest.live == added_all(start, segments@, created, n as int).live,
                manifest.total == added_all(start, segments@, created, n as int).total,
                manifest.terms == self.manifest.terms,
                end == added_all(start, segments@, created, n as int).end,
                wrote == added_all(start, segments@, created, n as int).wrote,
            decreases segments.len() - n,
        {
            let (docs, len) = segments[n];
            proof {
                let next = added_all(start, segments@, created, n + 1);
                lemma_segments_end(start, segments@, created, n + 1, segments@.len() as int);
                assert(next.end == next_page(end + len));
            }
            let described = Segment { offset: end, len, docs, created, ..Segment::default() };
            end = page_up(end + len);
            wrote = true;
            manifest.segments.push(described);
            manifest.total = manifest.total.saturating_add(docs as u64);
            manifest.live = manifest.live.saturating_add(docs as u64);
            n = n + 1;
        }
        proof {
            lemma_added_len(start, segments@, created, segments@.len() as int);
            lemma_named_below(named, limit as int, deletions@.len() as int);
            lemma_segments_end(
                start,
                segments@,
                created,
                segments@.len() as int,
                segments@.len() as int,
            );
        }
        let mut tombstones: Vec<Tombstones> = Vec::new();
        let mut n: usize = 0;
        while n < deletions.len()
            invariant
                n <= deletions@.len(),
                before@.len() == deletions@.len(),
                named == sets(deletions@),
                misnamed(named, limit as int, deletions@.len() as int) is None,
                limit == self.manifest.segments@.len() + segments@.len(),
                grown == added_all(
                    draft_of(*self),
                    segments@,
                    created,
                    segments@.len() as int,
                ),
                grown.segments.len() == limit,
                forall|k: int| 0 <= k < deletions@.len() ==> (#[trigger] named[k]).0 < limit,
                forall|k: int, l: int|
                    0 <= k < l < deletions@.len() ==> (#[trigger] named[k]).0 != (
                    #[trigger] named[l]).0,
                grown.end >= 0,
                sets_end(grown.end, named, deletions@.len() as int) <= u64::MAX,
                first_stray(grown, named, n as int) is None,
                manifest.segments@ == hidden_all(grown, named, before@, n as int).segments,
                manifest.segments@.len() == limit,
                manifest.live == hidden_all(grown, named, before@, n as int).live,
                manifest.total == hidden_all(grown, named, before@, n as int).total,
                manifest.terms == self.manifest.terms,
                end == hidden_all(grown, named, before@, n as int).end,
                wrote == hidden_all(grown, named, before@, n as int).wrote,
                // A segment not named yet is as it was.
                forall|i: int|
                    0 <= i < limit && (forall|k: int| 0 <= k < n ==> (#[trigger] named[k]).0 != i)
                        ==> #[trigger] manifest.segments@[i] == grown.segments[i],
                tombstones@.len() == n,
                forall|k: int|
                    0 <= k < n ==> {
                        let made = hidden_all(grown, named, before@, k + 1);
                        &&& (#[trigger] tombstones@[k]).segment
                            == made.segments[named[k].0 as int]
                        &&& tombstones@[k].end == made.end
                        &&& tombstones@[k].bytes@ == if named[k].1 == Set::<u32>::empty() {
                            Seq::<u8>::empty()
                        } else {
                            encoded(named[k].1)
                        }
                    },
            decreases deletions.len() - n,
        {
            let at: usize = deletions[n].0;
            let deleted = &deletions[n].1;
            proof {
                assert(named[n as int].0 == at);
                assert(named[n as int].1 == deleted@);
                lemma_sets_end(grown, named, before@, n as int, n as int);
                lemma_sets_end(grown, named, before@, n + 1, deletions@.len() as int);
                assert(manifest.segments@[at as int] == grown.segments[at as int]) by {
                    assert forall|k: int| 0 <= k < n implies (#[trigger] named[k]).0 != at by {
                        assert(named[k].0 != named[n as int].0);
                    }
                }
            }
            // Out of the manifest being built rather than the committed one, so
            // that a set naming a segment this commit adds finds it.
            let described = manifest.segments[at];
            let ghost had = manifest.segments@;
            match write_tombstones(&described, deleted, end) {
                Ok(written) => {
                    proof {
                        assert(!strays(deleted@, described.docs));
                        assert forall|d: u32| #[trigger] deleted@.contains(d) implies d
                            < described.docs by {}
                        lemma_below(deleted@, described.docs);
                    }
                    wrote = wrote || written.bytes.len() != 0;
                    proof {
                        if deleted@ != Set::<u32>::empty() {
                            lemma_encoded_some(deleted@);
                        }
                        let now = hidden(
                            hidden_all(grown, named, before@, n as int),
                            at as int,
                            deleted@,
                            before@[n as int],
                        );
                        assert(now == hidden_all(grown, named, before@, n + 1));
                        assert(written.segment == now.segments[at as int]);
                    }
                    manifest.segments.set(at, written.segment);
                    manifest.live = manifest.live.saturating_add(before[n]).saturating_sub(
                        deleted.count(),
                    );
                    end = written.end;
                    tombstones.push(written);
                    proof {
                        assert forall|i: int|
                            0 <= i < limit && (forall|k: int|
                                0 <= k < n + 1 ==> (#[trigger] named[k]).0
                                    != i) implies #[trigger] manifest.segments@[i]
                            == grown.segments[i] by {
                            assert(named[n as int].0 != i);
                            assert(had[i] == grown.segments[i]);
                        }
                    }
                },
                Err(error) => {
                    proof {
                        assert(first_stray(grown, named, n + 1) == Some(n as int));
                        lemma_stray_stays(grown, named, n + 1, deletions@.len() as int);
                    }
                    return Err(error);
                },
            }
            n = n + 1;
        }
        Ok(Published { manifest, tombstones, wrote, end })
    }

    /// Where a commit of these segments and deletions would end, or nothing if it is
    /// past what an offset can say.
    pub fn end_with(&self, segments: &Vec<(u32, u64)>, deletions: &Vec<(usize, Bitmap)>) -> (end:
        Option<u64>)
        ensures
            end is Some == fits(self.segments, segments@, sets(deletions@)),
            end matches Some(e) ==> e == sets_end(
                segments_end(self.segments as int, segments@, segments@.len() as int),
                sets(deletions@),
                deletions@.len() as int,
            ),
    {
        let ghost named = sets(deletions@);
        let ghost start = draft_of(*self);
        let ghost grown = segments_end(start.end, segments@, segments@.len() as int);
        let ghost past = sets_end(grown, named, named.len() as int);
        let ghost draft = Draft { end: grown, ..start };
        proof {
            lemma_segments_end(start, segments@, 0, 0, segments@.len() as int);
            lemma_sets_end(draft, named, Seq::empty(), 0, named.len() as int);
        }
        let mut end: u64 = self.segments;
        let mut n: usize = 0;
        while n < segments.len()
            invariant
                n <= segments@.len(),
                start.end >= 0,
                grown == segments_end(start.end, segments@, segments@.len() as int),
                grown <= past,
                past == sets_end(grown, named, named.len() as int),
                named == sets(deletions@),
                start == draft_of(*self),
                end == segments_end(start.end, segments@, n as int),
            decreases segments.len() - n,
        {
            proof {
                lemma_segments_end(start, segments@, 0, n + 1, segments@.len() as int);
            }
            end = match past_of(end, segments[n].1) {
                Some(next) => next,
                None => {
                    return None;
                },
            };
            n = n + 1;
        }
        let mut n: usize = 0;
        while n < deletions.len()
            invariant
                n <= deletions@.len(),
                draft.end == grown >= 0,
                past == sets_end(grown, named, named.len() as int),
                named == sets(deletions@),
                grown == segments_end(self.segments as int, segments@, segments@.len() as int),
                end == sets_end(grown, named, n as int),
            decreases deletions.len() - n,
        {
            let deleted = &deletions[n].1;
            proof {
                assert(named[n as int].1 == deleted@);
                lemma_sets_end(draft, named, Seq::empty(), n + 1, named.len() as int);
                super::lemma_encoded_fits(deleted@);
            }
            if !deleted.is_empty() {
                end = match past_of(end, deleted.size() as u64) {
                    Some(next) => next,
                    None => {
                        return None;
                    },
                };
            }
            n = n + 1;
        }
        Some(end)
    }

    /// What deleting documents of one segment writes: the set beside it, and a
    /// live count with what it hid before put back and what it hides now taken
    /// off.
    pub fn delete(&self, at: usize, deleted: &Bitmap, before: u64) -> (published: Result<
        (Manifest, Tombstones),
    >)
        requires
            set_end(self.segments as int, deleted@) <= u64::MAX,
        ensures
            deletes(*self, at, deleted@, before, published),
    {
        if at >= self.manifest.segments.len() {
            return Err(Error::MissingSection { kind: 0 });
        }
        let segment = self.manifest.segments[at];
        let written = match write_tombstones(&segment, deleted, self.segments) {
            Ok(written) => written,
            Err(error) => {
                return Err(error);
            },
        };
        let mut manifest = self.manifest.copy();
        manifest.segments.set(at, written.segment);
        manifest.live = manifest.live.saturating_add(before).saturating_sub(deleted.count());
        Ok((manifest, written))
    }
}

/// The first page boundary past `len` bytes at `at`, where an offset can say it.
fn past_of(at: u64, len: u64) -> (past: Option<u64>)
    ensures
        match past {
            Some(past) => past == next_page(at + len),
            None => next_page(at + len) > u64::MAX,
        },
{
    let end: u64 = match at.checked_add(len) {
        Some(end) => end,
        None => {
            return None;
        },
    };
    if end > 0xffff_ffff_ffff_f000 {
        return None;
    }
    Some(page_up(end))
}

/// A set that holds something takes some bytes.
pub(crate) proof fn lemma_encoded_some(s: Set<u32>)
    ensures
        encoded(s).len() > 0,
{
    crate::bitmap::format::lemma_encoded_len(s);
}

// ---------------------------------------------------------------------------
// Folding.
// ---------------------------------------------------------------------------

/// What a fold of segments did.
#[derive(Debug, Clone, Copy, PartialEq, Eq, Structural)]
pub struct Compacted {
    pub epoch: u64,
    pub folded: usize,
    pub documents: u32,
    pub dropped: u64,
    pub terms: u32,
    pub bytes: u64,
    pub stranded: u64,
}

impl Default for Compacted {
    fn default() -> (compacted: Self)
        ensures
            compacted == (Compacted {
                epoch: 0,
                folded: 0,
                documents: 0,
                dropped: 0,
                terms: 0,
                bytes: 0,
                stranded: 0,
            }),
    {
        Compacted {
            epoch: 0,
            folded: 0,
            documents: 0,
            dropped: 0,
            terms: 0,
            bytes: 0,
            stranded: 0,
        }
    }
}

/// How many documents some segments hold.
pub open spec fn docs_in(segments: Seq<Segment>) -> nat
    decreases segments.len(),
{
    if segments.len() == 0 {
        0
    } else {
        docs_in(segments.drop_last()) + segments.last().docs as nat
    }
}

/// How many bytes of the file some segments and their deletions are.
pub open spec fn bytes_in(segments: Seq<Segment>) -> nat
    decreases segments.len(),
{
    if segments.len() == 0 {
        0
    } else {
        (bytes_in(segments.drop_last()) + plus(
            segments.last().len as int,
            segments.last().tombstones_len as int,
        )) as nat
    }
}

/// How deep the deepest of some segments is.
pub open spec fn deepest(segments: Seq<Segment>) -> u32
    decreases segments.len(),
{
    if segments.len() == 0 {
        0
    } else {
        let rest = deepest(segments.drop_last());
        if segments.last().level > rest {
            segments.last().level
        } else {
            rest
        }
    }
}

/// The level of the segment some are folded into: the one asked for, or one past
/// the deepest of them.
pub open spec fn fold_level(level: Option<u32>, segments: Seq<Segment>) -> u32 {
    match level {
        Some(level) => level,
        None => if deepest(segments) < u32::MAX {
            (deepest(segments) + 1) as u32
        } else {
            u32::MAX
        },
    }
}

/// The segments with those from `start` up to `end` replaced.
pub open spec fn spliced(
    segments: Seq<Segment>,
    start: int,
    end: int,
    replacement: Option<Segment>,
) -> Seq<Segment> {
    match replacement {
        Some(segment) => segments.take(start).push(segment) + segments.skip(end),
        None => segments.take(start) + segments.skip(end),
    }
}

/// What a fold writes and what it then says.
#[derive(Debug)]
pub struct Folding {
    /// What the store says once it is committed, before the epoch and the log
    /// positions are filled in.
    pub manifest: Manifest,
    /// The segment the others were folded into, or nothing if no document
    /// survived.
    pub replacement: Option<Segment>,
    pub fold: Fold,
    /// What was done, but for the epoch, which the commit gives.
    pub report: Compacted,
    /// Where the next append goes.
    pub end: u64,
}

/// What folding the segments from `start` up to `end` comes to.
pub open spec fn folds(
    store: Store,
    start: usize,
    end: usize,
    level: Option<u32>,
    merged: Merged,
    len: u64,
    created: u64,
    prefixes: Vec<u64>,
    folding: Result<Folding>,
) -> bool {
    if start >= end || end > store.manifest.segments@.len() {
        folding matches Err(e) && e == (Error::MissingSection { kind: 0 })
    } else {
        let was = store.manifest.segments@;
        let sources = was.subrange(start as int, end as int);
        let replacement = if merged.documents == 0 {
            None
        } else {
            Some(
                Segment {
                    offset: store.segments,
                    len,
                    docs: merged.documents,
                    created,
                    level: fold_level(level, sources),
                    ..blank()
                },
            )
        };
        &&& folding matches Ok(f)
        &&& f.replacement == replacement
        &&& f.manifest.segments@ == spliced(was, start as int, end as int, replacement)
        &&& f.manifest.total == plus(
            minus(store.manifest.total as int, docs_in(sources) as int),
            merged.documents as int,
        )
        &&& f.manifest.live == store.manifest.live
        &&& f.manifest.terms == store.manifest.terms
        &&& f.end == if replacement is None {
            store.segments as int
        } else {
            next_page(store.segments + len)
        }
        &&& f.fold.start == start
        &&& f.fold.end == end
        &&& f.fold.into == if replacement is None {
            None::<usize>
        } else {
            Some(start)
        }
        &&& f.fold.moved == merged.moved
        &&& f.fold.prefixes == prefixes
        &&& f.report == (Compacted {
            epoch: 0,
            folded: (end - start) as usize,
            documents: merged.documents,
            dropped: merged.dropped,
            terms: merged.terms,
            bytes: if replacement is None {
                0
            } else {
                len
            },
            stranded: bytes_in(sources) as u64,
        })
    }
}

impl Store {
    /// Whether there are segments from `start` up to `end` to fold.
    pub fn check_run(&self, start: usize, end: usize) -> (checked: Result<()>)
        ensures
            if start >= end || end > self.manifest.segments@.len() {
                checked matches Err(e) && e == (Error::MissingSection { kind: 0 })
            } else {
                checked is Ok
            },
    {
        if start >= end || end > self.manifest.segments.len() {
            return Err(Error::MissingSection { kind: 0 });
        }
        Ok(())
    }

    /// Folds a run and puts the replacement one level past the deepest segment in
    /// it. As [`compact_into`](Self::compact_into) with no level given.
    pub fn compact(
        &self,
        start: usize,
        end: usize,
        merged: Merged,
        len: u64,
        created: u64,
        prefixes: Vec<u64>,
    ) -> (folding: Result<Folding>)
        requires
            next_page(self.segments + len) <= u64::MAX,
            start <= end <= self.manifest.segments@.len() ==> bytes_in(
                self.manifest.segments@.subrange(start as int, end as int),
            ) <= u64::MAX && docs_in(
                self.manifest.segments@.subrange(start as int, end as int),
            ) <= u64::MAX,
        ensures
            folds(*self, start, end, None, merged, len, created, prefixes, folding),
    {
        self.compact_into(start, end, None, merged, len, created, prefixes)
    }

    /// What folding the segments from `start` up to `end` into the one they were
    /// merged into makes of the store.
    ///
    /// `len` is how many bytes the merged segment takes, and `prefixes` the
    /// layouts of the prefixes of the segments there are now, which is what the
    /// batches in flight were prepared against. A merge that no document
    /// survived adds no segment.
    ///
    /// Reports [`Error::MissingSection`] if there are no such segments.
    pub fn compact_into(
        &self,
        start: usize,
        end: usize,
        level: Option<u32>,
        merged: Merged,
        len: u64,
        created: u64,
        prefixes: Vec<u64>,
    ) -> (folding: Result<Folding>)
        requires
            next_page(self.segments + len) <= u64::MAX,
            start <= end <= self.manifest.segments@.len() ==> bytes_in(
                self.manifest.segments@.subrange(start as int, end as int),
            ) <= u64::MAX && docs_in(
                self.manifest.segments@.subrange(start as int, end as int),
            ) <= u64::MAX,
        ensures
            folds(*self, start, end, level, merged, len, created, prefixes, folding),
    {
        match self.check_run(start, end) {
            Ok(()) => {},
            Err(error) => {
                return Err(error);
            },
        }
        let ghost was = self.manifest.segments@;
        let ghost sources = was.subrange(start as int, end as int);
        let mut held: u64 = 0;
        let mut stranded: u64 = 0;
        let mut depth: u32 = 0;
        let mut segments: Vec<Segment> = Vec::new();
        let mut at: usize = 0;
        while at < start
            invariant
                at <= start < end <= self.manifest.segments@.len(),
                segments@ == self.manifest.segments@.take(at as int),
            decreases start - at,
        {
            segments.push(self.manifest.segments[at]);
            at = at + 1;
            assert(segments@ =~= self.manifest.segments@.take(at as int));
        }
        assert(sources.take(0) =~= Seq::<Segment>::empty());
        while at < end
            invariant
                start <= at <= end <= self.manifest.segments@.len(),
                was == self.manifest.segments@,
                sources == was.subrange(start as int, end as int),
                bytes_in(sources) <= u64::MAX,
                docs_in(sources) <= u64::MAX,
                held == docs_in(sources.take(at - start)),
                stranded == bytes_in(sources.take(at - start)),
                depth == deepest(sources.take(at - start)),
            decreases end - at,
        {
            let segment = self.manifest.segments[at];
            proof {
                let k = at - start;
                let more = sources.take(k + 1);
                assert(more.drop_last() =~= sources.take(k));
                assert(more.last() == segment);
                lemma_sums_grow(sources, k + 1);
            }
            held = held + segment.docs as u64;
            stranded = stranded + segment.len.saturating_add(segment.tombstones_len as u64);
            if segment.level > depth {
                depth = segment.level;
            }
            at = at + 1;
        }
        assert(sources.take(end - start) =~= sources);
        // One past the deepest source unless the caller said otherwise, which is
        // what a size tiered policy reads to tell a segment that has been folded
        // once from one that has been folded five times.
        let level: u32 = match level {
            Some(level) => level,
            None => depth.saturating_add(1),
        };
        let documents: u32 = merged.documents;
        let mut bytes: u64 = 0;
        let mut after: u64 = self.segments;
        let mut replacement: Option<Segment> = None;
        if documents != 0 {
            let described = Segment {
                offset: self.segments,
                len,
                docs: documents,
                created,
                level,
                ..Segment::default()
            };
            after = page_up(self.segments + len);
            bytes = len;
            replacement = Some(described);
            segments.push(described);
        }
        let ghost front = segments@;
        while at < self.manifest.segments.len()
            invariant
                end <= at <= self.manifest.segments@.len(),
                segments@ == front + self.manifest.segments@.subrange(end as int, at as int),
            decreases self.manifest.segments@.len() - at,
        {
            segments.push(self.manifest.segments[at]);
            at = at + 1;
            assert(segments@ =~= front + self.manifest.segments@.subrange(
                end as int,
                at as int,
            ));
        }
        proof {
            assert(was.subrange(end as int, was.len() as int) =~= was.skip(end as int));
            assert(segments@ =~= spliced(was, start as int, end as int, replacement));
        }
        let into: Option<usize> = if documents != 0 {
            Some(start)
        } else {
            None
        };
        let fold = Fold { start, end, into, moved: merged.moved, prefixes };
        let manifest = Manifest {
            segments,
            epoch: self.manifest.epoch,
            written: self.manifest.written,
            wal_head: self.manifest.wal_head,
            wal_tail: self.manifest.wal_tail,
            wal_sequence: self.manifest.wal_sequence,
            live: self.manifest.live,
            total: self.manifest.total.saturating_sub(held).saturating_add(documents as u64),
            terms: self.manifest.terms,
        };
        Ok(
            Folding {
                manifest,
                replacement,
                fold,
                report: Compacted {
                    epoch: 0,
                    folded: end - start,
                    documents,
                    dropped: merged.dropped,
                    terms: merged.terms,
                    bytes,
                    stranded,
                },
                end: after,
            },
        )
    }
}

proof fn lemma_sums_grow(segments: Seq<Segment>, n: int)
    requires
        0 <= n <= segments.len(),
    ensures
        docs_in(segments.take(n)) <= docs_in(segments),
        bytes_in(segments.take(n)) <= bytes_in(segments),
    decreases segments.len() - n,
{
    if n == segments.len() {
        assert(segments.take(n) =~= segments);
    } else {
        lemma_sums_grow(segments, n + 1);
        assert(segments.take(n + 1).drop_last() =~= segments.take(n));
    }
}

/// A fold leaves the segments before and after the run as they were, and their
/// number shrinks by what the fold says.
pub proof fn law_fold_keeps_the_rest(
    segments: Seq<Segment>,
    start: int,
    end: int,
    replacement: Option<Segment>,
)
    requires
        0 <= start < end <= segments.len(),
    ensures
        ({
            let now = spliced(segments, start, end, replacement);
            let one = if replacement is Some {
                1int
            } else {
                0int
            };
            &&& now.len() == segments.len() - (end - start) + one
            &&& forall|i: int| 0 <= i < start ==> #[trigger] now[i] == segments[i]
            &&& forall|i: int|
                end <= i < segments.len() ==> #[trigger] segments[i] == now[i - (end - start)
                    + one]
        }),
{
}

} // verus!

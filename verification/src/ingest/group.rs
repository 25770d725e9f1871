//! Several batches in one commit.
//!
//! The batches that are ready go into the file together and one manifest names
//! all of them, so the group pays what one of them would have. Which copy of a
//! key wins is decided by the order the batches are given in, exactly as it is
//! decided between commits.
use crate::bitmap::Bitmap;
use crate::error::{Error, Result};
use crate::file::publish::sets;
use crate::file::Store;
use crate::ingest::{fresh, Prepared};
use crate::keymap::{at_key, keys_ascend, KeyMap};
use crate::DocId;
use vstd::prelude::*;

verus! {

/// What the batches of a group come to.
#[verifier::ext_equal]
pub struct Group {
    /// What is deleted, by segment.
    pub deleted: Map<usize, Set<u32>>,
    /// Where the last copy of each key is, and which document it is.
    pub written: Map<Seq<u8>, (usize, DocId)>,
    /// How many documents each segment of the group holds.
    pub segments: Seq<u32>,
}

/// A set of deletions joined with whatever the group already deletes from that
/// segment.
pub open spec fn joined(
    deleted: Map<usize, Set<u32>>,
    at: usize,
    adding: Set<u32>,
) -> Map<usize, Set<u32>> {
    deleted.insert(
        at,
        if deleted.dom().contains(at) {
            deleted[at].union(adding)
        } else {
            adding
        },
    )
}

/// The first `n` deletions of a batch joined in. The batch names the segment it
/// builds by the position one past the last committed one.
pub open spec fn all_joined(
    deleted: Map<usize, Set<u32>>,
    deletions: Seq<(usize, Set<u32>)>,
    base: usize,
    position: usize,
    n: int,
) -> Map<usize, Set<u32>>
    decreases n,
{
    if n <= 0 {
        deleted
    } else {
        joined(
            all_joined(deleted, deletions, base, position, n - 1),
            if deletions[n - 1].0 == base {
                position
            } else {
                deletions[n - 1].0
            },
            deletions[n - 1].1,
        )
    }
}

/// A key written at a position. The copy it was written under before stops
/// answering the moment its segment appears.
pub open spec fn key_written(group: Group, key: Seq<u8>, position: usize, doc: DocId) -> Group {
    Group {
        written: group.written.insert(key, (position, doc)),
        deleted: if group.written.dom().contains(key) {
            joined(
                group.deleted,
                group.written[key].0,
                Set::empty().insert(group.written[key].1),
            )
        } else {
            group.deleted
        },
        ..group
    }
}

/// The first `n` keys of a batch written at its position.
pub open spec fn keys_written(
    group: Group,
    keys: Seq<(Vec<u8>, DocId)>,
    position: usize,
    n: int,
) -> Group
    decreases n,
{
    if n <= 0 {
        group
    } else {
        key_written(
            keys_written(group, keys, position, n - 1),
            keys[n - 1].0@,
            position,
            keys[n - 1].1,
        )
    }
}

/// One batch put in a group.
pub open spec fn with_part(group: Group, part: Prepared, base: usize) -> Group {
    let position = (base + group.segments.len()) as usize;
    let named = Group {
        deleted: all_joined(
            group.deleted,
            sets(part.deletions@),
            base,
            position,
            part.deletions@.len() as int,
        ),
        ..group
    };
    match part.segment {
        Some((_, docs)) => Group {
            segments: group.segments.push(docs),
            ..keys_written(named, part.keys@, position, part.keys@.len() as int)
        },
        None => named,
    }
}

/// The first `n` batches put together, over a store of `base` segments.
pub open spec fn group_of(parts: Seq<Prepared>, base: usize, n: int) -> Group
    decreases n,
{
    if n <= 0 {
        Group { deleted: Map::empty(), written: Map::empty(), segments: Seq::empty() }
    } else {
        with_part(group_of(parts, base, n - 1), parts[n - 1], base)
    }
}

/// The position the segment of batch `p` takes.
pub open spec fn position_of(parts: Seq<Prepared>, base: usize, p: int) -> int {
    base + group_of(parts, base, p).segments.len()
}

/// Whether a batch names a segment of its own that it did not build.
pub open spec fn names_nothing(part: Prepared, base: usize) -> bool {
    part.segment is None && exists|d: int|
        0 <= d < part.deletions@.len() && (#[trigger] part.deletions@[d]).0 == base
}

/// A list of sets, one for each segment that has one, in order.
pub open spec fn lists(list: Seq<(usize, Set<u32>)>, deleted: Map<usize, Set<u32>>) -> bool {
    &&& forall|i: int, j: int|
        0 <= i < j < list.len() ==> (#[trigger] list[i]).0 < (#[trigger] list[j]).0
    &&& forall|i: int|
        0 <= i < list.len() ==> deleted.dom().contains((#[trigger] list[i]).0)
            && deleted[list[i].0] == list[i].1
    &&& forall|at: usize| #[trigger]
        deleted.dom().contains(at) ==> exists|i: int|
            0 <= i < list.len() && (#[trigger] list[i]).0 == at
}

/// The first batch of a group that was prepared on another state.
pub open spec fn first_stale_part(parts: Seq<Prepared>, committed: u64, n: int) -> Option<Error>
    decreases n,
{
    if n <= 0 {
        None
    } else {
        match first_stale_part(parts, committed, n - 1) {
            Some(error) => Some(error),
            None => if parts[n - 1].epoch != committed {
                Some(Error::StaleView { read: parts[n - 1].epoch, committed })
            } else {
                None
            },
        }
    }
}

/// What a group adds to a store.
#[derive(Debug)]
pub struct Grouped {
    /// How many documents and bytes each segment has.
    pub segments: Vec<(u32, u64)>,
    /// The whole set of deletions of each segment that has one, in order.
    pub deletions: Vec<(usize, Bitmap)>,
}

/// Adds a set of deletions to whatever the group already deletes from that
/// segment.
fn union(held: &mut Vec<(usize, Bitmap)>, at: usize, adding: &Bitmap, Ghost(deleted): Ghost<
    Map<usize, Set<u32>>,
>)
    requires
        lists(sets(old(held)@), deleted),
    ensures
        lists(sets(final(held)@), joined(deleted, at, adding@)),
{
    let ghost was = held@;
    let mut i: usize = 0;
    while i < held.len() && held[i].0 < at
        invariant
            i <= held@.len(),
            held@ == was,
            forall|k: int| 0 <= k < i ==> (#[trigger] was[k]).0 < at,
        decreases held.len() - i,
    {
        i = i + 1;
    }
    let ghost list = sets(was);
    let ghost next = joined(deleted, at, adding@);
    proof {
        assert forall|k: int| 0 <= k < was.len() implies (#[trigger] list[k]).0 == was[k].0
            && list[k].1 == was[k].1@ by {}
        assert forall|k: int, l: int| 0 <= k < l < was.len() implies (#[trigger] was[k]).0
            < (#[trigger] was[l]).0 by {
            assert(list[k].0 < list[l].0);
        }
    }
    if i < held.len() && held[i].0 == at {
        let mut set: Bitmap = held[i].1.clone();
        set.union_with(adding);
        held.set(i, (at, set));
        proof {
            let after = sets(held@);
            assert(after =~= list.update(i as int, (at, next[at]))) by {
                assert(list[i as int].0 == at);
                assert(next[at] =~= set@);
            }
            assert forall|t: usize| #[trigger] next.dom().contains(t) implies exists|k: int|
                0 <= k < after.len() && (#[trigger] after[k]).0 == t by {
                if t == at {
                    assert(after[i as int].0 == t);
                } else {
                    assert(deleted.dom().contains(t));
                    let k = choose|k: int| 0 <= k < list.len() && (#[trigger] list[k]).0 == t;
                    assert(after[k].0 == t);
                }
            }
        }
    } else {
        held.insert(i, (at, adding.clone()));
        proof {
            let after = sets(held@);
            assert forall|k: int| 0 <= k < list.len() implies (#[trigger] list[k]).0 != at by {
                if k >= i {
                    assert(was[i as int].0 <= was[k].0);
                }
            }
            assert(!deleted.dom().contains(at));
            assert forall|k: int| 0 <= k < after.len() implies #[trigger] after[k] == if k < i {
                list[k]
            } else if k == i {
                (at, adding@)
            } else {
                list[k - 1]
            } by {}
            assert forall|k: int, l: int| 0 <= k < l < after.len() implies (#[trigger] after[k]).0
                < (#[trigger] after[l]).0 by {
                if k < i && l > i {
                    assert(was[k].0 < was[l - 1].0);
                } else if k == i {
                    assert(was[i as int].0 <= was[l - 1].0);
                    assert(list[i as int].0 != at);
                } else if l == i {
                    assert(was[k].0 < at);
                } else if k > i {
                    assert(was[k - 1].0 < was[l - 1].0);
                } else {
                    assert(was[k].0 < was[l].0);
                }
            }
            assert forall|t: usize| #[trigger] next.dom().contains(t) implies exists|k: int|
                0 <= k < after.len() && (#[trigger] after[k]).0 == t by {
                if t == at {
                    assert(after[i as int].0 == t);
                } else {
                    assert(deleted.dom().contains(t));
                    let k = choose|k: int| 0 <= k < list.len() && (#[trigger] list[k]).0 == t;
                    if k < i {
                        assert(after[k].0 == t);
                    } else {
                        assert(after[k + 1].0 == t);
                    }
                }
            }
        }
    }
}

/// Joins the deletions of one batch in, or reports that it names a segment of
/// its own that it did not build.
fn join_all(
    held: &mut Vec<(usize, Bitmap)>,
    part: &Prepared,
    base: usize,
    position: usize,
    Ghost(deleted): Ghost<Map<usize, Set<u32>>>,
) -> (joined_in: Result<()>)
    requires
        lists(sets(old(held)@), deleted),
    ensures
        if names_nothing(*part, base) {
            joined_in matches Err(e) && e == (Error::MissingSection { kind: 0 })
        } else {
            joined_in is Ok && lists(
                sets(final(held)@),
                all_joined(
                    deleted,
                    sets(part.deletions@),
                    base,
                    position,
                    part.deletions@.len() as int,
                ),
            )
        },
{
    let mut d: usize = 0;
    while d < part.deletions.len()
        invariant
            d <= part.deletions@.len(),
            part.segment is None ==> forall|k: int|
                0 <= k < d ==> (#[trigger] part.deletions@[k]).0 != base,
            lists(
                sets(held@),
                all_joined(deleted, sets(part.deletions@), base, position, d as int),
            ),
        decreases part.deletions.len() - d,
    {
        let target: usize = part.deletions[d].0;
        let ghost now = all_joined(deleted, sets(part.deletions@), base, position, d as int);
        assert(sets(part.deletions@)[d as int] == (target, part.deletions@[d as int].1@));
        let at: usize = if target == base {
            if part.segment.is_none() {
                assert(part.deletions@[d as int].0 == base);
                return Err(Error::MissingSection { kind: 0 });
            }
            position
        } else {
            target
        };
        union(held, at, &part.deletions[d].1, Ghost(now));
        d = d + 1;
    }
    Ok(())
}

/// Writes the keys of one batch, deleting the copy each was written under
/// before.
fn write_keys(
    held: &mut Vec<(usize, Bitmap)>,
    written: &mut KeyMap<(usize, DocId)>,
    part: &Prepared,
    position: usize,
    Ghost(group): Ghost<Group>,
)
    requires
        lists(sets(old(held)@), group.deleted),
        old(written).wf(),
        old(written)@ == group.written,
    ensures
        final(written).wf(),
        ({
            let next = keys_written(group, part.keys@, position, part.keys@.len() as int);
            lists(sets(final(held)@), next.deleted) && final(written)@ == next.written
        }),
{
    let mut k: usize = 0;
    while k < part.keys.len()
        invariant
            k <= part.keys@.len(),
            written.wf(),
            ({
                let next = keys_written(group, part.keys@, position, k as int);
                lists(sets(held@), next.deleted) && written@ == next.written
            }),
        decreases part.keys.len() - k,
    {
        let ghost now = keys_written(group, part.keys@, position, k as int);
        let key = vstd::slice::slice_to_vec(part.keys[k].0.as_slice());
        let doc: DocId = part.keys[k].1;
        match written.insert(key, (position, doc)) {
            Some((was_in, was)) => {
                // The earlier copy is in a segment of this same commit and it
                // stops answering the moment that segment appears, so the store
                // never shows both.
                let mut one = Bitmap::new();
                one.insert(was);
                union(held, was_in, &one, Ghost(now.deleted));
            },
            None => {},
        }
        k = k + 1;
    }
}

/// Keeps how many segments there are apart from what the keys and deletions do.
proof fn lemma_segments(group: Group, keys: Seq<(Vec<u8>, DocId)>, position: usize, n: int)
    ensures
        keys_written(group, keys, position, n).segments == group.segments,
    decreases n,
{
    if n > 0 {
        lemma_segments(group, keys, position, n - 1);
    }
}

/// What a group of prepared batches adds to a store, each segment taking the
/// bytes `lens` gives it.
///
/// The batches are put in the order they are given, which is the order a key
/// written by two of them is decided by: the last one to write a key is the one
/// that answers to it and the copies before it are deleted.
///
/// Reports [`Error::StaleView`] if any of the batches was prepared against a
/// state the store has moved on from, and [`Error::MissingSection`] if a batch
/// names a segment of its own that it did not build.
pub fn commit_all(store: &Store, parts: &Vec<Prepared>, lens: &Vec<u64>) -> (grouped: Result<
    Grouped,
>)
    requires
        lens@.len() == parts@.len(),
        store.manifest.segments@.len() + parts@.len() <= usize::MAX,
    ensures
        ({
            let base = store.manifest.segments@.len() as usize;
            let n = parts@.len() as int;
            match first_stale_part(parts@, store.manifest.epoch, n) {
                Some(error) => grouped matches Err(e) && e == error,
                None => if exists|p: int| 0 <= p < n && #[trigger] names_nothing(parts@[p], base) {
                    grouped matches Err(e) && e == (Error::MissingSection { kind: 0 })
                } else {
                    &&& grouped matches Ok(g)
                    &&& lists(sets(g.deletions@), group_of(parts@, base, n).deleted)
                    &&& g.segments@.len() == group_of(parts@, base, n).segments.len()
                    &&& forall|p: int|
                        0 <= p < n && (#[trigger] parts@[p]).segment is Some
                            ==> g.segments@[position_of(parts@, base, p) - base] == (
                            parts@[p].segment->Some_0.1,
                            lens@[p],
                        )
                },
            }
        }),
{
    let committed: u64 = store.manifest.epoch;
    let mut p: usize = 0;
    while p < parts.len()
        invariant
            p <= parts@.len(),
            committed == store.manifest.epoch,
            first_stale_part(parts@, committed, p as int) is None,
        decreases parts.len() - p,
    {
        match fresh(parts[p].epoch, committed) {
            Ok(()) => {},
            Err(error) => {
                proof {
                    lemma_stale_stays(parts@, committed, p + 1, parts@.len() as int);
                }
                return Err(error);
            },
        }
        p = p + 1;
    }
    let base: usize = store.manifest.segments.len();
    assert(base == store.manifest.segments@.len() as usize);
    put_together(base, parts, lens)
}

proof fn lemma_stale_stays(parts: Seq<Prepared>, committed: u64, n: int, m: int)
    requires
        n <= m,
        first_stale_part(parts, committed, n) is Some,
    ensures
        first_stale_part(parts, committed, m) == first_stale_part(parts, committed, n),
    decreases m,
{
    if n < m && m > 0 {
        lemma_stale_stays(parts, committed, n, m - 1);
    }
}

/// The group itself, once every batch is known to be on the committed state.
fn put_together(base: usize, parts: &Vec<Prepared>, lens: &Vec<u64>) -> (grouped: Result<Grouped>)
    requires
        lens@.len() == parts@.len(),
        base + parts@.len() <= usize::MAX,
    ensures
        ({
            let n = parts@.len() as int;
            if exists|p: int| 0 <= p < n && #[trigger] names_nothing(parts@[p], base) {
                grouped matches Err(e) && e == (Error::MissingSection { kind: 0 })
            } else {
                &&& grouped matches Ok(g)
                &&& lists(sets(g.deletions@), group_of(parts@, base, n).deleted)
                &&& g.segments@.len() == group_of(parts@, base, n).segments.len()
                &&& forall|p: int|
                    0 <= p < n && (#[trigger] parts@[p]).segment is Some
                        ==> g.segments@[position_of(parts@, base, p) - base] == (
                        parts@[p].segment->Some_0.1,
                        lens@[p],
                    )
            }
        }),
{
    // Where the next segment of the group lands. The batches were all worked
    // out against the same state, so they all name their own segment as the
    // position one past the last committed one, and each of them has to be told
    // which position that turned out to be.
    let mut segments: Vec<(u32, u64)> = Vec::new();
    let mut held: Vec<(usize, Bitmap)> = Vec::new();
    let mut written: KeyMap<(usize, DocId)> = KeyMap::new();
    let mut p: usize = 0;
    while p < parts.len()
        invariant
            p <= parts@.len(),
            lens@.len() == parts@.len(),
            base + parts@.len() <= usize::MAX,
            written.wf(),
            written@ == group_of(parts@, base, p as int).written,
            lists(sets(held@), group_of(parts@, base, p as int).deleted),
            segments@.len() == group_of(parts@, base, p as int).segments.len(),
            segments@.len() <= p,
            forall|q: int| 0 <= q < p ==> !#[trigger] names_nothing(parts@[q], base),
            forall|q: int|
                0 <= q < p && (#[trigger] parts@[q]).segment is Some ==> {
                    &&& position_of(parts@, base, q) - base < segments@.len()
                    &&& segments@[position_of(parts@, base, q) - base] == (
                        parts@[q].segment->Some_0.1,
                        lens@[q],
                    )
                },
        decreases parts.len() - p,
    {
        let ghost now = group_of(parts@, base, p as int);
        let part = &parts[p];
        let position: usize = base + segments.len();
        match join_all(&mut held, part, base, position, Ghost(now.deleted)) {
            Ok(()) => {},
            Err(error) => {
                assert(names_nothing(parts@[p as int], base));
                return Err(error);
            },
        }
        let ghost named = Group {
            deleted: all_joined(
                now.deleted,
                sets(part.deletions@),
                base,
                position,
                part.deletions@.len() as int,
            ),
            ..now
        };
        match &part.segment {
            Some((_, docs)) => {
                write_keys(&mut held, &mut written, part, position, Ghost(named));
                segments.push((*docs, lens[p]));
                proof {
                    lemma_segments(named, part.keys@, position, part.keys@.len() as int);
                }
            },
            None => {},
        }
        p = p + 1;
    }
    Ok(Grouped { segments, deletions: held })
}

// ---------------------------------------------------------------------------
// What becomes of a key that several batches write.
// ---------------------------------------------------------------------------

/// The document batch `part` writes under its `i`th key is either the last copy
/// of the key or deleted.
spec fn settled(group: Group, key: Seq<u8>, position: usize, doc: DocId) -> bool {
    ||| group.written.dom().contains(key) && group.written[key] == (position, doc)
    ||| group.deleted.dom().contains(position) && group.deleted[position].contains(doc)
}

proof fn lemma_joined_keeps(
    deleted: Map<usize, Set<u32>>,
    deletions: Seq<(usize, Set<u32>)>,
    base: usize,
    position: usize,
    n: int,
    at: usize,
    doc: u32,
)
    requires
        deleted.dom().contains(at),
        deleted[at].contains(doc),
    ensures
        all_joined(deleted, deletions, base, position, n).dom().contains(at),
        all_joined(deleted, deletions, base, position, n)[at].contains(doc),
    decreases n,
{
    if n > 0 {
        lemma_joined_keeps(deleted, deletions, base, position, n - 1, at, doc);
    }
}

proof fn lemma_keys_settle(
    group: Group,
    keys: Seq<(Vec<u8>, DocId)>,
    at: usize,
    n: int,
    key: Seq<u8>,
    position: usize,
    doc: DocId,
)
    requires
        settled(group, key, position, doc),
    ensures
        settled(keys_written(group, keys, at, n), key, position, doc),
    decreases n,
{
    if n > 0 {
        lemma_keys_settle(group, keys, at, n - 1, key, position, doc);
    }
}

proof fn lemma_key_lands(
    group: Group,
    keys: Seq<(Vec<u8>, DocId)>,
    position: usize,
    n: int,
    i: int,
)
    requires
        keys_ascend(keys),
        0 <= i < n <= keys.len(),
    ensures
        keys_written(group, keys, position, n).written.dom().contains(keys[i].0@),
        keys_written(group, keys, position, n).written[keys[i].0@] == (position, keys[i].1),
    decreases n,
{
    if i < n - 1 {
        lemma_key_lands(group, keys, position, n - 1, i);
        crate::order::lemma_before_irreflexive(keys[i].0@);
        assert(crate::order::before(keys[i].0@, keys[n - 1].0@));
    }
}

proof fn lemma_keys_elsewhere(
    group: Group,
    keys: Seq<(Vec<u8>, DocId)>,
    position: usize,
    n: int,
    key: Seq<u8>,
)
    requires
        0 <= n <= keys.len(),
        forall|i: int| !#[trigger] at_key(keys, key, i),
    ensures
        keys_written(group, keys, position, n).written.dom().contains(key)
            == group.written.dom().contains(key),
        group.written.dom().contains(key) ==> keys_written(group, keys, position, n).written[key]
            == group.written[key],
    decreases n,
{
    if n > 0 {
        lemma_keys_elsewhere(group, keys, position, n - 1, key);
        assert(!at_key(keys, key, n - 1));
    }
}

/// Every document a group writes under a key is deleted in the same commit, unless
/// it is the one the key is left naming.
pub proof fn law_every_other_copy_of_a_key_is_deleted(
    parts: Seq<Prepared>,
    base: usize,
    n: int,
    p: int,
    i: int,
)
    requires
        0 <= p < n <= parts.len(),
        base + parts.len() <= usize::MAX,
        forall|q: int| 0 <= q < parts.len() ==> keys_ascend((#[trigger] parts[q]).keys@),
        parts[p].segment is Some,
        0 <= i < parts[p].keys@.len(),
    ensures
        ({
            let group = group_of(parts, base, n);
            let key = parts[p].keys@[i].0@;
            let at = position_of(parts, base, p) as usize;
            ||| group.written.dom().contains(key) && group.written[key] == (
                at,
                parts[p].keys@[i].1,
            )
            ||| group.deleted.dom().contains(at) && group.deleted[at].contains(
                parts[p].keys@[i].1,
            )
        }),
    decreases n,
{
    let part = parts[n - 1];
    let was = group_of(parts, base, n - 1);
    let position = (base + was.segments.len()) as usize;
    let named = Group {
        deleted: all_joined(
            was.deleted,
            sets(part.deletions@),
            base,
            position,
            part.deletions@.len() as int,
        ),
        ..was
    };
    let keys = parts[n - 1].keys@;
    if p == n - 1 {
        assert(keys_ascend(parts[p].keys@));
        lemma_key_lands(named, keys, position, keys.len() as int, i);
    } else {
        law_every_other_copy_of_a_key_is_deleted(parts, base, n - 1, p, i);
        let key = parts[p].keys@[i].0@;
        let doc = parts[p].keys@[i].1;
        let at = position_of(parts, base, p) as usize;
        if was.deleted.dom().contains(at) && was.deleted[at].contains(doc) {
            lemma_joined_keeps(
                was.deleted,
                sets(part.deletions@),
                base,
                position,
                part.deletions@.len() as int,
                at,
                doc,
            );
        }
        lemma_keys_settle(named, keys, position, keys.len() as int, key, at, doc);
        assert(settled(group_of(parts, base, n), key, at, doc));
    }
}

/// The last batch to write a key is the one that answers to it.
pub proof fn law_the_last_copy_of_a_key_wins(
    parts: Seq<Prepared>,
    base: usize,
    n: int,
    p: int,
    i: int,
)
    requires
        0 <= p < n <= parts.len(),
        base + parts.len() <= usize::MAX,
        forall|q: int| 0 <= q < parts.len() ==> keys_ascend((#[trigger] parts[q]).keys@),
        parts[p].segment is Some,
        0 <= i < parts[p].keys@.len(),
        forall|q: int, k: int|
            p < q < n && (#[trigger] parts[q]).segment is Some ==> !#[trigger] at_key(
                parts[q].keys@,
                parts[p].keys@[i].0@,
                k,
            ),
    ensures
        group_of(parts, base, n).written.dom().contains(parts[p].keys@[i].0@),
        group_of(parts, base, n).written[parts[p].keys@[i].0@] == (
            position_of(parts, base, p) as usize,
            parts[p].keys@[i].1,
        ),
    decreases n,
{
    let part = parts[n - 1];
    let was = group_of(parts, base, n - 1);
    let position = (base + was.segments.len()) as usize;
    let named = Group {
        deleted: all_joined(
            was.deleted,
            sets(part.deletions@),
            base,
            position,
            part.deletions@.len() as int,
        ),
        ..was
    };
    let keys = parts[n - 1].keys@;
    if p == n - 1 {
        assert(keys_ascend(parts[p].keys@));
        lemma_key_lands(named, keys, position, keys.len() as int, i);
    } else {
        law_the_last_copy_of_a_key_wins(parts, base, n - 1, p, i);
        if part.segment is Some {
            assert forall|k: int| !#[trigger] at_key(keys, parts[p].keys@[i].0@, k) by {
                assert(parts[n - 1].segment is Some);
            }
            lemma_keys_elsewhere(
                named,
                keys,
                position,
                keys.len() as int,
                parts[p].keys@[i].0@,
            );
        }
    }
}

} // verus!

//! What a batch takes, and what it and a group of them commit.
use super::group::{first_stale_part, group_of, keys_written, position_of, Group};
use super::{
    keys_of, offered, prepares, replacing_of, shown, took, whole_sets, Batch, Ledger, Prepared,
};
use crate::error::{Error, Result};
use crate::file::publish::{publishes, sets, Published};
use crate::file::view::View as StoreView;
use crate::file::Store;
use crate::index::Field;
use crate::keymap::{at_key, keys_ascend};
use crate::order::{before, lemma_before_irreflexive};
use crate::DocId;
use vstd::prelude::*;

verus! {

/// A batch replaces the document of a segment of the store.
pub open spec fn replaced_in(ledger: Ledger, at: int, doc: DocId) -> bool {
    ledger.replaced[at] matches Some(set) && set.contains(doc)
}

/// What a batch is left with by one document under a key, where a lookup of the store
/// found `found` under it.
pub open spec fn took_the_place(
    was: Ledger,
    now: Ledger,
    key: Seq<u8>,
    found: Option<(usize, DocId)>,
) -> bool {
    let own = was.mine.contains_key(key);
    // The key names the new document, and every other what it did.
    &&& now.mine.contains_key(key) && now.mine[key] == was.docs.len()
    &&& forall|other: Seq<u8>|
        other != key ==> (#[trigger] now.mine.contains_key(other) <==> was.mine.contains_key(other))
            && now.mine[other] == was.mine[other]
    // The copy of the batch's own that had the key is replaced, and no other.
    &&& forall|d: u32| #[trigger]
        now.superseded.contains(d) <==> was.superseded.contains(d) || (own && d == was.mine[key])
    // The document of the store that had the key is, unless it was already.
    &&& now.replaced.len() == was.replaced.len()
    &&& forall|at: int, d: DocId|
        0 <= at < now.replaced.len() ==> (#[trigger] replaced_in(now, at, d) <==> replaced_in(
            was,
            at,
            d,
        ) || (!own && (found matches Some((there, old)) && there == at && old == d)))
    &&& now.replacements == was.replacements + if own || found is Some {
        1int
    } else {
        0int
    }
    &&& was.key_bytes + key.len() <= u64::MAX ==> now.key_bytes == was.key_bytes + if own {
        0
    } else {
        key.len() as int
    }
}

/// A batch takes a document whole: it is numbered after those before it, with all of its
/// terms and fields. Under no key it replaces nothing. Under a key it takes the place of
/// the copy of the batch's own that had the key, and otherwise of what a lookup of the
/// store finds under it, and of nothing else; and from then on the key names it.
pub proof fn law_a_batch_takes_a_document(
    was: Batch<'_, '_>,
    now: Batch<'_, '_>,
    key: Option<Seq<u8>>,
    terms: Seq<Seq<u8>>,
    fields: Seq<Field>,
    added: Result<DocId>,
)
    requires
        took(was, now, key, terms, fields, added),
        was.ledger().docs.len() < u32::MAX,
        was.ledger().replaced.len() == was.looks().keys@.len(),
    ensures
        added matches Ok(doc) && doc == was.ledger().docs.len(),
        now.ledger().docs == was.ledger().docs.push(terms),
        now.ledger().stores == was.ledger().stores.push(fields),
        match key {
            None => {
                &&& now.ledger().mine == was.ledger().mine
                &&& now.ledger().replaced == was.ledger().replaced
                &&& now.ledger().superseded == was.ledger().superseded
                &&& now.ledger().replacements == was.ledger().replacements
                &&& now.ledger().key_bytes == was.ledger().key_bytes
            },
            Some(key) => exists|found: Option<(usize, DocId)>| #[trigger]
                was.looks().answers(key, 0, found) && took_the_place(
                    was.ledger(),
                    now.ledger(),
                    key,
                    found,
                ),
        },
{
    if let Some(k) = key {
        let grew = super::grown(was.ledger(), terms, fields);
        let doc = was.ledger().docs.len() as u32;
        let found = choose|found: Option<(usize, DocId)>|
            was.looks().answers(k, 0, found) && now.ledger() == #[trigger] replacing_of(
                grew,
                k,
                doc,
                found,
            );
        assert(was.looks().answers(k, 0, found));
        let (old, new) = (was.ledger(), now.ledger());
        assert forall|at: int, d: DocId| 0 <= at < new.replaced.len() implies (
        #[trigger] replaced_in(new, at, d) <==> replaced_in(old, at, d) || (!old.mine.contains_key(
            k,
        ) && (found matches Some((there, o)) && there == at && o == d))) by {}
        assert(took_the_place(old, new, k, found));
    }
}

/// A document that is offered is taken exactly where there is room for its terms, and
/// where there is none the batch is left as it was.
pub proof fn law_an_offer_is_taken_where_there_is_room(
    was: Batch<'_, '_>,
    now: Batch<'_, '_>,
    key: Option<Seq<u8>>,
    terms: Seq<Seq<u8>>,
    fields: Seq<Field>,
    added: Result<Option<DocId>>,
)
    requires
        offered(was, now, key, terms, fields, added),
    ensures
        !was.room(terms) ==> added == Ok::<Option<DocId>, Error>(None) && now == was,
        was.room(terms) && was.ledger().docs.len() < u32::MAX ==> {
            &&& added == Ok::<Option<DocId>, Error>(Some(was.ledger().docs.len() as u32))
            &&& took(
                was,
                now,
                key,
                terms,
                fields,
                Ok::<DocId, Error>(was.ledger().docs.len() as u32),
            )
        },
        was.room(terms) && was.ledger().docs.len() >= u32::MAX ==> {
            &&& added matches Err(e) && e == (Error::NotSorted { at: u32::MAX })
            &&& now.ledger() == was.ledger()
        },
{
}

proof fn lemma_wholes(view: &StoreView<'_>, replaced: Seq<Option<Set<u32>>>, n: int)
    requires
        0 <= n <= replaced.len() <= usize::MAX,
    ensures
        ({
            let whole = whole_sets(view, replaced, n);
            &&& forall|k: int|
                0 <= k < whole.len() ==> (#[trigger] whole[k]).0 < n && replaced[whole[k].0 as int]
                    is Some
            &&& forall|k: int, l: int|
                0 <= k < l < whole.len() ==> (#[trigger] whole[k]).0 < (#[trigger] whole[l]).0
            &&& forall|k: int, d: u32|
                0 <= k < whole.len() ==> (#[trigger] whole[k].1.contains(d) <==> (
                replaced[whole[k].0 as int]->0.contains(d) || (view.deleted_of(
                    whole[k].0 as int,
                ) matches Ok(Some(hidden)) && hidden.contains(d))))
            &&& forall|i: int|
                0 <= i < n && (#[trigger] replaced[i]) is Some ==> exists|k: int|
                    0 <= k < whole.len() && (#[trigger] whole[k]).0 == i
        }),
    decreases n,
{
    if n > 0 {
        lemma_wholes(view, replaced, n - 1);
        let had = whole_sets(view, replaced, n - 1);
        let whole = whole_sets(view, replaced, n);
        if replaced[n - 1] is Some {
            assert(whole[had.len() as int].0 == n - 1);
            assert forall|k: int, d: u32| 0 <= k < whole.len() implies (
            #[trigger] whole[k].1.contains(d) <==> (replaced[whole[k].0 as int]->0.contains(d) || (
            view.deleted_of(whole[k].0 as int) matches Ok(Some(hidden)) && hidden.contains(
                d,
            )))) by {
                if k < had.len() {
                    assert(whole[k] == had[k]);
                    assert(had[k].1.contains(d) <==> whole[k].1.contains(d));
                }
            }
            assert forall|i: int| 0 <= i < n && (#[trigger] replaced[i]) is Some implies exists|k: int|
                0 <= k < whole.len() && (#[trigger] whole[k]).0 == i by {
                if i < n - 1 {
                    let k = choose|k: int| 0 <= k < had.len() && (#[trigger] had[k]).0 == i;
                    assert(whole[k].0 == i);
                }
            }
        }
    }
}

/// What a finished batch commits. A segment of all of its documents, or none where it
/// took none. For each segment of the store that it replaces documents of, one set, in the
/// order of the segments: what the segment hides already and what the batch replaces of
/// it. For its own segment the copies it replaced itself, where there are any. And its
/// keys, in order, each once, with the document each names.
pub proof fn law_a_finished_batch_commits_what_it_took(
    view: &StoreView<'_>,
    ledger: Ledger,
    prepared: Prepared,
)
    requires
        prepares(view, ledger, prepared),
        ledger.replaced.len() == view.segments@.len() < usize::MAX,
    ensures
        ({
            let n = view.segments@.len() as int;
            let named = sets(prepared.deletions@);
            &&& prepared.epoch == view.epoch
            &&& match prepared.segment {
                Some((built, docs)) => docs == ledger.docs.len() && docs > 0 && (
                built.fields matches Some(fields) ==> fields@.len() == ledger.stores.len() && (
                forall|d: int|
                    0 <= d < ledger.stores.len() ==> (#[trigger] fields@[d])@ == ledger.stores[d]))
                    && (built.fields is None ==> forall|d: int|
                    0 <= d < ledger.stores.len() ==> (#[trigger] ledger.stores[d]).len() == 0),
                None => ledger.docs.len() == 0,
            }
            &&& forall|k: int, l: int|
                0 <= k < l < named.len() ==> (#[trigger] named[k]).0 < (#[trigger] named[l]).0
            &&& forall|k: int|
                0 <= k < named.len() ==> (#[trigger] named[k]).0 <= n && (named[k].0 < n
                    ==> ledger.replaced[named[k].0 as int] is Some)
            &&& forall|k: int, d: u32|
                0 <= k < named.len() ==> (#[trigger] named[k].1.contains(d) <==> if named[k].0
                    < n {
                    replaced_in(ledger, named[k].0 as int, d) || (view.deleted_of(
                        named[k].0 as int,
                    ) matches Ok(Some(hidden)) && hidden.contains(d))
                } else {
                    ledger.superseded.contains(d)
                })
            &&& forall|i: int|
                0 <= i < n && (#[trigger] ledger.replaced[i]) is Some ==> exists|k: int|
                    0 <= k < named.len() && (#[trigger] named[k]).0 == i
            &&& ledger.docs.len() > 0 && (exists|d: u32| #[trigger] ledger.superseded.contains(d))
                ==> exists|k: int| 0 <= k < named.len() && (#[trigger] named[k]).0 == n
            &&& forall|key: Seq<u8>, doc: DocId|
                #![trigger ledger.mine.contains_key(key), keyed_as(prepared.keys@, key, doc)]
                keyed_as(prepared.keys@, key, doc) <==> ledger.mine.contains_key(key)
                    && ledger.mine[key] == doc
            &&& forall|i: int, j: int|
                0 <= i < j < prepared.keys@.len() ==> before(
                    (#[trigger] prepared.keys@[i]).0@,
                    (#[trigger] prepared.keys@[j]).0@,
                )
        }),
{
    let n = view.segments@.len() as int;
    let named = sets(prepared.deletions@);
    let whole = whole_sets(view, ledger.replaced, n);
    lemma_wholes(view, ledger.replaced, n);
    let own = ledger.docs.len() > 0 && ledger.superseded != Set::<u32>::empty();
    assert forall|k: int| 0 <= k < whole.len() implies #[trigger] named[k] == whole[k] by {}
    assert(own ==> named.len() == whole.len() + 1 && named[whole.len() as int] == (
        n as usize,
        ledger.superseded,
    ));
    assert(!own ==> named.len() == whole.len());
    assert forall|k: int, d: u32| 0 <= k < named.len() implies (
    #[trigger] named[k].1.contains(d) <==> if named[k].0 < n {
        replaced_in(ledger, named[k].0 as int, d) || (view.deleted_of(
            named[k].0 as int,
        ) matches Ok(Some(hidden)) && hidden.contains(d))
    } else {
        ledger.superseded.contains(d)
    }) by {
        if k < whole.len() {
            assert(named[k] == whole[k]);
            assert(whole[k].1.contains(d) <==> named[k].1.contains(d));
        }
    }
    assert forall|i: int| 0 <= i < n && (#[trigger] ledger.replaced[i]) is Some implies exists|k: int|
        0 <= k < named.len() && (#[trigger] named[k]).0 == i by {
        let k = choose|k: int| 0 <= k < whole.len() && (#[trigger] whole[k]).0 == i;
        assert(named[k] == whole[k]);
    }
    if ledger.docs.len() > 0 && (exists|d: u32| #[trigger] ledger.superseded.contains(d)) {
        let d = choose|d: u32| #[trigger] ledger.superseded.contains(d);
        assert(ledger.superseded != Set::<u32>::empty());
        assert(named[whole.len() as int].0 == n);
    }
    assert forall|key: Seq<u8>, doc: DocId|
        #![trigger ledger.mine.contains_key(key), keyed_as(prepared.keys@, key, doc)]
        keyed_as(prepared.keys@, key, doc) <==> ledger.mine.contains_key(key) && ledger.mine[key]
            == doc by {
        lemma_keyed_as(prepared.keys@, key, doc);
    }
    if let Some((built, docs)) = prepared.segment {
        if let Some(fields) = built.fields {
            assert(shown(fields@).len() == fields@.len());
            assert forall|d: int| 0 <= d < ledger.stores.len() implies (#[trigger] fields@[d])@
                == ledger.stores[d] by {
                assert(shown(fields@)[d] == fields@[d]@);
            }
        } else {
            assert forall|d: int| 0 <= d < ledger.stores.len() implies (
            #[trigger] ledger.stores[d]).len() == 0 by {}
        }
    }
}

/// A list of keys has a key with a document.
pub open spec fn keyed_as(keys: Seq<(Vec<u8>, DocId)>, key: Seq<u8>, doc: DocId) -> bool {
    exists|i: int| 0 <= i < keys.len() && (#[trigger] keys[i]).0@ == key && keys[i].1 == doc
}

proof fn lemma_keyed_as(keys: Seq<(Vec<u8>, DocId)>, key: Seq<u8>, doc: DocId)
    requires
        keys_ascend(keys),
    ensures
        keyed_as(keys, key, doc) <==> keys_of(keys).contains_key(key) && keys_of(keys)[key] == doc,
{
    lemma_before_irreflexive(key);
    if keys_of(keys).contains_key(key) {
        let i = choose|i: int| #[trigger] at_key(keys, key, i);
        assert(keys[i].0@ == key);
        if keyed_as(keys, key, doc) {
            let j = choose|j: int|
                0 <= j < keys.len() && (#[trigger] keys[j]).0@ == key && keys[j].1 == doc;
            if i < j {
                assert(before(keys[i].0@, keys[j].0@));
            } else if j < i {
                assert(before(keys[j].0@, keys[i].0@));
            }
        }
    }
    if keyed_as(keys, key, doc) {
        let j = choose|j: int|
            0 <= j < keys.len() && (#[trigger] keys[j]).0@ == key && keys[j].1 == doc;
        assert(at_key(keys, key, j));
    }
}

/// A batch is committed over the state it was built on and over no other: where the store
/// has moved on it is refused, with both epochs, and otherwise it publishes its segment,
/// if it has one, with its deletions.
pub proof fn law_a_batch_is_committed_where_it_was_built(
    prepared: Prepared,
    store: Store,
    len: u64,
    created: u64,
    before: Seq<u64>,
    published: Result<Published>,
)
    requires
        prepared.commits(store, len, created, before, published),
    ensures
        prepared.epoch != store.manifest.epoch ==> (published matches Err(e) && e
            == (Error::StaleView { read: prepared.epoch, committed: store.manifest.epoch })),
        prepared.epoch == store.manifest.epoch ==> match prepared.segment {
            Some((_, docs)) => publishes(
                store,
                seq![(docs, len)],
                created,
                sets(prepared.deletions@),
                before,
                published,
            ),
            None => publishes(
                store,
                Seq::empty(),
                created,
                sets(prepared.deletions@),
                before,
                published,
            ),
        },
{
}

// ---------------------------------------------------------------------------
// A group.
// ---------------------------------------------------------------------------

proof fn lemma_keys_keep_segments(
    group: Group,
    keys: Seq<(Vec<u8>, DocId)>,
    position: usize,
    n: int,
)
    ensures
        keys_written(group, keys, position, n).segments == group.segments,
    decreases n,
{
    if n > 0 {
        lemma_keys_keep_segments(group, keys, position, n - 1);
    }
}

/// A group adds the segment of each of its batches that has one, in the order of the
/// batches, each with its own documents, behind those of the store.
pub proof fn law_a_group_adds_the_segments_of_its_batches(
    parts: Seq<Prepared>,
    base: usize,
    n: int,
)
    requires
        0 <= n <= parts.len(),
    ensures
        group_of(parts, base, n).segments == parts.take(n).filter(
            |part: Prepared| part.segment is Some,
        ).map_values(|part: Prepared| part.segment.unwrap().1),
        position_of(parts, base, n) == base + parts.take(n).filter(
            |part: Prepared| part.segment is Some,
        ).len(),
    decreases n,
{
    reveal(Seq::filter);
    let built = |part: Prepared| part.segment is Some;
    let docs = |part: Prepared| part.segment.unwrap().1;
    if n > 0 {
        law_a_group_adds_the_segments_of_its_batches(parts, base, n - 1);
        assert(parts.take(n).drop_last() =~= parts.take(n - 1));
        let was = group_of(parts, base, n - 1);
        let part = parts[n - 1];
        let had = parts.take(n - 1).filter(built);
        assert(parts.take(n).last() == part);
        if part.segment is Some {
            let position = (base + was.segments.len()) as usize;
            let named = Group {
                deleted: super::group::all_joined(
                    was.deleted,
                    sets(part.deletions@),
                    base,
                    position,
                    part.deletions@.len() as int,
                ),
                ..was
            };
            lemma_keys_keep_segments(named, part.keys@, position, part.keys@.len() as int);
            assert(parts.take(n).filter(built) == had.push(part));
            assert(had.push(part).map_values(docs) =~= had.map_values(docs).push(docs(part)));
        } else {
            assert(parts.take(n).filter(built) == had);
        }
        assert(group_of(parts, base, n).segments =~= parts.take(n).filter(built).map_values(docs));
    } else {
        assert(parts.take(0).filter(built).map_values(docs) =~= Seq::<u32>::empty());
    }
}

/// A group is refused where some batch of it was built on another state than the one that
/// is committed, and the refusal names the first such batch's.
pub proof fn law_the_first_stale_batch_is_reported(parts: Seq<Prepared>, committed: u64, n: int)
    requires
        0 <= n <= parts.len(),
    ensures
        match first_stale_part(parts, committed, n) {
            Some(error) => exists|p: int|
                0 <= p < n && (#[trigger] parts[p]).epoch != committed && error
                    == (Error::StaleView { read: parts[p].epoch, committed }) && forall|q: int|
                    0 <= q < p ==> (#[trigger] parts[q]).epoch == committed,
            None => forall|p: int| 0 <= p < n ==> (#[trigger] parts[p]).epoch == committed,
        },
    decreases n,
{
    if n > 0 {
        law_the_first_stale_batch_is_reported(parts, committed, n - 1);
        if first_stale_part(parts, committed, n - 1) is None {
            assert(parts[n - 1].epoch == parts[n - 1].epoch);
        }
    }
}

} // verus!

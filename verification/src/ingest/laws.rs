//! What a batch makes of the keys of a store.
use super::{
    grown, keyed, prepares, recorded, replacing_of, took, whole_sets, Batch, Ledger, Prepared,
    Record,
};
use crate::analysis::contents;
use crate::error::Result;
use crate::file::answers::{answer, decides, lemma_decides};
use crate::file::publish::sets;
use crate::file::view::{Lookup, View as StoreView};
use crate::file::rewalk::{law_a_walk_from_where_one_ended_finds_none, record_at, walks};
use crate::file::walk::{
    law_a_walk_finds_what_it_applies, start_of, walked_of, walked_to, Seen, Step, WINDOW,
};
use crate::file::{follows, Log, Store};
use crate::index::Field;
use crate::manifest::Manifest;
use crate::DocId;
use vstd::prelude::*;

verus! {

/// A batch replaces a document of a segment.
pub open spec fn replaces(ledger: Ledger, at: int, doc: DocId) -> bool {
    ledger.replaced[at] matches Some(set) && set.contains(doc)
}

/// What a batch has worked out is right of a store whose segments have these
/// tables and hide these documents: each of its keys names a document of its own
/// that it has not replaced, and it replaces of the store exactly the documents
/// its keys answered with.
pub open spec fn accounted(
    ledger: Ledger,
    tables: Seq<Map<Seq<u8>, DocId>>,
    gone: Seq<Set<u32>>,
) -> bool {
    let n = tables.len() as int;
    &&& ledger.replaced.len() == n
    &&& forall|key: Seq<u8>| #[trigger]
        ledger.mine.dom().contains(key) ==> {
            &&& ledger.mine[key] < ledger.docs.len()
            &&& !ledger.superseded.contains(ledger.mine[key])
            &&& answer(tables, gone, key, n) matches Some((at, doc)) ==> replaces(ledger, at, doc)
        }
    &&& forall|a: Seq<u8>, b: Seq<u8>| #[trigger]
        ledger.mine.dom().contains(a) && #[trigger] ledger.mine.dom().contains(b)
            && ledger.mine[a] == ledger.mine[b] ==> a == b
    &&& forall|at: int, doc: DocId|
        0 <= at < n && #[trigger] replaces(ledger, at, doc) ==> exists|key: Seq<u8>| #[trigger]
            ledger.mine.dom().contains(key) && answer(tables, gone, key, n) == Some((at, doc))
    &&& forall|d: u32| #[trigger] ledger.superseded.contains(d) ==> d < ledger.docs.len()
}

/// A batch with nothing in it has worked out nothing, and rightly.
pub proof fn law_a_new_batch_replaces_nothing(
    ledger: Ledger,
    tables: Seq<Map<Seq<u8>, DocId>>,
    gone: Seq<Set<u32>>,
)
    requires
        ledger.mine == Map::<Seq<u8>, DocId>::empty(),
        ledger.superseded == Set::<u32>::empty(),
        ledger.replaced == Seq::new(tables.len(), |i: int| None::<Set<u32>>),
    ensures
        accounted(ledger, tables, gone),
{
    assert forall|at: int, doc: DocId| 0 <= at < tables.len() implies !#[trigger] replaces(
        ledger,
        at,
        doc,
    ) by {
        assert(ledger.replaced[at] is None);
    }
}

/// What a batch has worked out stays right as it takes documents, under a key or
/// under none.
pub proof fn law_adding_keeps_the_account(
    ledger: Ledger,
    tables: Seq<Map<Seq<u8>, DocId>>,
    gone: Seq<Set<u32>>,
    terms: Seq<Seq<u8>>,
    fields: Seq<Field>,
    key: Seq<u8>,
    found: Option<(usize, DocId)>,
)
    requires
        accounted(ledger, tables, gone),
        ledger.docs.len() < u32::MAX,
        tables.len() <= usize::MAX,
        match answer(tables, gone, key, tables.len() as int) {
            Some((at, doc)) => found == Some((at as usize, doc)),
            None => found is None,
        },
    ensures
        accounted(grown(ledger, terms, fields), tables, gone),
        accounted(
            replacing_of(
                grown(ledger, terms, fields),
                key,
                ledger.docs.len() as u32,
                found,
            ),
            tables,
            gone,
        ),
{
    let n = tables.len() as int;
    let added = grown(ledger, terms, fields);
    let doc = ledger.docs.len() as u32;
    let now = replacing_of(added, key, doc, found);
    lemma_answer_in(tables, gone, key, n);
    assert forall|at: int, d: DocId| 0 <= at < n && #[trigger] replaces(added, at, d) implies exists|
        k: Seq<u8>,
    | #[trigger]
        added.mine.dom().contains(k) && answer(tables, gone, k, n) == Some((at, d)) by {
        assert(replaces(ledger, at, d));
    }
    assert forall|k: Seq<u8>| #[trigger] added.mine.dom().contains(k) implies {
        &&& added.mine[k] < added.docs.len()
        &&& !added.superseded.contains(added.mine[k])
        &&& answer(tables, gone, k, n) matches Some((at, d)) ==> replaces(added, at, d)
    } by {
        assert(ledger.mine.dom().contains(k));
        if let Some((at, d)) = answer(tables, gone, k, n) {
            assert(replaces(ledger, at, d));
        }
    }
    assert(accounted(added, tables, gone));
    if ledger.mine.dom().contains(key) {
        assert(now.replaced == ledger.replaced);
    }
    assert forall|at: int, d: DocId| 0 <= at < n implies #[trigger] replaces(now, at, d) == (
    replaces(ledger, at, d) || (!ledger.mine.dom().contains(key) && answer(tables, gone, key, n)
        == Some((at, d)))) by {}
    assert forall|k: Seq<u8>| #[trigger] now.mine.dom().contains(k) implies {
        &&& now.mine[k] < now.docs.len()
        &&& !now.superseded.contains(now.mine[k])
        &&& answer(tables, gone, k, n) matches Some((at, d)) ==> replaces(now, at, d)
    } by {
        lemma_answer_in(tables, gone, k, n);
        if k == key {
            if ledger.mine.dom().contains(key) {
                if let Some((at, d)) = answer(tables, gone, k, n) {
                    assert(replaces(ledger, at, d));
                    assert(replaces(now, at, d));
                }
            } else if let Some((at, d)) = answer(tables, gone, k, n) {
                assert(replaces(now, at, d));
            }
        } else {
            assert(ledger.mine.dom().contains(k));
            if let Some((at, d)) = answer(tables, gone, k, n) {
                assert(replaces(ledger, at, d));
                assert(replaces(now, at, d));
            }
        }
    }
    assert forall|a: Seq<u8>, b: Seq<u8>| #[trigger]
        now.mine.dom().contains(a) && #[trigger] now.mine.dom().contains(b) && now.mine[a]
            == now.mine[b] implies a == b by {
        if a != key && b != key {
            assert(ledger.mine.dom().contains(a) && ledger.mine.dom().contains(b));
        } else if a != key {
            assert(ledger.mine.dom().contains(a));
        } else if b != key {
            assert(ledger.mine.dom().contains(b));
        }
    }
    assert forall|at: int, d: DocId| 0 <= at < n && #[trigger] replaces(now, at, d) implies exists|
        k: Seq<u8>,
    | #[trigger]
        now.mine.dom().contains(k) && answer(tables, gone, k, n) == Some((at, d)) by {
        if replaces(ledger, at, d) {
            let k = choose|k: Seq<u8>| #[trigger]
                ledger.mine.dom().contains(k) && answer(tables, gone, k, n) == Some((at, d));
            assert(now.mine.dom().contains(k));
        } else {
            assert(now.mine.dom().contains(key));
        }
    }
}

/// What a key answers with is in a segment, under the key, and not deleted.
pub proof fn lemma_answer_in(
    tables: Seq<Map<Seq<u8>, DocId>>,
    gone: Seq<Set<u32>>,
    key: Seq<u8>,
    n: int,
)
    ensures
        answer(tables, gone, key, n) matches Some((at, doc)) ==> 0 <= at < n
            && tables[at].dom().contains(key) && tables[at][key] == doc && !gone[at].contains(doc),
    decreases n,
{
    if n > 0 {
        lemma_answer_in(tables, gone, key, n - 1);
    }
}

/// What each segment hides once a batch is committed: what it hid, with what the
/// batch replaces of it, and of the segment the batch adds the copies it replaced
/// itself.
pub open spec fn hides_then(gone: Seq<Set<u32>>, ledger: Ledger) -> Seq<Set<u32>> {
    Seq::new(
        gone.len(),
        |i: int|
            match ledger.replaced[i] {
                Some(set) => gone[i].union(set),
                None => gone[i],
            },
    ).push(ledger.superseded)
}

/// Committing a batch, each of its keys answers with the document the batch has
/// under it and the document it answered with before is deleted; every other key
/// answers with what it did.
pub proof fn law_a_batch_answers_to_its_keys(
    ledger: Ledger,
    tables: Seq<Map<Seq<u8>, DocId>>,
    gone: Seq<Set<u32>>,
    key: Seq<u8>,
)
    requires
        gone.len() == tables.len(),
        accounted(ledger, tables, gone),
        // A document has one key.
        forall|i: int, a: Seq<u8>, b: Seq<u8>|
            0 <= i < tables.len() && #[trigger] tables[i].dom().contains(a)
                && #[trigger] tables[i].dom().contains(b) && tables[i][a] == tables[i][b] ==> a
                == b,
    ensures
        ({
            let n = tables.len() as int;
            let now = answer(tables.push(ledger.mine), hides_then(gone, ledger), key, n + 1);
            if ledger.mine.dom().contains(key) {
                &&& now == Some((n, ledger.mine[key]))
                &&& answer(tables, gone, key, n) matches Some((at, doc)) ==> hides_then(
                    gone,
                    ledger,
                )[at].contains(doc)
            } else {
                now == answer(tables, gone, key, n)
            }
        }),
{
    let n = tables.len() as int;
    let all = tables.push(ledger.mine);
    let hides = hides_then(gone, ledger);
    lemma_answer_in(tables, gone, key, n);
    lemma_decides(tables, gone, key, n);
    lemma_decides(all, hides, key, n + 1);
    if ledger.mine.dom().contains(key) {
        if let Some((at, doc)) = answer(tables, gone, key, n) {
            assert(replaces(ledger, at, doc));
        }
    } else if exists|at: int| 0 <= at < n && (#[trigger] tables[at]).dom().contains(key) {
        let at = choose|at: int| #[trigger] decides(tables, key, n, at);
        let doc = tables[at][key];
        assert(decides(all, key, n + 1, at)) by {
            assert forall|later: int| at < later < n + 1 implies !(
            #[trigger] all[later]).dom().contains(key) by {
                if later < n {
                    assert(!tables[later].dom().contains(key));
                }
            }
        }
        assert(hides[at].contains(doc) == (gone[at].contains(doc) || replaces(ledger, at, doc)));
        assert(all[at] == tables[at]);
        if !gone[at].contains(doc) && replaces(ledger, at, doc) {
            let other = choose|k: Seq<u8>| #[trigger]
                ledger.mine.dom().contains(k) && answer(tables, gone, k, n) == Some((at, doc));
            lemma_answer_in(tables, gone, other, n);
            assert(tables[at].dom().contains(other) && tables[at].dom().contains(key));
        }
    } else {
        assert forall|at: int| 0 <= at < n + 1 implies !(#[trigger] all[at]).dom().contains(
            key,
        ) by {
            if at < n {
                assert(!tables[at].dom().contains(key));
            }
        }
    }
}

/// What each segment of a view hides.
pub open spec fn hidden_in(view: &StoreView<'_>) -> Seq<Set<u32>> {
    Seq::new(
        view.segments@.len(),
        |i: int|
            match view.deleted_of(i) {
                Ok(Some(set)) => set,
                _ => Set::empty(),
            },
    )
}

pub proof fn lemma_whole_sets(
    view: &StoreView<'_>,
    ledger: Ledger,
    n: int,
)
    requires
        0 <= n <= view.segments@.len(),
        view.segments@.len() <= usize::MAX,
        ledger.replaced.len() == view.segments@.len(),
    ensures
        ({
            let whole = whole_sets(view, ledger.replaced, n);
            &&& forall|k: int|
                0 <= k < whole.len() ==> {
                    &&& (#[trigger] whole[k]).0 < n
                    &&& ledger.replaced[whole[k].0 as int] is Some
                    &&& whole[k].1 == hides_then(hidden_in(view), ledger)[whole[k].0 as int]
                }
            &&& forall|i: int|
                0 <= i < n && (#[trigger] ledger.replaced[i]) is Some ==> exists|k: int|
                    0 <= k < whole.len() && (#[trigger] whole[k]).0 == i
        }),
    decreases n,
{
    if n > 0 {
        lemma_whole_sets(view, ledger, n - 1);
        let had = whole_sets(view, ledger.replaced, n - 1);
        let whole = whole_sets(view, ledger.replaced, n);
        if let Some(set) = ledger.replaced[n - 1] {
            let hides = hides_then(hidden_in(view), ledger);
            assert(Set::<u32>::empty().union(set) =~= set);
            assert(whole[had.len() as int].0 == n - 1);
            assert(whole[had.len() as int].1 == hides[n - 1]);
            assert forall|i: int| 0 <= i < n && (
            #[trigger] ledger.replaced[i]) is Some implies exists|k: int|
                0 <= k < whole.len() && (#[trigger] whole[k]).0 == i by {
                if i < n - 1 {
                    let k = choose|k: int| 0 <= k < had.len() && (#[trigger] had[k]).0 == i;
                    assert(whole[k].0 == i);
                }
            }
        }
    }
}

/// The sets of deletions a batch commits are the whole of what their segments then
/// hide, and a segment it names none for hides what it did.
pub proof fn law_a_batch_commits_whole_sets(
    view: &StoreView<'_>,
    ledger: Ledger,
    prepared: Prepared,
    tables: Seq<Map<Seq<u8>, DocId>>,
)
    requires
        tables.len() == view.segments@.len() < usize::MAX,
        accounted(ledger, tables, hidden_in(view)),
        prepares(view, ledger, prepared),
    ensures
        ({
            let n = view.segments@.len() as int;
            let named = sets(prepared.deletions@);
            let hides = hides_then(hidden_in(view), ledger);
            &&& forall|k: int|
                0 <= k < named.len() ==> (#[trigger] named[k]).0 <= n && named[k].1
                    == hides[named[k].0 as int]
            &&& forall|i: int|
                0 <= i <= n && (forall|k: int|
                    0 <= k < named.len() ==> (#[trigger] named[k]).0 != i) ==> #[trigger] hides[i]
                    == if i < n {
                    hidden_in(view)[i]
                } else {
                    Set::empty()
                }
        }),
{
    let n = view.segments@.len() as int;
    let named = sets(prepared.deletions@);
    let hides = hides_then(hidden_in(view), ledger);
    let whole = whole_sets(view, ledger.replaced, n);
    lemma_whole_sets(view, ledger, n);
    assert forall|k: int| 0 <= k < named.len() implies (#[trigger] named[k]).0 <= n && named[k].1
        == hides[named[k].0 as int] by {
        if k < whole.len() {
            assert(named[k] == whole[k]);
        }
    }
    assert forall|i: int|
        0 <= i <= n && (forall|k: int|
            0 <= k < named.len() ==> (#[trigger] named[k]).0 != i) implies #[trigger] hides[i]
        == if i < n {
        hidden_in(view)[i]
    } else {
        Set::empty()
    } by {
        if i < n {
            if ledger.replaced[i] is Some {
                let k = choose|k: int| 0 <= k < whole.len() && (#[trigger] whole[k]).0 == i;
                assert(named[k] == whole[k]);
            }
        } else if ledger.superseded != Set::<u32>::empty() {
            if ledger.docs.len() > 0 {
                assert(named[whole.len() as int].0 == n);
            } else {
                assert(ledger.superseded =~= Set::<u32>::empty());
            }
        }
    }
}

/// Where every table of a lookup is sorted there is one answer to a key.
pub proof fn lemma_one_answer(
    looks: Lookup<'_>,
    key: Seq<u8>,
    a: Option<(usize, DocId)>,
    b: Option<(usize, DocId)>,
)
    requires
        looks.sorted(),
        looks.answers(key, 0, a),
        looks.answers(key, 0, b),
    ensures
        a == b,
{
    let n = looks.keys@.len() as int;
    if exists|at: int, doc: DocId| 0 <= at < n && #[trigger] looks.names(at, key, doc) {
        let (at, doc) = choose|at: int, doc: DocId|
            0 <= at < n && #[trigger] looks.names(at, key, doc);
        let newest = lemma_newest(looks, key, at, doc);
        assert(looks.newest(key, 0, newest));
        let named = choose|doc: DocId| looks.names(newest, key, doc);
        assert(looks.names(newest, key, named));
    }
}

/// Where a table has a key there is a newest one that does.
proof fn lemma_newest(looks: Lookup<'_>, key: Seq<u8>, at: int, doc: DocId) -> (newest: int)
    requires
        0 <= at < looks.keys@.len(),
        looks.names(at, key, doc),
    ensures
        looks.newest(key, 0, newest),
    decreases looks.keys@.len() - at,
{
    if exists|later: int, d: DocId|
        at < later < looks.keys@.len() && #[trigger] looks.names(later, key, d) {
        let (later, d) = choose|later: int, d: DocId|
            at < later < looks.keys@.len() && #[trigger] looks.names(later, key, d);
        lemma_newest(looks, key, later, d)
    } else {
        at
    }
}

/// A second replay finds nothing. What the first put back was freed with the
/// commit that holds it, so that the store it left, opened again or not, has an
/// empty log, and a walk of it starts where the first walk ended. That is where the
/// first walk met no record, and where nothing was appended since the bytes are the
/// same: a walk of them finds no record, there is nothing to commit and no document
/// is put in twice.
///
/// This is not so of a walk that ended elsewhere: because it had been all the way
/// round the ring, or because the record it met was whole and did not follow the one
/// before it.
pub proof fn law_a_second_replay_finds_nothing(
    recovered: Store,
    least: u64,
    steps: Seq<Step>,
    freed: Store,
    manifest: Manifest,
    written: u64,
    next: Manifest,
    more: Seq<Step>,
    file: Seq<u8>,
    decode: spec_fn(Seq<u8>, int) -> Option<Seen>,
)
    requires
        4 <= least <= WINDOW,
        recovered.superblock.wal_len > 0,
        recovered.superblock.wal_offset + recovered.superblock.wal_len <= file.len() <= u64::MAX,
        recovered.manifest.wal_head + 2 * recovered.superblock.wal_len <= u64::MAX,
        ({
            let start = start_of(recovered.superblock, recovered.manifest, least);
            let end = walked_to(start, steps, steps.len() as int);
            &&& walks(start, steps, file, decode)
            &&& end.over
            &&& end.position < end.stop
            &&& record_at(start, file, decode, end.position) matches Some(record) ==> (
            end.expected matches Some(expected) ==> record.sequence == expected)
            &&& recovered.log.tail == end.position
        }),
        freed == (Store {
            log: Log { head: recovered.log.tail, ..recovered.log },
            ..recovered
        }),
        follows(freed, manifest, written, next),
        walks(start_of(recovered.superblock, next, least), more, file, decode),
    ensures
        next.wal_head == next.wal_tail,
        ({
            let start = start_of(recovered.superblock, next, least);
            let again = walked_of(walked_to(start, more, more.len() as int));
            &&& start.position == recovered.log.tail
            &&& again.records == 0
            &&& again.bytes == 0
        }),
{
    let start = start_of(recovered.superblock, recovered.manifest, least);
    let again = start_of(recovered.superblock, next, least);
    let n = more.len() as int;
    law_a_walk_from_where_one_ended_finds_none(start, steps, again, more, file, decode, n);
    law_a_walk_finds_what_it_applies(again, more, n);
}

/// A document out of the log does what the document did: a record that holds the
/// terms, the fields and the key of a document leaves a batch with what adding the
/// document leaves it with, so that a replay writes the segment the batch would
/// have committed.
pub proof fn law_a_replayed_document_is_the_document(
    was: Batch<'_, '_>,
    now: Batch<'_, '_>,
    key: Option<Seq<u8>>,
    terms: Seq<Seq<u8>>,
    fields: Seq<Field>,
    added: Result<DocId>,
    record: Record,
    replayed: Ledger,
)
    requires
        was.looks().sorted(),
        was.ledger().docs.len() < u32::MAX,
        took(was, now, key, terms, fields, added),
        contents(record.terms@) == terms,
        record.fields@ == fields,
        match key {
            Some(k) => record.key matches Some(held) && held@ == k,
            None => record.key is None,
        },
        recorded(was.ledger(), was.looks(), record, replayed),
    ensures
        now.ledger() == replayed,
{
    if let Some(k) = key {
        let grew = grown(was.ledger(), terms, fields);
        let doc = was.ledger().docs.len() as u32;
        let a = choose|found: Option<(usize, DocId)>|
            was.looks().answers(k, 0, found) && now.ledger() == #[trigger] replacing_of(
                grew,
                k,
                doc,
                found,
            );
        let b = choose|found: Option<(usize, DocId)>|
            was.looks().answers(k, 0, found) && replayed == #[trigger] replacing_of(
                grew,
                k,
                doc,
                found,
            );
        assert(keyed(was.looks(), grew, k, doc, now.ledger()));
        assert(keyed(was.looks(), grew, k, doc, replayed));
        lemma_one_answer(was.looks(), k, a, b);
    }
}

} // verus!

//! What a lookup finds of the keys that were written.
use super::view::{Lookup, View as StoreView};
use crate::error::Error;
use crate::keys::{
    self, ascending, blob_of, law_written_keys_are_read, law_written_keys_are_sorted, table_bytes,
};
use crate::order::lemma_before_irreflexive;
use crate::DocId;
use vstd::prelude::*;

verus! {

// ---------------------------------------------------------------------------
// Opening.
// ---------------------------------------------------------------------------

/// Where every segment of a view is there, the bytes of all of them are given, oldest
/// first and one for each.
pub proof fn law_every_segment_is_given(view: &StoreView<'_>, n: int)
    requires
        0 <= n,
        forall|at: int| 0 <= at < n ==> #[trigger] view.segment_bytes(at) is Some,
    ensures
        view.present(n).len() == n,
        forall|at: int|
            0 <= at < n ==> #[trigger] view.segment_bytes(at) == Some(view.present(n)[at]),
    decreases n,
{
    if n > 0 {
        law_every_segment_is_given(view, n - 1);
        assert(view.segment_bytes(n - 1) is Some);
    }
}

/// What is wrong with one segment of a view, if anything: its bytes are not there, its
/// key table does not open, or its deletions do not decode, in that order.
pub open spec fn wrong_with(view: &StoreView<'_>, at: int) -> Option<Error> {
    match (view.segment_bytes(at), view.tables@[at], view.deleted_of(at)) {
        (None, _, _) => Some(Error::MissingSection { kind: 0 }),
        (Some(_), Some(table), _) if keys::opened(table@) is Err => Some(
            keys::opened(table@)->Err_0,
        ),
        (_, _, Err(error)) => Some(error),
        _ => None,
    }
}

/// A lookup of a view opens exactly where there is nothing wrong with any segment, and is
/// refused with what is wrong with the first there is something wrong with.
pub proof fn law_a_lookup_is_refused_for_the_first_that_cannot_be_read(
    view: &StoreView<'_>,
    n: int,
)
    requires
        0 <= n,
    ensures
        match view.unreadable(n) {
            Some(error) => exists|at: int|
                0 <= at < n && #[trigger] wrong_with(view, at) == Some(error) && forall|
                    before: int,
                |
                    0 <= before < at ==> #[trigger] wrong_with(view, before) is None,
            None => forall|at: int| 0 <= at < n ==> #[trigger] wrong_with(view, at) is None,
        },
    decreases n,
{
    if n > 0 {
        law_a_lookup_is_refused_for_the_first_that_cannot_be_read(view, n - 1);
        if view.unreadable(n - 1) is None {
            assert(view.unreadable(n) == wrong_with(view, n - 1));
        }
    }
}

/// How many segments have keys is how many have a key table.
pub proof fn law_the_segments_with_keys_are_counted(lookup: Lookup<'_>, n: int)
    requires
        0 <= n <= lookup.keys@.len(),
    ensures
        lookup.named_before(n) == lookup.keys@.take(n).filter(
            |table: Option<keys::Reader<'_>>| table is Some,
        ).len(),
    decreases n,
{
    let some = |table: Option<keys::Reader<'_>>| table is Some;
    reveal(Seq::filter);
    if n > 0 {
        law_the_segments_with_keys_are_counted(lookup, n - 1);
        assert(lookup.keys@.take(n).drop_last() =~= lookup.keys@.take(n - 1));
    }
}

// ---------------------------------------------------------------------------
// Finding.
// ---------------------------------------------------------------------------

/// The table of a segment is one that was written with these keys.
pub open spec fn wrote(
    reader: Option<keys::Reader<'_>>,
    entries: Option<Seq<(Seq<u8>, DocId)>>,
) -> bool {
    match entries {
        Some(entries) => {
            let input = table_bytes(entries);
            &&& ascending(entries)
            &&& entries.len() <= u32::MAX && blob_of(entries).len() <= u32::MAX
            &&& input.len() <= usize::MAX
            &&& reader matches Some(r)
            &&& r.wf()
            &&& keys::opened(input) matches Ok((count, docs, keys, end)) && r.count == count
                && r.docs@ == input.subrange(8, docs) && r.offsets@ == input.subrange(docs, keys)
                && r.blob@ == input.subrange(keys, end)
        },
        None => reader is None,
    }
}

/// A table has a key for a document exactly where it was written with that key for that
/// document.
proof fn lemma_names(
    lookup: Lookup<'_>,
    at: int,
    entries: Option<Seq<(Seq<u8>, DocId)>>,
    key: Seq<u8>,
    doc: DocId,
)
    requires
        0 <= at < lookup.keys@.len(),
        wrote(lookup.keys@[at], entries),
    ensures
        lookup.names(at, key, doc) <==> (entries matches Some(entries) && exists|i: int|
            0 <= i < entries.len() && #[trigger] entries[i] == (key, doc)),
        lookup.keys@[at] matches Some(reader) ==> reader.sorted(),
{
    if let Some(entries) = entries {
        let reader = lookup.keys@[at].unwrap();
        law_written_keys_are_read(entries, Seq::empty());
        assert(table_bytes(entries) + Seq::<u8>::empty() =~= table_bytes(entries));
        assert forall|i: int| 0 <= i < entries.len() implies reader.key_at(i) == Some(
            (#[trigger] entries[i]).0,
        ) && reader.doc_at(i) == Some(entries[i].1) by {}
        law_written_keys_are_sorted(entries, reader);
        if lookup.names(at, key, doc) {
            let i = choose|i: int| #[trigger]
                reader.key_at(i) == Some(key) && reader.doc_at(i) == Some(doc);
            assert(0 <= i < reader.count);
            assert(reader.key_at(i) == Some(entries[i].0));
            assert(entries[i] == (key, doc));
        }
        if exists|i: int| 0 <= i < entries.len() && #[trigger] entries[i] == (key, doc) {
            let i = choose|i: int| 0 <= i < entries.len() && #[trigger] entries[i] == (key, doc);
            assert(reader.key_at(i) == Some(entries[i].0));
            assert(reader.key_at(i) == Some(key) && reader.doc_at(i) == Some(doc));
        }
    }
}

/// A segment was written with a key for a document.
pub open spec fn keyed_at(
    written: Seq<Option<Seq<(Seq<u8>, DocId)>>>,
    at: int,
    key: Seq<u8>,
    doc: DocId,
) -> bool {
    written[at] matches Some(entries) && exists|i: int|
        0 <= i < entries.len() && #[trigger] entries[i] == (key, doc)
}

/// A key finds the document it was written for. Over segments whose key tables were
/// written with some keys, a lookup from a segment on finds the document that the newest
/// segment written with the key has it for, in that segment, or nothing where that one is
/// deleted; and nothing where no segment from there on was written with the key.
pub proof fn law_a_key_finds_the_document_it_was_written_for(
    lookup: Lookup<'_>,
    written: Seq<Option<Seq<(Seq<u8>, DocId)>>>,
    key: Seq<u8>,
    from: int,
    found: Option<(usize, DocId)>,
)
    requires
        lookup.wf(),
        0 <= from,
        written.len() == lookup.keys@.len(),
        forall|at: int|
            0 <= at < written.len() ==> wrote(lookup.keys@[at], #[trigger] written[at]),
        lookup.answers(key, from, found),
    ensures
        forall|at: int, doc: DocId|
            from <= at < written.len() && #[trigger] keyed_at(written, at, key, doc) && (forall|
                later: int,
                other: DocId,
            |
                at < later < written.len() ==> !#[trigger] keyed_at(written, later, key, other))
                ==> found == if lookup.deleted@[at] matches Some(gone) && gone@.contains(doc) {
                None
            } else {
                Some((at as usize, doc))
            },
        (forall|at: int, doc: DocId|
            from <= at < written.len() ==> !#[trigger] keyed_at(written, at, key, doc)) ==> found
            is None,
{
    assert forall|at: int, doc: DocId| 0 <= at < written.len() implies (#[trigger] lookup.names(
        at,
        key,
        doc,
    ) <==> keyed_at(written, at, key, doc)) by {
        assert(wrote(lookup.keys@[at], written[at]));
        lemma_names(lookup, at, written[at], key, doc);
    }
    assert forall|at: int| 0 <= at < lookup.keys@.len() implies (
    #[trigger] lookup.keys@[at] matches Some(keys) ==> keys.sorted()) by {
        assert(wrote(lookup.keys@[at], written[at]));
        lemma_names(lookup, at, written[at], key, 0);
    }
    assert forall|at: int, doc: DocId|
        from <= at < written.len() && #[trigger] keyed_at(written, at, key, doc) && (forall|
            later: int,
            other: DocId,
        |
            at < later < written.len() ==> !#[trigger] keyed_at(written, later, key, other)) implies found
        == if lookup.deleted@[at] matches Some(gone) && gone@.contains(doc) {
        None
    } else {
        Some((at as usize, doc))
    } by {
        assert(lookup.names(at, key, doc));
        assert forall|later: int, other: DocId|
            at < later < lookup.keys@.len() implies !#[trigger] lookup.names(
            later,
            key,
            other,
        ) by {
            assert(!keyed_at(written, later, key, other));
        }
        assert(lookup.newest(key, from, at));
    }
    if forall|at: int, doc: DocId|
        from <= at < written.len() ==> !#[trigger] keyed_at(written, at, key, doc) {
        assert forall|at: int, doc: DocId|
            from <= at < lookup.keys@.len() implies !#[trigger] lookup.names(at, key, doc) by {
            assert(!keyed_at(written, at, key, doc));
        }
    }
}

/// A table that was written gives back every key with its document, and no key it was
/// not written with: a key is in it exactly once or not at all.
pub proof fn law_a_written_key_is_found_once(
    entries: Seq<(Seq<u8>, DocId)>,
    i: int,
    j: int,
)
    requires
        ascending(entries),
        0 <= i < entries.len(),
        0 <= j < entries.len(),
        entries[i].0 == entries[j].0,
    ensures
        i == j,
{
    lemma_before_irreflexive(entries[i].0);
}

} // verus!

//! What an index says of the documents it is of.
use super::accumulator::{distinct_in, fresh, is_first, occurrences};
use super::{
    corpus, indexes, leaves_room, lengths_bytes, norms_of, occurs, postings_of, stored, total_of,
    Entry, Used, Writer, REACH,
};
use crate::codec::{le_bytes, le_value, lemma_le_bytes, lemma_le_unfold};
use crate::order::before;
use vstd::prelude::*;

verus! {

/// A dictionary says that a document holds a term so often.
pub open spec fn posted(entries: Seq<Entry>, term: Seq<u8>, doc: int, often: u32) -> bool {
    exists|i: int, j: int|
        0 <= i < entries.len() && entries[i].term@ == term && 0 <= j < entries[i].postings@.len()
            && #[trigger] entries[i].postings@[j].0 == doc && entries[i].postings@[j].1 == often
}

/// The list is in the order of its documents, with no document twice.
pub open spec fn in_doc_order(list: Seq<(u32, u32)>) -> bool {
    forall|i: int, j: int|
        0 <= i < j < list.len() ==> (#[trigger] list[i]).0 < (#[trigger] list[j]).0
}

proof fn lemma_occurrences(terms: Seq<Seq<u8>>, term: Seq<u8>)
    ensures
        occurrences(terms, term) == terms.to_multiset().count(term),
        occurrences(terms, term) <= terms.len(),
    decreases terms.len(),
{
    terms.to_multiset_ensures();
    if terms.len() > 0 {
        lemma_occurrences(terms.drop_last(), term);
        terms.drop_last().to_multiset_ensures();
        assert(terms =~= terms.drop_last().push(terms.last()));
    } else {
        assert(terms.to_multiset() =~= vstd::multiset::Multiset::empty());
    }
}

proof fn lemma_postings(docs: Seq<Seq<Seq<u8>>>, term: Seq<u8>, n: int)
    requires
        0 <= n <= docs.len() <= u32::MAX,
        forall|d: int| 0 <= d < docs.len() ==> (#[trigger] docs[d]).len() <= u32::MAX,
    ensures
        ({
            let list = postings_of(docs, term, n);
            &&& in_doc_order(list)
            &&& forall|j: int|
                0 <= j < list.len() ==> {
                    let (d, often) = #[trigger] list[j];
                    &&& d < n
                    &&& often > 0
                    &&& often == docs[d as int].to_multiset().count(term)
                }
            &&& forall|d: int|
                0 <= d < n && (#[trigger] docs[d]).contains(term) ==> exists|j: int|
                    0 <= j < list.len() && (#[trigger] list[j]).0 == d
        }),
    decreases n,
{
    if n > 0 {
        lemma_postings(docs, term, n - 1);
        lemma_occurrences(docs[n - 1], term);
        docs[n - 1].to_multiset_ensures();
        let had = postings_of(docs, term, n - 1);
        let list = postings_of(docs, term, n);
        assert(docs[n - 1].contains(term) <==> occurrences(docs[n - 1], term) > 0);
        assert forall|d: int| 0 <= d < n && (#[trigger] docs[d]).contains(term) implies exists|j: int|
            0 <= j < list.len() && (#[trigger] list[j]).0 == d by {
            if d < n - 1 {
                let j = choose|j: int| 0 <= j < had.len() && (#[trigger] had[j]).0 == d;
                assert(list[j] == had[j]);
            } else {
                assert(list[had.len() as int].0 == d);
            }
        }
    }
}

/// An index says exactly which documents hold which terms, and how often each does: a
/// document is listed under a term where the term is among its own, with the number of
/// times it is there, and nowhere else. The terms are in order, each once, and each with
/// its documents in order, each once.
pub proof fn law_an_index_says_what_its_documents_hold(
    docs: Seq<Seq<Seq<u8>>>,
    entries: Seq<Entry>,
)
    requires
        indexes(docs, entries),
        docs.len() <= u32::MAX,
        forall|d: int| 0 <= d < docs.len() ==> (#[trigger] docs[d]).len() <= u32::MAX,
    ensures
        forall|term: Seq<u8>, d: int, often: u32| #[trigger]
            posted(entries, term, d, often) <==> 0 <= d < docs.len() && often > 0 && often
                == docs[d].to_multiset().count(term),
        forall|i: int|
            0 <= i < entries.len() ==> in_doc_order((#[trigger] entries[i]).postings@)
                && entries[i].postings@.len() > 0,
        forall|i: int, j: int|
            0 <= i < j < entries.len() ==> before(
                (#[trigger] entries[i]).term@,
                (#[trigger] entries[j]).term@,
            ),
{
    let n = docs.len() as int;
    assert forall|i: int| 0 <= i < entries.len() implies in_doc_order(
        (#[trigger] entries[i]).postings@,
    ) && entries[i].postings@.len() > 0 by {
        let term = entries[i].term@;
        lemma_postings(docs, term, n);
        let d = choose|d: int| 0 <= d < docs.len() && (#[trigger] docs[d]).contains(term);
        assert(docs[d].contains(term));
    }
    assert forall|term: Seq<u8>, d: int, often: u32| #[trigger]
        posted(entries, term, d, often) <==> 0 <= d < docs.len() && often > 0 && often
            == docs[d].to_multiset().count(term) by {
        lemma_postings(docs, term, n);
        let list = postings_of(docs, term, n);
        if posted(entries, term, d, often) {
            let (i, j) = choose|i: int, j: int|
                0 <= i < entries.len() && entries[i].term@ == term && 0 <= j
                    < entries[i].postings@.len() && #[trigger] entries[i].postings@[j].0 == d
                    && entries[i].postings@[j].1 == often;
            assert(entries[i].postings@ == list);
            assert(list[j].0 == d);
        }
        if 0 <= d < docs.len() && often > 0 && often == docs[d].to_multiset().count(term) {
            docs[d].to_multiset_ensures();
            assert(docs[d].contains(term));
            assert(occurs(docs, term));
            let i = choose|i: int| 0 <= i < entries.len() && (#[trigger] entries[i]).term@ == term;
            let j = choose|j: int| 0 <= j < list.len() && (#[trigger] list[j]).0 == d;
            assert(entries[i].postings@ == list);
            assert(entries[i].postings@[j].0 == d);
        }
    }
}

proof fn lemma_norms(docs: Seq<Seq<Seq<u8>>>)
    requires
        forall|d: int| 0 <= d < docs.len() ==> (#[trigger] docs[d]).len() <= u32::MAX,
    ensures
        lengths_bytes(docs).len() == 4 * docs.len(),
        forall|d: int|
            0 <= d < docs.len() ==> le_value(lengths_bytes(docs).subrange(4 * d, 4 * d + 4))
                == (#[trigger] docs[d]).len(),
        total_of(docs) == docs.fold_left(
            0nat,
            |total: nat, doc: Seq<Seq<u8>>| total + doc.len(),
        ),
        total_of(docs) <= docs.len() * u32::MAX,
    decreases docs.len(),
{
    reveal(Seq::fold_left);
    if docs.len() > 0 {
        let rest = docs.drop_last();
        let last = le_bytes(docs.last().len(), 4);
        assert forall|d: int| 0 <= d < rest.len() implies (#[trigger] rest[d]).len()
            <= u32::MAX by {
            assert(rest[d] == docs[d]);
        }
        assert(docs[docs.len() - 1].len() <= u32::MAX);
        lemma_norms(rest);
        lemma_le_unfold(0);
        lemma_le_bytes(docs.last().len(), 4);
        assert forall|d: int| 0 <= d < docs.len() implies le_value(
            lengths_bytes(docs).subrange(4 * d, 4 * d + 4),
        ) == (#[trigger] docs[d]).len() by {
            if d < rest.len() {
                assert(rest[d] == docs[d]);
                assert(lengths_bytes(docs).subrange(4 * d, 4 * d + 4) =~= lengths_bytes(
                    rest,
                ).subrange(4 * d, 4 * d + 4));
            } else {
                assert(lengths_bytes(docs).subrange(4 * d, 4 * d + 4) =~= last);
            }
        }
        assert(docs.len() * u32::MAX == rest.len() * u32::MAX + u32::MAX) by (nonlinear_arith)
            requires
                docs.len() == rest.len() + 1,
        ;
    }
}

/// The norms say how many documents there are, then how many terms they hold
/// altogether, then how many each holds.
pub proof fn law_norms_say_how_long_each_document_is(docs: Seq<Seq<Seq<u8>>>)
    requires
        docs.len() <= u32::MAX,
        forall|d: int| 0 <= d < docs.len() ==> (#[trigger] docs[d]).len() <= u32::MAX,
    ensures
        norms_of(docs).len() == 12 + 4 * docs.len(),
        le_value(norms_of(docs).subrange(0, 4)) == docs.len(),
        le_value(norms_of(docs).subrange(4, 12)) == docs.fold_left(
            0nat,
            |total: nat, doc: Seq<Seq<u8>>| total + doc.len(),
        ),
        forall|d: int|
            0 <= d < docs.len() ==> le_value(norms_of(docs).subrange(12 + 4 * d, 16 + 4 * d))
                == (#[trigger] docs[d]).len(),
{
    let norms = norms_of(docs);
    lemma_norms(docs);
    lemma_le_unfold(0);
    assert(docs.len() * u32::MAX < 0x1_0000_0000_0000_0000) by (nonlinear_arith)
        requires
            docs.len() <= u32::MAX,
    ;
    lemma_le_bytes(docs.len(), 4);
    lemma_le_bytes(total_of(docs), 8);
    assert(norms.subrange(0, 4) =~= le_bytes(docs.len(), 4));
    assert(norms.subrange(4, 12) =~= le_bytes(total_of(docs), 8));
    assert forall|d: int| 0 <= d < docs.len() implies le_value(
        norms.subrange(12 + 4 * d, 16 + 4 * d),
    ) == (#[trigger] docs[d]).len() by {
        assert(norms.subrange(12 + 4 * d, 16 + 4 * d) =~= lengths_bytes(docs).subrange(
            4 * d,
            4 * d + 4,
        ));
    }
}

/// Parts are put together one after another: the documents of what is built of them are
/// all of theirs, in turn, and so are the fields.
pub proof fn law_parts_are_put_together_in_turn(parts: Seq<Writer>)
    ensures
        corpus(parts) == parts.map_values(|part: Writer| part@).flatten(),
        stored(parts) == parts.map_values(|part: Writer| part.stores()).flatten(),
    decreases parts.len(),
{
    let docs = parts.map_values(|part: Writer| part@);
    let fields = parts.map_values(|part: Writer| part.stores());
    docs.lemma_flatten_and_flatten_alt_are_equivalent();
    fields.lemma_flatten_and_flatten_alt_are_equivalent();
    if parts.len() > 0 {
        let rest = parts.drop_last();
        law_parts_are_put_together_in_turn(rest);
        assert(docs.drop_last() =~= rest.map_values(|part: Writer| part@));
        assert(fields.drop_last() =~= rest.map_values(|part: Writer| part.stores()));
        docs.drop_last().lemma_flatten_and_flatten_alt_are_equivalent();
        fields.drop_last().lemma_flatten_and_flatten_alt_are_equivalent();
    }
}

proof fn lemma_distinct(names: Seq<Seq<u8>>, full: Set<Seq<u8>>, terms: Seq<Seq<u8>>, n: int)
    requires
        0 <= n <= terms.len(),
    ensures
        ({
            let seen = terms.take(n).to_set();
            &&& seen.finite()
            &&& fresh(names, terms, n) == seen.filter(|term: Seq<u8>| !names.contains(term)).len()
            &&& distinct_in(full, terms, n) == seen.intersect(full).len()
        }),
    decreases n,
{
    let seen = terms.take(n).to_set();
    let new = seen.filter(|term: Seq<u8>| !names.contains(term));
    vstd::seq_lib::seq_to_set_is_finite(terms.take(n));
    if n == 0 {
        assert(seen =~= Set::<Seq<u8>>::empty());
        assert(new =~= Set::<Seq<u8>>::empty());
        assert(seen.intersect(full) =~= Set::<Seq<u8>>::empty());
    } else {
        lemma_distinct(names, full, terms, n - 1);
        let term = terms[n - 1];
        let had = terms.take(n - 1).to_set();
        let old_new = had.filter(|term: Seq<u8>| !names.contains(term));
        assert(terms.take(n) =~= terms.take(n - 1).push(term));
        assert(seen =~= had.insert(term)) by {
            assert forall|t: Seq<u8>| seen.contains(t) == had.insert(term).contains(t) by {
                if terms.take(n - 1).contains(t) {
                    let i = terms.take(n - 1).index_of(t);
                    assert(terms.take(n)[i] == t);
                }
                if terms.take(n).contains(t) {
                    let i = terms.take(n).index_of(t);
                    if i < n - 1 {
                        assert(terms.take(n - 1)[i] == t);
                    }
                }
                assert(terms.take(n)[n - 1] == term);
            }
        }
        assert(is_first(terms, n - 1) == !had.contains(term));
        if names.contains(term) {
            assert(new =~= old_new);
        } else {
            assert(new =~= old_new.insert(term));
        }
        if full.contains(term) {
            assert(seen.intersect(full) =~= had.intersect(full).insert(term));
        } else {
            assert(seen.intersect(full) =~= had.intersect(full));
        }
    }
}

/// How much of what can be addressed a document takes rests on its distinct terms: one
/// number for each that the index does not have, and one chunk for each of those and for
/// each whose last chunk has no room. Where all of these fit, and each new term starts
/// where it can be addressed, there is room.
pub proof fn law_room_is_for_distinct_terms(used: Used, terms: Seq<Seq<u8>>)
    requires
        forall|i: int| 0 <= i < terms.len() ==> (#[trigger] terms[i]).len() <= u32::MAX,
    ensures
        ({
            let held = terms.to_set();
            let new = held.filter(|term: Seq<u8>| !used.names.contains(term)).len();
            let opened = new + held.intersect(used.full).len();
            &&& leaves_room(used, terms) ==> {
                &&& terms.len() <= u32::MAX
                &&& used.names.len() + new <= u32::MAX
                &&& 6 * (used.names.len() + new) + 2048 <= usize::MAX
                &&& used.links + 64 * opened <= REACH
            }
            &&& terms.len() <= u32::MAX && used.names.len() + new <= u32::MAX && 6 * (
            used.names.len() + new) + 2048 <= usize::MAX && used.links + 64 * opened <= REACH && (
            forall|i: int|
                0 <= i < terms.len() ==> used.bytes + #[trigger] spelled_before(
                    used.names,
                    terms,
                    i,
                ) <= u32::MAX) ==> leaves_room(used, terms)
        }),
{
    let n = terms.len() as int;
    lemma_distinct(used.names, used.full, terms, n);
    assert(terms.take(n) =~= terms);
    assert forall|i: int| 0 <= i < terms.len() implies super::accumulator::fresh_bytes(
        used.names,
        terms,
        i,
    ) <= #[trigger] spelled_before(used.names, terms, i) by {
        lemma_spelled(used.names, terms, i);
    }
    assert forall|i: int| 0 <= i < terms.len() implies super::accumulator::fresh_bytes(
        used.names,
        terms,
        i,
    ) <= spelled_before(used.names, terms, i) && (#[trigger] terms[i]).len() <= u32::MAX by {
        lemma_spelled(used.names, terms, i);
    }
}

/// The bytes of the terms before place `i` that the index does not have.
pub open spec fn spelled_before(names: Seq<Seq<u8>>, terms: Seq<Seq<u8>>, i: int) -> nat
    decreases i,
{
    if i <= 0 {
        0
    } else if names.contains(terms[i - 1]) {
        spelled_before(names, terms, i - 1)
    } else {
        spelled_before(names, terms, i - 1) + terms[i - 1].len()
    }
}

proof fn lemma_spelled(names: Seq<Seq<u8>>, terms: Seq<Seq<u8>>, i: int)
    ensures
        super::accumulator::fresh_bytes(names, terms, i) <= spelled_before(names, terms, i),
    decreases i,
{
    if i > 0 {
        lemma_spelled(names, terms, i - 1);
    }
}

} // verus!

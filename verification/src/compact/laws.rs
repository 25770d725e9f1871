//! A merge is the index of the documents that survive it.
use super::{
    carried, carry, held, live_before, live_lengths, merges, sum, survivors, u32s_bytes, Source,
    entry_at,
};
use crate::codec::le_bytes;
use crate::count::count;
use crate::index::accumulator::shifted;
use crate::index::{
    indexes, lemma_postings_concat, lemma_postings_some, lengths_bytes, norms_of, occurs,
    postings_of, total_of, Entry,
};
use vstd::prelude::*;

verus! {

/// The live documents of the first `n` sources, where `docs` are the documents
/// of each.
pub open spec fn live_docs(
    sources: Seq<Source>,
    docs: Seq<Seq<Seq<Seq<u8>>>>,
    n: int,
) -> Seq<Seq<Seq<u8>>>
    decreases n,
{
    if n <= 0 {
        Seq::empty()
    } else {
        live_docs(sources, docs, n - 1) + survivors(
            sources[n - 1],
            docs[n - 1],
            docs[n - 1].len() as int,
        )
    }
}

/// All the documents of the first `n` sources.
pub open spec fn all_docs(docs: Seq<Seq<Seq<Seq<u8>>>>, n: int) -> Seq<Seq<Seq<u8>>>
    decreases n,
{
    if n <= 0 {
        Seq::empty()
    } else {
        all_docs(docs, n - 1) + docs[n - 1]
    }
}

/// Each source is the index of its documents.
pub open spec fn sources_of(sources: Seq<Source>, docs: Seq<Seq<Seq<Seq<u8>>>>) -> bool {
    &&& docs.len() == sources.len()
    &&& forall|s: int|
        0 <= s < sources.len() ==> {
            &&& (#[trigger] sources[s]).index.wf()
            &&& docs[s].len() == sources[s].index.lengths@.len()
            &&& indexes(docs[s], sources[s].index.entries@)
            &&& forall|d: int|
                0 <= d < docs[s].len() ==> #[trigger] sources[s].index.lengths@[d]
                    == docs[s][d].len()
        }
}

proof fn lemma_survivors_len<T>(source: Source, things: Seq<T>, n: int)
    requires
        0 <= n,
    ensures
        survivors(source, things, n).len() == count(source.lives(), 0, n),
    decreases n,
{
    if n > 0 {
        lemma_survivors_len(source, things, n - 1);
    }
}

/// What a source's entries hold of a term is its postings.
proof fn lemma_held_is(docs: Seq<Seq<Seq<u8>>>, entries: Seq<Entry>, term: Seq<u8>)
    requires
        indexes(docs, entries),
    ensures
        held(entries, term) == postings_of(docs, term, docs.len() as int),
{
    lemma_postings_some(docs, term, docs.len() as int);
    if occurs(docs, term) {
        let i = choose|i: int| 0 <= i < entries.len() && (#[trigger] entries[i]).term@ == term;
        assert(entry_at(entries, term, i));
        let j = choose|j: int| #[trigger] entry_at(entries, term, j);
        assert(entries[j].term@ == term);
    } else {
        if exists|j: int| #[trigger] entry_at(entries, term, j) {
            let j = choose|j: int| #[trigger] entry_at(entries, term, j);
            assert(occurs(docs, entries[j].term@));
        }
        if postings_of(docs, term, docs.len() as int).len() > 0 {
            let d = choose|d: int| 0 <= d < docs.len() && (#[trigger] docs[d]).contains(term);
            assert(occurs(docs, term));
        }
        assert(postings_of(docs, term, docs.len() as int) =~= Seq::<(u32, u32)>::empty());
    }
}

/// The postings of a source that survive are those of its survivors.
proof fn lemma_carry_survivors(
    sources: Seq<Source>,
    s: int,
    docs: Seq<Seq<Seq<u8>>>,
    term: Seq<u8>,
    n: int,
)
    requires
        0 <= s < sources.len(),
        0 <= n <= docs.len(),
        docs.len() == sources[s].index.lengths@.len(),
        docs.len() <= u32::MAX,
        live_before(sources, s) + sources[s].live_count() <= u32::MAX,
    ensures
        carry(
            sources,
            s,
            postings_of(docs, term, n),
            postings_of(docs, term, n).len() as int,
        ) == shifted(
            postings_of(
                survivors(sources[s], docs, n),
                term,
                survivors(sources[s], docs, n).len() as int,
            ),
            live_before(sources, s) as u32,
        ),
    decreases n,
{
    let source = sources[s];
    let base = live_before(sources, s) as u32;
    let kept = survivors(source, docs, n);
    let list = postings_of(docs, term, n);
    if n == 0 {
        assert(carry(sources, s, list, 0) =~= shifted(postings_of(kept, term, 0), base));
    } else {
        lemma_carry_survivors(sources, s, docs, term, n - 1);
        let shorter = postings_of(docs, term, n - 1);
        let fewer = survivors(source, docs, n - 1);
        lemma_survivors_len(source, docs, n - 1);
        lemma_carry_prefix(sources, s, list, shorter, shorter.len() as int);
        if source.live(n - 1) {
            assert(kept =~= fewer.push(docs[n - 1]));
            lemma_postings_grow(fewer, docs[n - 1], term);
            crate::count::lemma_count_split(source.lives(), 0, n, docs.len() as int);
            assert(carry(sources, s, list, list.len() as int) =~= shifted(
                postings_of(kept, term, kept.len() as int),
                base,
            ));
        } else {
            assert(kept == fewer);
            assert(carry(sources, s, list, list.len() as int) =~= carry(
                sources,
                s,
                shorter,
                shorter.len() as int,
            ));
        }
    }
}

proof fn lemma_carry_prefix(
    sources: Seq<Source>,
    s: int,
    a: Seq<(u32, u32)>,
    b: Seq<(u32, u32)>,
    n: int,
)
    requires
        0 <= n <= a.len(),
        n <= b.len(),
        forall|i: int| 0 <= i < n ==> #[trigger] a[i] == b[i],
    ensures
        carry(sources, s, a, n) == carry(sources, s, b, n),
    decreases n,
{
    if n > 0 {
        assert(a[n - 1] == b[n - 1]);
        lemma_carry_prefix(sources, s, a, b, n - 1);
    }
}

/// The postings of some documents and one more.
proof fn lemma_postings_grow(docs: Seq<Seq<Seq<u8>>>, doc: Seq<Seq<u8>>, term: Seq<u8>)
    ensures
        ({
            let often = crate::index::accumulator::occurrences(doc, term);
            let had = postings_of(docs, term, docs.len() as int);
            postings_of(docs.push(doc), term, docs.len() as int + 1) == if often > 0 {
                had.push((docs.len() as u32, often as u32))
            } else {
                had
            }
        }),
{
    let longer = docs.push(doc);
    crate::index::lemma_postings_prefix(longer, docs, term, docs.len() as int);
    assert(longer[docs.len() as int] == doc);
}

proof fn lemma_live_len(sources: Seq<Source>, docs: Seq<Seq<Seq<Seq<u8>>>>, n: int)
    requires
        sources_of(sources, docs),
        0 <= n <= sources.len(),
    ensures
        live_docs(sources, docs, n).len() == live_before(sources, n),
    decreases n,
{
    if n > 0 {
        lemma_live_len(sources, docs, n - 1);
        assert(sources[n - 1].index.wf());
        lemma_survivors_len(sources[n - 1], docs[n - 1], docs[n - 1].len() as int);
    }
}

/// What a merge carries of a term is the term's postings in the live documents.
proof fn lemma_carried_live(
    sources: Seq<Source>,
    docs: Seq<Seq<Seq<Seq<u8>>>>,
    term: Seq<u8>,
    n: int,
)
    requires
        sources_of(sources, docs),
        0 <= n <= sources.len(),
        live_before(sources, sources.len() as int) <= u32::MAX,
    ensures
        carried(sources, term, n) == postings_of(
            live_docs(sources, docs, n),
            term,
            live_docs(sources, docs, n).len() as int,
        ),
    decreases n,
{
    if n > 0 {
        lemma_carried_live(sources, docs, term, n - 1);
        super::lemma_live_grows(sources, n, sources.len() as int);
        let s = n - 1;
        assert(sources[s].index.wf());
        let mine = docs[s];
        lemma_held_is(mine, sources[s].index.entries@, term);
        lemma_carry_survivors(sources, s, mine, term, mine.len() as int);
        let a = live_docs(sources, docs, s);
        let b = survivors(sources[s], mine, mine.len() as int);
        lemma_live_len(sources, docs, s);
        lemma_live_len(sources, docs, n);
        lemma_postings_concat(a, b, term, b.len() as int);
    } else {
        assert(carried(sources, term, n) =~= Seq::<(u32, u32)>::empty());
    }
}

/// A merge is the index of the documents that survive it: what a writer would
/// have built from them, and nothing of the others.
pub proof fn law_merge_is_the_index_of_the_live_documents(
    sources: Seq<Source>,
    docs: Seq<Seq<Seq<Seq<u8>>>>,
    entries: Seq<Entry>,
)
    requires
        sources_of(sources, docs),
        live_before(sources, sources.len() as int) <= u32::MAX,
        merges(sources, entries),
    ensures
        indexes(live_docs(sources, docs, sources.len() as int), entries),
        norms_of(live_docs(sources, docs, sources.len() as int)) == le_bytes(
            live_before(sources, sources.len() as int),
            4,
        ) + le_bytes(sum(live_lengths(sources, sources.len() as int)), 8) + u32s_bytes(
            live_lengths(sources, sources.len() as int),
        ),
{
    let n = sources.len() as int;
    let live = live_docs(sources, docs, n);
    assert forall|i: int| 0 <= i < entries.len() implies (#[trigger] entries[i]).postings@
        == postings_of(live, entries[i].term@, live.len() as int) && occurs(
        live,
        entries[i].term@,
    ) by {
        let term = entries[i].term@;
        lemma_carried_live(sources, docs, term, n);
        lemma_postings_some(live, term, live.len() as int);
        let d = choose|d: int| 0 <= d < live.len() && (#[trigger] live[d]).contains(term);
        assert(live[d].contains(term));
    }
    assert forall|term: Seq<u8>| #[trigger] occurs(live, term) implies exists|i: int|
        0 <= i < entries.len() && (#[trigger] entries[i]).term@ == term by {
        lemma_carried_live(sources, docs, term, n);
        lemma_postings_some(live, term, live.len() as int);
        let d = choose|d: int| 0 <= d < live.len() && (#[trigger] live[d]).contains(term);
        assert(carried(sources, term, n).len() > 0);
    }
    lemma_live_len(sources, docs, n);
    lemma_lengths(sources, docs, n);
    lemma_sums(live, live_lengths(sources, n));
}

/// The lengths a merge writes are those of the live documents.
proof fn lemma_lengths(sources: Seq<Source>, docs: Seq<Seq<Seq<Seq<u8>>>>, n: int)
    requires
        sources_of(sources, docs),
        0 <= n <= sources.len(),
    ensures
        live_lengths(sources, n).len() == live_docs(sources, docs, n).len(),
        forall|i: int|
            0 <= i < live_docs(sources, docs, n).len() ==> (#[trigger] live_docs(
                sources,
                docs,
                n,
            )[i]).len() == live_lengths(sources, n)[i],
    decreases n,
{
    if n > 0 {
        lemma_lengths(sources, docs, n - 1);
        let s = n - 1;
        let source = sources[s];
        assert(sources[s].index.wf());
        lemma_survivor_lengths(source, docs[s], docs[s].len() as int);
        let a = live_docs(sources, docs, s);
        let b = survivors(source, docs[s], docs[s].len() as int);
        assert forall|i: int| 0 <= i < live_docs(sources, docs, n).len() implies (
        #[trigger] live_docs(sources, docs, n)[i]).len() == live_lengths(sources, n)[i] by {
            if i < a.len() {
                assert(live_docs(sources, docs, n)[i] == a[i]);
            } else {
                assert(live_docs(sources, docs, n)[i] == b[i - a.len()]);
            }
        }
    }
}

proof fn lemma_survivor_lengths(source: Source, docs: Seq<Seq<Seq<u8>>>, n: int)
    requires
        0 <= n <= docs.len(),
        docs.len() == source.index.lengths@.len(),
        forall|d: int|
            0 <= d < docs.len() ==> #[trigger] source.index.lengths@[d] == docs[d].len(),
    ensures
        survivors(source, docs, n).len() == survivors(source, source.index.lengths@, n).len(),
        forall|i: int|
            0 <= i < survivors(source, docs, n).len() ==> (#[trigger] survivors(
                source,
                docs,
                n,
            )[i]).len() == survivors(source, source.index.lengths@, n)[i],
    decreases n,
{
    if n > 0 {
        lemma_survivor_lengths(source, docs, n - 1);
        assert(source.index.lengths@[n - 1] == docs[n - 1].len());
    }
}

proof fn lemma_sums(docs: Seq<Seq<Seq<u8>>>, lengths: Seq<u32>)
    requires
        docs.len() == lengths.len(),
        forall|i: int| 0 <= i < docs.len() ==> (#[trigger] docs[i]).len() == lengths[i],
    ensures
        total_of(docs) == sum(lengths),
        lengths_bytes(docs) == u32s_bytes(lengths),
    decreases docs.len(),
{
    if docs.len() > 0 {
        let a = docs.drop_last();
        let b = lengths.drop_last();
        assert forall|i: int| 0 <= i < a.len() implies (#[trigger] a[i]).len() == b[i] by {
            assert(a[i] == docs[i]);
        }
        lemma_sums(a, b);
        assert(docs[docs.len() - 1].len() == lengths[lengths.len() - 1]);
    }
}

/// With nothing deleted, the live documents are all the documents: the merge is
/// the index of the sources' documents one source after the other.
pub proof fn law_nothing_deleted_nothing_dropped(
    sources: Seq<Source>,
    docs: Seq<Seq<Seq<Seq<u8>>>>,
    n: int,
)
    requires
        sources_of(sources, docs),
        0 <= n <= sources.len(),
        forall|s: int|
            0 <= s < sources.len() ==> (#[trigger] sources[s]).deleted@ == Set::<u32>::empty(),
    ensures
        live_docs(sources, docs, n) == all_docs(docs, n),
    decreases n,
{
    if n > 0 {
        law_nothing_deleted_nothing_dropped(sources, docs, n - 1);
        let s = n - 1;
        assert(sources[s].index.wf());
        assert(sources[s].deleted@ == Set::<u32>::empty());
        lemma_survivors_all(sources[s], docs[s], docs[s].len() as int);
        assert(docs[s].take(docs[s].len() as int) =~= docs[s]);
    }
}

proof fn lemma_survivors_all<T>(source: Source, things: Seq<T>, n: int)
    requires
        0 <= n <= things.len(),
        things.len() == source.index.lengths@.len(),
        source.deleted@ == Set::<u32>::empty(),
    ensures
        survivors(source, things, n) == things.take(n),
    decreases n,
{
    if n > 0 {
        lemma_survivors_all(source, things, n - 1);
        assert(source.live(n - 1));
        assert(things.take(n) =~= things.take(n - 1).push(things[n - 1]));
    } else {
        assert(things.take(0) =~= Seq::<T>::empty());
    }
}

} // verus!

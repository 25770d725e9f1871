//! Building a searchable segment out of documents.
//!
//! Indexing is one pass. A document is analysed, its terms are counted, and
//! each term's postings are appended to that term's own byte chain straight
//! away, delta coded, in the arena. Nothing is sorted per posting and nothing is
//! buffered per posting. At the end the only sort is over the vocabulary.
use crate::analysis::{
    contents, law_no_more_terms_than_characters, law_terms_are_bounded, terms_of, Analyzer,
};
use crate::codec::{le_bytes, put_u32, put_u64};
use crate::error::{Error, Result};
use crate::order::{
    before, comes_before, lemma_before_asymmetric, lemma_before_irreflexive, lemma_before_total,
    lemma_before_transitive, same_bytes,
};
use crate::DocId;
use std::collections::HashSet;
use accumulator::{
    distinct_in, fresh, fresh_bytes, is_first, lemma_fresh_bound, lemma_fresh_grows,
    lemma_occurrences_bound, lemma_unfold_len, lemma_wanting_same, occurrences, shifted, wanting,
    Accumulator, REACH,
};
use sort::in_order;
use vocabulary::Vocabulary;
use vstd::prelude::*;

pub mod accumulator;
pub mod laws;
pub mod reader;
pub mod sort;
pub mod vocabulary;

verus! {

/// A value kept with a document to be handed back with a hit.
#[derive(Debug)]
pub struct Field {
    pub name: String,
    pub value: Vec<u8>,
}

/// A term with the documents that hold it, ascending, and how often each does.
#[derive(Debug)]
pub struct Entry {
    pub term: Vec<u8>,
    pub postings: Vec<(DocId, u32)>,
}

/// What a segment holds, before it is laid out.
#[derive(Debug)]
pub struct Contents {
    /// The dictionary, in term order, with each term's postings.
    pub entries: Vec<Entry>,
    /// How many documents there are, how many terms they hold altogether, and
    /// how many each of them holds.
    pub norms: Vec<u8>,
    /// The fields of each document, or nothing if no document stored any.
    pub fields: Option<Vec<Vec<Field>>>,
}

// ---------------------------------------------------------------------------
// What an index of some documents is.
// ---------------------------------------------------------------------------

/// The documents of the first `n` that hold a term, with how often each does.
pub open spec fn postings_of(docs: Seq<Seq<Seq<u8>>>, term: Seq<u8>, n: int) -> Seq<(u32, u32)>
    decreases n,
{
    if n <= 0 {
        Seq::empty()
    } else {
        let often = occurrences(docs[n - 1], term);
        let had = postings_of(docs, term, n - 1);
        if often > 0 {
            had.push(((n - 1) as u32, often as u32))
        } else {
            had
        }
    }
}

/// Whether any of the documents holds the term.
pub open spec fn occurs(docs: Seq<Seq<Seq<u8>>>, term: Seq<u8>) -> bool {
    exists|d: int| 0 <= d < docs.len() && (#[trigger] docs[d]).contains(term)
}

/// The entries are the index of the documents: a term for each that occurs and
/// no other, in order, each with all of its postings.
pub open spec fn indexes(docs: Seq<Seq<Seq<u8>>>, entries: Seq<Entry>) -> bool {
    &&& forall|i: int, j: int|
        0 <= i < j < entries.len() ==> before(
            (#[trigger] entries[i]).term@,
            (#[trigger] entries[j]).term@,
        )
    &&& forall|i: int|
        0 <= i < entries.len() ==> (#[trigger] entries[i]).postings@ == postings_of(
            docs,
            entries[i].term@,
            docs.len() as int,
        ) && occurs(docs, entries[i].term@)
    &&& forall|term: Seq<u8>| #[trigger]
        occurs(docs, term) ==> exists|i: int|
            0 <= i < entries.len() && (#[trigger] entries[i]).term@ == term
}

/// How many terms the documents hold altogether.
pub open spec fn total_of(docs: Seq<Seq<Seq<u8>>>) -> nat
    decreases docs.len(),
{
    if docs.len() == 0 {
        0
    } else {
        total_of(docs.drop_last()) + docs.last().len()
    }
}

pub open spec fn lengths_bytes(docs: Seq<Seq<Seq<u8>>>) -> Seq<u8>
    decreases docs.len(),
{
    if docs.len() == 0 {
        Seq::empty()
    } else {
        lengths_bytes(docs.drop_last()) + le_bytes(docs.last().len(), 4)
    }
}

/// The count, the total and the lengths of the documents.
pub open spec fn norms_of(docs: Seq<Seq<Seq<u8>>>) -> Seq<u8> {
    le_bytes(docs.len(), 4) + le_bytes(total_of(docs), 8) + lengths_bytes(docs)
}

/// A term that does not occur has no postings, and one that does has some.
pub proof fn lemma_postings_some(docs: Seq<Seq<Seq<u8>>>, term: Seq<u8>, n: int)
    requires
        0 <= n <= docs.len(),
    ensures
        postings_of(docs, term, n).len() > 0 <==> exists|d: int|
            0 <= d < n && (#[trigger] docs[d]).contains(term),
        postings_of(docs, term, n).len() <= n,
        forall|i: int|
            0 <= i < postings_of(docs, term, n).len() ==> (#[trigger] postings_of(
                docs,
                term,
                n,
            )[i]).0 < n || n > u32::MAX + 1,
    decreases n,
{
    if n > 0 {
        lemma_postings_some(docs, term, n - 1);
        lemma_occurrences_bound(docs[n - 1], term);
        if docs[n - 1].contains(term) {
            assert(exists|d: int| 0 <= d < n && (#[trigger] docs[d]).contains(term));
        }
        if exists|d: int| 0 <= d < n - 1 && (#[trigger] docs[d]).contains(term) {
            let d = choose|d: int| 0 <= d < n - 1 && (#[trigger] docs[d]).contains(term);
            assert(docs[d].contains(term));
        }
    }
}

pub(crate) proof fn lemma_postings_prefix(
    a: Seq<Seq<Seq<u8>>>,
    b: Seq<Seq<Seq<u8>>>,
    term: Seq<u8>,
    n: int,
)
    requires
        0 <= n <= a.len(),
        n <= b.len(),
        forall|i: int| 0 <= i < n ==> #[trigger] a[i] == b[i],
    ensures
        postings_of(a, term, n) == postings_of(b, term, n),
    decreases n,
{
    if n > 0 {
        assert(a[n - 1] == b[n - 1]);
        lemma_postings_prefix(a, b, term, n - 1);
    }
}

/// The postings of two lots of documents are those of the first and then those
/// of the second moved on by how many the first are.
pub proof fn lemma_postings_concat(
    a: Seq<Seq<Seq<u8>>>,
    b: Seq<Seq<Seq<u8>>>,
    term: Seq<u8>,
    n: int,
)
    requires
        0 <= n <= b.len(),
        a.len() + b.len() <= u32::MAX,
    ensures
        postings_of(a + b, term, a.len() + n) == postings_of(a, term, a.len() as int) + shifted(
            postings_of(b, term, n),
            a.len() as u32,
        ),
    decreases n,
{
    let base = a.len() as u32;
    if n == 0 {
        lemma_postings_prefix(a + b, a, term, a.len() as int);
        assert(shifted(postings_of(b, term, 0), base) =~= Seq::<(u32, u32)>::empty());
        assert(postings_of(a + b, term, a.len() as int) =~= postings_of(a, term, a.len() as int)
            + shifted(postings_of(b, term, 0), base));
    } else {
        lemma_postings_concat(a, b, term, n - 1);
        assert((a + b)[a.len() + n - 1] == b[n - 1]);
        assert(postings_of(a + b, term, a.len() + n) =~= postings_of(a, term, a.len() as int)
            + shifted(postings_of(b, term, n), base));
    }
}

/// The index of some documents is one and no other.
pub proof fn law_index_unique(docs: Seq<Seq<Seq<u8>>>, a: Seq<Entry>, b: Seq<Entry>)
    requires
        indexes(docs, a),
        indexes(docs, b),
    ensures
        a.len() == b.len(),
        forall|i: int|
            0 <= i < a.len() ==> (#[trigger] a[i]).term@ == b[i].term@ && a[i].postings@
                == b[i].postings@,
{
    lemma_index_prefix(docs, a, b, a.len() as int);
    lemma_index_prefix(docs, b, a, b.len() as int);
}

proof fn lemma_index_prefix(docs: Seq<Seq<Seq<u8>>>, a: Seq<Entry>, b: Seq<Entry>, n: int)
    requires
        indexes(docs, a),
        indexes(docs, b),
        0 <= n <= a.len(),
    ensures
        n <= b.len(),
        forall|i: int|
            0 <= i < n ==> (#[trigger] a[i]).term@ == b[i].term@ && a[i].postings@
                == b[i].postings@,
    decreases n,
{
    if n > 0 {
        lemma_index_prefix(docs, a, b, n - 1);
        let x = a[n - 1].term@;
        assert(occurs(docs, x));
        let j = choose|j: int| 0 <= j < b.len() && (#[trigger] b[j]).term@ == x;
        if j < n - 1 {
            assert(a[j].term@ == b[j].term@);
            assert(before(a[j].term@, a[n - 1].term@));
            lemma_before_irreflexive(x);
        }
        if j > n - 1 {
            let y = b[n - 1].term@;
            assert(before(y, x));
            assert(occurs(docs, y));
            let k = choose|k: int| 0 <= k < a.len() && (#[trigger] a[k]).term@ == y;
            lemma_before_asymmetric(y, x);
            if k > n - 1 {
                assert(before(a[n - 1].term@, a[k].term@));
            } else if k < n - 1 {
                assert(b[k].term@ == y);
                assert(before(b[k].term@, b[n - 1].term@));
                lemma_before_irreflexive(y);
            }
        }
    }
}

// ---------------------------------------------------------------------------
// The writer.
// ---------------------------------------------------------------------------

/// Terms few and short enough for an index with nothing in it.
pub open spec fn few(terms: Seq<Seq<u8>>) -> bool {
    &&& terms.len() <= 0x100_0000
    &&& forall|i: int| 0 <= i < terms.len() ==> (#[trigger] terms[i]).len() <= 255
}

/// What an index being built has used of what it can address.
pub struct Used {
    /// The distinct terms, in the order they came.
    pub names: Seq<Seq<u8>>,
    /// Those of them whose next posting opens a chunk.
    pub full: Set<Seq<u8>>,
    /// How many bytes the terms take.
    pub bytes: nat,
    /// How many bytes their postings take.
    pub links: nat,
}

/// An index with nothing in it has used nothing.
pub open spec fn unused() -> Used {
    Used { names: Seq::empty(), full: Set::empty(), bytes: 0, links: 0 }
}

/// How many chunks a document of these terms opens: one for each term that is new,
/// and one for each whose last chunk has no room.
pub open spec fn chunks_for(used: Used, terms: Seq<Seq<u8>>) -> nat {
    fresh(used.names, terms, terms.len() as int) + distinct_in(
        used.full,
        terms,
        terms.len() as int,
    )
}

/// Whether a document of these terms can be added where so much is used: a term's
/// number, where it starts and where a chunk starts are 32 bits each, and the table
/// of terms has to fit in memory.
pub open spec fn leaves_room(used: Used, terms: Seq<Seq<u8>>) -> bool {
    let n = used.names.len() + fresh(used.names, terms, terms.len() as int);
    &&& terms.len() <= u32::MAX
    &&& used.links + 64 * chunks_for(used, terms) <= REACH
    &&& forall|i: int|
        0 <= i < terms.len() && #[trigger] is_first(terms, i) && !used.names.contains(terms[i])
            ==> used.bytes + fresh_bytes(used.names, terms, i) <= u32::MAX && terms[i].len()
            <= u32::MAX
    &&& n <= u32::MAX
    &&& 6 * n + 2048 <= usize::MAX
}

/// How far a document of these terms moves what is used. A term whose last chunk had
/// no room has one with room then, and one the document does not hold is as it was.
pub open spec fn spends(was: Used, now: Used, terms: Seq<Seq<u8>>) -> bool {
    let n = terms.len() as int;
    &&& now.names.len() == was.names.len() + fresh(was.names, terms, n)
    &&& forall|term: Seq<u8>| #[trigger]
        now.names.contains(term) == (was.names.contains(term) || terms.contains(term))
    &&& now.bytes == was.bytes + fresh_bytes(was.names, terms, n)
    &&& now.links == was.links + 64 * chunks_for(was, terms)
    &&& forall|term: Seq<u8>|
        !terms.contains(term) ==> #[trigger] now.full.contains(term) == was.full.contains(term)
    &&& forall|term: Seq<u8>|
        terms.contains(term) && was.full.contains(term) ==> !#[trigger] now.full.contains(term)
}

/// Where little is used there is room for a document, and a document of few terms
/// uses little: an index takes documents for as long as the terms of all of them
/// are few.
pub proof fn law_few_terms_leave_room(was: Used, now: Used, terms: Seq<Seq<u8>>)
    requires
        few(terms),
        was.names.len() + terms.len() <= 0x100_0000,
        was.bytes + 255 * terms.len() <= 255 * 0x100_0000,
        was.links + 128 * terms.len() <= 128 * 0x100_0000,
        spends(was, now, terms),
    ensures
        leaves_room(was, terms),
        now.names.len() <= was.names.len() + terms.len(),
        now.bytes <= was.bytes + 255 * terms.len(),
        now.links <= was.links + 128 * terms.len(),
{
    lemma_few(was, terms);
}

proof fn lemma_few(used: Used, terms: Seq<Seq<u8>>)
    requires
        few(terms),
    ensures
        fresh(used.names, terms, terms.len() as int) <= terms.len(),
        chunks_for(used, terms) <= 2 * terms.len(),
        fresh_bytes(used.names, terms, terms.len() as int) <= 255 * terms.len(),
        used.names.len() + terms.len() <= 0x100_0000 && used.bytes + 255 * terms.len() <= 255
            * 0x100_0000 && used.links + 128 * terms.len() <= 128 * 0x100_0000 ==> leaves_room(
            used,
            terms,
        ),
{
    lemma_fresh_bound(used.names, used.full, terms, terms.len() as int);
    assert forall|i: int| 0 <= i < terms.len() implies fresh_bytes(used.names, terms, i) <= 255
        * terms.len() && (#[trigger] terms[i]).len() <= 255 by {
        lemma_fresh_bound(used.names, used.full, terms, i);
    }
}

proof fn lemma_text_is_few(text: Seq<char>)
    requires
        text.len() <= 0x100_0000,
    ensures
        few(terms_of(text)),
{
    law_no_more_terms_than_characters(text);
    assert forall|i: int| 0 <= i < terms_of(text).len() implies (#[trigger] terms_of(text)[i]).len()
        <= 255 by {
        law_terms_are_bounded(text, i);
    }
}

proof fn lemma_push_contains(terms: Seq<Seq<u8>>, term: Seq<u8>, other: Seq<u8>)
    ensures
        terms.push(term).contains(other) == (terms.contains(other) || other == term),
{
    let longer = terms.push(term);
    if terms.contains(other) {
        let i = terms.index_of(other);
        assert(longer[i] == other);
    }
    if longer.contains(other) {
        let i = longer.index_of(other);
        if i < terms.len() {
            assert(terms[i] == other);
        }
    }
    assert(longer[terms.len() as int] == term);
}

/// Builds an index from documents.
///
/// Documents are numbered in the order they are added, from zero, and that
/// number is what the posting lists hold.
pub struct Writer {
    analyzer: Analyzer,
    postings: Accumulator,
    lengths: Vec<u32>,
    total: u64,
    fields: Vec<Vec<Field>>,
    /// Whether any document stored anything, which decides whether the fields
    /// are written at all.
    stored: bool,
    docs: Ghost<Seq<Seq<Seq<u8>>>>,
}

impl View for Writer {
    type V = Seq<Seq<Seq<u8>>>;

    /// The terms of each document.
    closed spec fn view(&self) -> Seq<Seq<Seq<u8>>> {
        self.docs@
    }
}

impl Writer {
    /// The fields of each document.
    pub closed spec fn stores(&self) -> Seq<Vec<Field>> {
        self.fields@
    }

    pub closed spec fn wf(&self) -> bool {
        &&& self.postings.wf()
        &&& self.postings.touched@.len() == 0
        &&& self.docs@.len() <= u32::MAX
        &&& self.lengths@.len() == self.docs@.len()
        &&& forall|d: int|
            0 <= d < self.docs@.len() ==> #[trigger] self.lengths@[d] == self.docs@[d].len()
        &&& self.total == total_of(self.docs@)
        &&& self.fields@.len() == self.docs@.len()
        &&& self.stored == stores_any(self.fields@)
        &&& forall|id: int|
            0 <= id < self.postings.vocabulary@.len() ==> #[trigger] self.postings.list(id)
                == postings_of(
                self.docs@,
                self.postings.vocabulary@[id],
                self.docs@.len() as int,
            )
        &&& forall|id: int|
            0 <= id < self.postings.vocabulary@.len() ==> occurs(
                self.docs@,
                #[trigger] self.postings.vocabulary@[id],
            )
        &&& forall|term: Seq<u8>|
            occurs(self.docs@, term) ==> #[trigger] self.postings.vocabulary@.contains(term)
        &&& forall|id: int|
            0 <= id < self.postings.vocabulary@.len() ==> #[trigger] self.postings.stamp@[id]
                <= self.docs@.len()
    }

    /// How much of what can be addressed is used.
    pub closed spec fn used(&self) -> Used {
        Used {
            names: self.postings.vocabulary@,
            full: self.postings.full(),
            bytes: self.postings.vocabulary.arena@.len(),
            links: self.postings.arena@.len(),
        }
    }

    /// Whether a document of these terms can be added.
    pub open spec fn room(&self, terms: Seq<Seq<u8>>) -> bool {
        leaves_room(self.used(), terms)
    }

    /// Creates an empty index.
    pub fn new() -> (writer: Self)
        ensures
            writer.wf(),
            writer@ == Seq::<Seq<Seq<u8>>>::empty(),
            writer.stores() == Seq::<Vec<Field>>::empty(),
            writer.used() == unused(),
            forall|terms: Seq<Seq<u8>>| few(terms) ==> #[trigger] writer.room(terms),
            forall|text: Seq<char>|
                text.len() <= 0x100_0000 ==> #[trigger] writer.room(terms_of(text)),
    {
        let writer = Writer {
            analyzer: Analyzer::new(),
            postings: Accumulator::new(),
            lengths: Vec::new(),
            total: 0,
            fields: Vec::new(),
            stored: false,
            docs: Ghost(Seq::empty()),
        };
        proof {
            assert(writer.postings.full() =~= Set::<Seq<u8>>::empty());
            assert forall|terms: Seq<Seq<u8>>| few(terms) implies #[trigger] writer.room(terms) by {
                lemma_few(writer.used(), terms);
            }
            assert forall|text: Seq<char>| text.len() <= 0x100_0000 implies #[trigger] writer.room(
                terms_of(text),
            ) by {
                lemma_text_is_few(text);
            }
        }
        writer
    }

    /// Reports whether a document of these terms can be added.
    #[verifier::rlimit(40)]
    pub fn has_room(&self, terms: &Vec<Vec<u8>>) -> (yes: bool)
        requires
            self.wf(),
        ensures
            yes == self.room(contents(terms@)),
    {
        broadcast use vstd::std_specs::hash::group_hash_axioms;

        let ghost said = contents(terms@);
        let ghost used = self.used();
        let ghost names = used.names;
        assert(said.len() == terms@.len());
        if terms.len() as u64 > u32::MAX as u64 {
            return false;
        }
        let bytes: u128 = self.postings.vocabulary.arena.len() as u128;
        let count: u128 = self.postings.vocabulary.spans.len() as u128;
        // The terms the index holds by their number, and the others numbered apart
        // from it.
        let mut told: HashSet<u32> = HashSet::new();
        let mut new = Vocabulary::new();
        let mut opened: usize = 0;
        let mut i: usize = 0;
        assert(said.take(0) =~= Seq::<Seq<u8>>::empty());
        while i < terms.len()
            invariant
                i <= terms@.len() <= u32::MAX,
                said == contents(terms@),
                self.postings.vocabulary.wf(),
                self.postings.used@.len() == names.len(),
                used == self.used(),
                names == used.names,
                bytes == used.bytes,
                bytes <= usize::MAX,
                count == names.len(),
                new.wf(),
                forall|term: Seq<u8>| #[trigger]
                    new@.contains(term) == (said.take(i as int).contains(term) && !names.contains(
                        term,
                    )),
                forall|id: u32|
                    id < names.len() ==> #[trigger] told@.contains(id) == said.take(
                        i as int,
                    ).contains(names[id as int]),
                new@.len() == fresh(names, said, i as int),
                new.arena@.len() == fresh_bytes(names, said, i as int),
                opened == distinct_in(used.full, said, i as int),
                opened <= i,
                forall|j: int|
                    0 <= j < i && #[trigger] is_first(said, j) && !names.contains(said[j])
                        ==> used.bytes + fresh_bytes(names, said, j) <= u32::MAX && said[j].len()
                        <= u32::MAX,
            decreases terms.len() - i,
        {
            broadcast use vstd::std_specs::hash::group_hash_axioms;

            let term = terms[i].as_slice();
            let ghost had = said.take(i as int);
            let ghost earlier = told@;
            proof {
                assert(said[i as int] == term@);
                assert(said.take(i + 1) =~= had.push(term@));
                assert forall|t: Seq<u8>| had.push(term@).contains(t) == (had.contains(t) || t
                    == term@) by {
                    lemma_push_contains(had, term@, t);
                }
                lemma_fresh_grows(names, said, i + 1, said.len() as int);
            }
            match self.postings.vocabulary.number(term) {
                Some(id) => {
                    assert(names[id as int] == term@);
                    assert(names.contains(term@));
                    let first: bool = told.insert(id);
                    assert(first == is_first(said, i as int));
                    let full: bool = self.postings.used[id as usize] > 50;
                    proof {
                        assert(used.full.contains(term@) == full) by {
                            if full {
                                assert(self.postings.full_at(term@, id as int));
                            }
                            if used.full.contains(term@) {
                                let k = choose|k: int| #[trigger] self.postings.full_at(term@, k);
                                assert(names[k] == names[id as int]);
                            }
                        }
                        assert forall|k: u32| k < names.len() implies #[trigger] told@.contains(k)
                            == said.take(i + 1).contains(names[k as int]) by {
                            assert(earlier.contains(k) == had.contains(names[k as int]));
                            if names[k as int] == term@ {
                                assert(names[k as int] == names[id as int]);
                            }
                        }
                    }
                    if first && full {
                        opened = opened + 1;
                    }
                },
                None => {
                    proof {
                        assert(!used.full.contains(term@)) by {
                            if used.full.contains(term@) {
                                let k = choose|k: int| #[trigger] self.postings.full_at(term@, k);
                                assert(names[k] == term@);
                            }
                        }
                        assert forall|k: u32| k < names.len() implies #[trigger] told@.contains(k)
                            == said.take(i + 1).contains(names[k as int]) by {
                            assert(earlier.contains(k) == had.contains(names[k as int]));
                            assert(names[k as int] != term@);
                        }
                    }
                    if new.number(term).is_none() {
                        assert(!new@.contains(term@));
                        assert(is_first(said, i as int));
                        let n: u128 = count + new.spans.len() as u128 + 1;
                        if bytes + new.arena.len() as u128 > u32::MAX as u128 || term.len() as u128
                            > u32::MAX as u128 || n > u32::MAX as u128 || 6 * n + 2048
                            > usize::MAX as u128 {
                            assert(!self.room(said));
                            return false;
                        }
                    }
                    let ghost apart = new@;
                    new.intern(term);
                    proof {
                        assert forall|t: Seq<u8>| #[trigger] new@.contains(t) == (said.take(
                            i + 1,
                        ).contains(t) && !names.contains(t)) by {
                            lemma_push_contains(apart, term@, t);
                            assert(apart.contains(t) == (had.contains(t) && !names.contains(t)));
                        }
                    }
                },
            }
            i = i + 1;
        }
        let n: u128 = count + new.spans.len() as u128;
        let chunks: u128 = new.spans.len() as u128 + opened as u128;
        assert(new@.len() == new.spans@.len());
        self.postings.arena.len() as u128 + 64 * chunks <= REACH as u128 && n <= u32::MAX as u128
            && 6 * n + 2048 <= usize::MAX as u128
    }

    /// Adds a document if there is room for it, and says nothing was done where
    /// there is not. Otherwise as [`add_with_fields`](Self::add_with_fields).
    pub fn offer(&mut self, text: &str, fields: Vec<Field>) -> (added: Result<Option<DocId>>)
        requires
            old(self).wf(),
        ensures
            final(self).wf(),
            if !old(self).room(terms_of(text@)) {
                &&& added matches Ok(None)
                &&& final(self)@ == old(self)@
                &&& final(self).stores() == old(self).stores()
                &&& final(self).used() == old(self).used()
            } else if old(self)@.len() < u32::MAX {
                &&& added matches Ok(Some(doc)) && doc == old(self)@.len()
                &&& final(self)@ == old(self)@.push(terms_of(text@))
                &&& final(self).stores().len() == old(self).stores().len() + 1
                &&& final(self).stores().drop_last() == old(self).stores()
                &&& final(self).stores().last()@ == fields@
                &&& spends(old(self).used(), final(self).used(), terms_of(text@))
            } else {
                &&& added matches Err(e) && e == (Error::NotSorted { at: u32::MAX })
                &&& final(self)@ == old(self)@
                &&& final(self).stores() == old(self).stores()
                &&& final(self).used() == old(self).used()
            },
    {
        let ghost held = self.stores();
        let mut analyzer = Analyzer::new();
        let terms = analyzer.analyze(text);
        if !self.has_room(&terms) {
            return Ok(None);
        }
        let plain: bool = fields.len() == 0;
        let added = if plain {
            assert(fields@ =~= Seq::<Field>::empty());
            self.add(text)
        } else {
            self.add_with_fields(text, fields)
        };
        proof {
            if added is Ok {
                assert(self.stores().drop_last() =~= held);
                assert(self.stores().last()@ =~= fields@);
            }
        }
        match added {
            Ok(doc) => Ok(Some(doc)),
            Err(error) => Err(error),
        }
    }

    /// Adds a document and returns the identifier it was given, or
    /// [`Error::NotSorted`] if more documents are added than a document
    /// identifier can hold.
    pub fn add(&mut self, text: &str) -> (added: Result<DocId>)
        requires
            old(self).wf(),
            old(self).room(terms_of(text@)),
        ensures
            final(self).wf(),
            old(self)@.len() < u32::MAX ==> {
                &&& added matches Ok(doc) && doc == old(self)@.len()
                &&& final(self)@ == old(self)@.push(terms_of(text@))
                &&& final(self).stores().len() == old(self).stores().len() + 1
                &&& final(self).stores().drop_last() == old(self).stores()
                &&& final(self).stores().last()@.len() == 0
                &&& spends(old(self).used(), final(self).used(), terms_of(text@))
            },
            old(self)@.len() >= u32::MAX ==> {
                &&& added matches Err(e) && e == (Error::NotSorted { at: u32::MAX })
                &&& final(self)@ == old(self)@
                &&& final(self).stores() == old(self).stores()
                &&& final(self).used() == old(self).used()
            },
    {
        let fields: Vec<Field> = Vec::new();
        let added = self.add_with_fields(text, fields);
        proof {
            if old(self)@.len() < u32::MAX {
                assert(self.stores().drop_last() =~= old(self).stores());
            }
        }
        added
    }

    /// Adds a document, indexing `text` and keeping `fields` to hand back with
    /// a hit.
    ///
    /// The two are separate on purpose. What is worth searching and what is
    /// worth showing are different questions, and a path is the usual example
    /// of something that answers no to the first and yes to the second.
    pub fn add_with_fields(&mut self, text: &str, fields: Vec<Field>) -> (added: Result<DocId>)
        requires
            old(self).wf(),
            old(self).room(terms_of(text@)),
        ensures
            final(self).wf(),
            old(self)@.len() < u32::MAX ==> {
                &&& added matches Ok(doc) && doc == old(self)@.len()
                &&& final(self)@ == old(self)@.push(terms_of(text@))
                &&& final(self).stores() == old(self).stores().push(fields)
                &&& spends(old(self).used(), final(self).used(), terms_of(text@))
            },
            old(self)@.len() >= u32::MAX ==> {
                &&& added matches Err(e) && e == (Error::NotSorted { at: u32::MAX })
                &&& final(self)@ == old(self)@
                &&& final(self).stores() == old(self).stores()
                &&& final(self).used() == old(self).used()
            },
    {
        let terms = self.analyzer.analyze(text);
        proof {
            assert(contents(terms@).len() == terms@.len());
        }
        self.add_terms(&terms, fields)
    }

    /// Adds a document that has already been analysed.
    ///
    /// This is how a document comes back out of a log: what was written down is
    /// what the analyser said, so it is not asked again and cannot answer
    /// differently.
    pub fn add_terms(&mut self, terms: &Vec<Vec<u8>>, fields: Vec<Field>) -> (added: Result<DocId>)
        requires
            old(self).wf(),
            old(self).room(contents(terms@)),
        ensures
            final(self).wf(),
            old(self)@.len() < u32::MAX ==> {
                &&& added matches Ok(doc) && doc == old(self)@.len()
                &&& final(self)@ == old(self)@.push(contents(terms@))
                &&& final(self).stores() == old(self).stores().push(fields)
                &&& spends(old(self).used(), final(self).used(), contents(terms@))
            },
            old(self)@.len() >= u32::MAX ==> {
                &&& added matches Err(e) && e == (Error::NotSorted { at: u32::MAX })
                &&& final(self)@ == old(self)@
                &&& final(self).stores() == old(self).stores()
                &&& final(self).used() == old(self).used()
            },
    {
        let ghost was = *self;
        if self.lengths.len() as u64 >= u32::MAX as u64 {
            return Err(Error::NotSorted { at: u32::MAX });
        }
        let doc: u32 = self.lengths.len() as u32;
        // The stamp is the document number plus one so that zero can mean a term
        // that has not been seen in any document yet.
        let stamp: u32 = doc + 1;
        let ghost said = contents(terms@);
        proof {
            assert(contents(terms@).len() == terms@.len());
            assert forall|id: int|
                0 <= id < was.postings.vocabulary@.len() implies #[trigger] was.postings.documents@[id]
                <= doc && (was.postings.documents@[id] > 0 ==> was.postings.last@[id] < doc) by {
                let names = was.postings.vocabulary@;
                assert(was.postings.kept(id));
                lemma_unfold_len(accumulator::flat(was.postings.chains@[id]));
                lemma_postings_some(was.docs@, names[id], was.docs@.len() as int);
                assert(was.postings.list(id) == postings_of(
                    was.docs@,
                    names[id],
                    was.docs@.len() as int,
                ));
            }
        }
        self.count_all(terms, stamp);
        proof {
            assert forall|id: int| 0 <= id < self.postings.vocabulary@.len() implies
                #[trigger] self.postings.documents@[id] <= doc && (self.postings.documents@[id] > 0
                ==> self.postings.last@[id] < doc) by {
                if id < was.postings.vocabulary@.len() {
                    assert(was.postings.documents@[id] <= doc);
                    assert(was.postings.vocabulary@[id] == self.postings.vocabulary@[id]);
                } else {
                    assert(self.postings.list(id) == Seq::<(u32, u32)>::empty());
                }
            }
        }
        let ghost counted = *self;
        self.postings.flush(doc, stamp, Ghost(said));
        proof {
            Self::lemma_spent(was, counted, *self, said);
        }
        let length: u32 = terms.len() as u32;
        proof {
            assert forall|d: int| 0 <= d < was.docs@.len() implies (#[trigger] was.docs@[d]).len()
                <= u32::MAX by {
                assert(was.lengths@[d] == was.docs@[d].len());
            }
            lemma_total_bound(was.docs@);
            assert(was.docs@.push(said).drop_last() =~= was.docs@);
        }
        self.lengths.push(length);
        self.total = self.total + length as u64;
        if fields.len() > 0 {
            self.stored = true;
        }
        proof {
            lemma_stores_push(was.fields@, fields);
        }
        self.fields.push(fields);
        self.docs = Ghost(self.docs@.push(said));
        proof {
            let docs = self.docs@;
            let names = self.postings.vocabulary@;
            assert forall|id: int| 0 <= id < names.len() implies #[trigger] self.postings.list(id)
                == postings_of(docs, names[id], docs.len() as int) by {
                lemma_postings_prefix(docs, was.docs@, names[id], was.docs@.len() as int);
                lemma_postings_some(was.docs@, names[id], was.docs@.len() as int);
                if id >= was.postings.vocabulary@.len() {
                    assert(counted.postings.list(id) == Seq::<(u32, u32)>::empty());
                    assert(!was.postings.vocabulary@.contains(names[id])) by {
                        if was.postings.vocabulary@.contains(names[id]) {
                            let k = was.postings.vocabulary@.index_of(names[id]);
                            assert(names[k] == names[id]);
                        }
                    }
                    assert(!occurs(was.docs@, names[id]));
                    if postings_of(was.docs@, names[id], was.docs@.len() as int).len() > 0 {
                        let d = choose|d: int|
                            0 <= d < was.docs@.len() && (#[trigger] was.docs@[d]).contains(
                                names[id],
                            );
                        assert(occurs(was.docs@, names[id]));
                    }
                    assert(postings_of(was.docs@, names[id], was.docs@.len() as int) =~= Seq::<
                        (u32, u32),
                    >::empty());
                } else {
                    assert(counted.postings.list(id) == was.postings.list(id));
                }
            }
            assert forall|id: int| 0 <= id < names.len() implies occurs(
                docs,
                #[trigger] names[id],
            ) by {
                if id < was.postings.vocabulary@.len() {
                    assert(occurs(was.docs@, was.postings.vocabulary@[id]));
                    let d = choose|d: int|
                        0 <= d < was.docs@.len() && (#[trigger] was.docs@[d]).contains(names[id]);
                    assert(docs[d].contains(names[id]));
                } else {
                    assert(counted.postings.list(id) == Seq::<(u32, u32)>::empty());
                    assert(counted.postings.stamp@[id] == stamp);
                    lemma_occurrences_bound(said, names[id]);
                    assert(docs[was.docs@.len() as int].contains(names[id]));
                }
            }
            assert forall|term: Seq<u8>| occurs(docs, term) implies #[trigger] names.contains(
                term,
            ) by {
                let d = choose|d: int| 0 <= d < docs.len() && (#[trigger] docs[d]).contains(term);
                if d < was.docs@.len() {
                    assert(was.docs@[d].contains(term));
                    assert(was.postings.vocabulary@.contains(term));
                    let k = was.postings.vocabulary@.index_of(term);
                    assert(names[k] == term);
                } else {
                    let k = said.index_of(term);
                    assert(names.contains(said[k]));
                }
            }
            assert forall|d: int| 0 <= d < docs.len() implies #[trigger] self.lengths@[d]
                == docs[d].len() by {
                if d < was.docs@.len() {
                    assert(self.lengths@[d] == was.lengths@[d]);
                }
            }
        }
        Ok(doc)
    }

    /// What counting the terms of a document makes of what is used.
    spec fn counts(was: Self, now: Self, terms: Seq<Seq<u8>>, n: int) -> bool {
        let used = was.used();
        let names = used.names;
        &&& now.postings.vocabulary@.len() == names.len() + fresh(names, terms, n)
        &&& forall|term: Seq<u8>| #[trigger]
            now.postings.vocabulary@.contains(term) == (names.contains(term) || terms.take(
                n,
            ).contains(term))
        &&& now.postings.vocabulary.arena@.len() == used.bytes + fresh_bytes(names, terms, n)
        &&& now.postings.arena@.len() == used.links + 64 * fresh(names, terms, n)
        &&& wanting(now.postings.touched@, now.postings.used@) == distinct_in(used.full, terms, n)
        &&& forall|id: int|
            0 <= id < now.postings.vocabulary@.len() ==> #[trigger] now.postings.used@[id] == if id
                < names.len() {
                was.postings.used@[id]
            } else {
                0
            }
    }

    /// Counts the terms of a document.
    fn count_all(&mut self, terms: &Vec<Vec<u8>>, stamp: u32)
        requires
            old(self).wf(),
            old(self).room(contents(terms@)),
            stamp == old(self).docs@.len() + 1,
        ensures
            *final(self) == (Writer { postings: final(self).postings, ..*old(self) }),
            final(self).postings.wf(),
            final(self).postings.counted(contents(terms@), stamp),
            Self::counts(*old(self), *final(self), contents(terms@), terms@.len() as int),
            old(self).postings.vocabulary@.len() <= final(self).postings.vocabulary@.len(),
            forall|id: int|
                0 <= id < old(self).postings.vocabulary@.len() ==> {
                    &&& final(self).postings.vocabulary@[id] == #[trigger] old(
                        self,
                    ).postings.vocabulary@[id]
                    &&& final(self).postings.chains@[id] == old(self).postings.chains@[id]
                    &&& final(self).postings.list(id) == old(self).postings.list(id)
                    &&& final(self).postings.documents@[id] == old(self).postings.documents@[id]
                    &&& final(self).postings.last@[id] == old(self).postings.last@[id]
                },
            forall|id: int|
                old(self).postings.vocabulary@.len() <= id < final(self).postings.vocabulary@.len()
                    ==> {
                    &&& #[trigger] final(self).postings.list(id) == Seq::<(u32, u32)>::empty()
                    &&& final(self).postings.documents@[id] == 0
                    &&& final(self).postings.stamp@[id] == stamp
                },
            forall|id: int|
                0 <= id < final(self).postings.vocabulary@.len()
                    ==> #[trigger] final(self).postings.stamp@[id] <= stamp,
    {
        let ghost was = *self;
        let ghost said = contents(terms@);
        let mut i: usize = 0;
        proof {
            assert(contents(terms@).take(0) =~= Seq::<Seq<u8>>::empty());
            assert forall|id: int| 0 <= id < self.postings.vocabulary@.len() implies {
                let often = occurrences(
                    Seq::<Seq<u8>>::empty(),
                    #[trigger] self.postings.vocabulary@[id],
                );
                &&& (self.postings.stamp@[id] == stamp) == (often > 0)
                &&& often > 0 ==> self.postings.frequency@[id] == often
            } by {
                assert(self.postings.stamp@[id] <= self.docs@.len());
            }
        }
        while i < terms.len()
            invariant
                i <= terms@.len(),
                said == contents(terms@),
                said.len() == terms@.len(),
                was.wf(),
                was.room(said),
                stamp > 0,
                *self == (Writer { postings: self.postings, ..was }),
                self.postings.wf(),
                self.postings.counted(contents(terms@).take(i as int), stamp),
                Self::counts(was, *self, said, i as int),
                was.postings.vocabulary@.len() <= self.postings.vocabulary@.len(),
                forall|id: int|
                    0 <= id < was.postings.vocabulary@.len() ==> {
                        &&& self.postings.vocabulary@[id] == #[trigger] was.postings.vocabulary@[id]
                        &&& self.postings.chains@[id] == was.postings.chains@[id]
                        &&& self.postings.documents@[id] == was.postings.documents@[id]
                        &&& self.postings.last@[id] == was.postings.last@[id]
                    },
                forall|id: int|
                    was.postings.vocabulary@.len() <= id < self.postings.vocabulary@.len() ==> {
                        &&& #[trigger] self.postings.list(id) == Seq::<(u32, u32)>::empty()
                        &&& self.postings.documents@[id] == 0
                        &&& self.postings.stamp@[id] == stamp
                    },
                forall|id: int|
                    0 <= id < self.postings.vocabulary@.len()
                        ==> #[trigger] self.postings.stamp@[id] <= stamp,
            decreases terms.len() - i,
        {
            let ghost had = self.postings;
            let ghost taken = contents(terms@).take(i as int);
            proof {
                assert(said[i as int] == terms@[i as int]@);
                lemma_fresh_grows(was.used().names, said, i + 1, said.len() as int);
            }
            self.postings.count(terms[i].as_slice(), stamp, Ghost(taken));
            proof {
                assert(contents(terms@).take(i + 1) =~= taken.push(terms@[i as int]@));
                Self::lemma_counts(was, had, *self, said, i as int);
                assert forall|id: int| 0 <= id < was.postings.vocabulary@.len() implies {
                    &&& self.postings.vocabulary@[id] == #[trigger] was.postings.vocabulary@[id]
                    &&& self.postings.chains@[id] == was.postings.chains@[id]
                    &&& self.postings.documents@[id] == was.postings.documents@[id]
                    &&& self.postings.last@[id] == was.postings.last@[id]
                } by {
                    assert(had.vocabulary@[id] == was.postings.vocabulary@[id]);
                }
                assert forall|id: int|
                    was.postings.vocabulary@.len() <= id < self.postings.vocabulary@.len() implies {
                    &&& #[trigger] self.postings.list(id) == Seq::<(u32, u32)>::empty()
                    &&& self.postings.documents@[id] == 0
                    &&& self.postings.stamp@[id] == stamp
                } by {
                    if id < had.vocabulary@.len() {
                        assert(had.list(id) == Seq::<(u32, u32)>::empty());
                        assert(self.postings.vocabulary@[id] == had.vocabulary@[id]);
                    }
                }
                assert forall|id: int| 0 <= id < self.postings.vocabulary@.len() implies
                    #[trigger] self.postings.stamp@[id] <= stamp by {
                    if id < had.vocabulary@.len() {
                        assert(had.stamp@[id] <= stamp);
                        assert(self.postings.vocabulary@[id] == had.vocabulary@[id]);
                    } else {
                        assert(self.postings.list(id) == Seq::<(u32, u32)>::empty());
                    }
                }
            }
            i = i + 1;
        }
        proof {
            assert(contents(terms@).take(i as int) =~= contents(terms@));
        }
    }

    proof fn lemma_counts(was: Self, had: Accumulator, now: Self, terms: Seq<Seq<u8>>, i: int)
        requires
            0 <= i < terms.len(),
            was.wf(),
            had.wf(),
            now.postings.wf(),
            Self::counts(was, Writer { postings: had, ..was }, terms, i),
            forall|id: int|
                0 <= id < was.postings.vocabulary@.len() ==> had.vocabulary@[id]
                    == #[trigger] was.postings.vocabulary@[id],
            forall|k: int|
                0 <= k < had.touched@.len() ==> (#[trigger] had.touched@[k])
                    < had.vocabulary@.len(),
            if had.vocabulary@.contains(terms[i]) {
                &&& now.postings.arena@.len() == had.arena@.len()
                &&& now.postings.vocabulary@ == had.vocabulary@
                &&& now.postings.vocabulary.arena@.len() == had.vocabulary.arena@.len()
                &&& now.postings.used@ == had.used@
            } else {
                &&& now.postings.arena@.len() == had.arena@.len() + 64
                &&& now.postings.vocabulary@ == had.vocabulary@.push(terms[i])
                &&& now.postings.vocabulary.arena@.len() == had.vocabulary.arena@.len()
                    + terms[i].len()
                &&& now.postings.used@ == had.used@.push(0)
            },
            if terms.take(i).contains(terms[i]) {
                now.postings.touched@ == had.touched@
            } else {
                &&& now.postings.touched@.len() == had.touched@.len() + 1
                &&& now.postings.touched@.drop_last() == had.touched@
                &&& now.postings.touched@.last() < now.postings.vocabulary@.len()
                &&& now.postings.vocabulary@[now.postings.touched@.last() as int] == terms[i]
            },
        ensures
            Self::counts(was, now, terms, i + 1),
    {
        let used = was.used();
        let names = used.names;
        let term = terms[i];
        let before = terms.take(i);
        assert(terms.take(i + 1) =~= before.push(term));
        assert forall|t: Seq<u8>| #[trigger] now.postings.vocabulary@.contains(t) == (
        names.contains(t) || terms.take(i + 1).contains(t)) by {
            lemma_push_contains(before, term, t);
            lemma_push_contains(had.vocabulary@, term, t);
            assert(had.vocabulary@.contains(t) == (names.contains(t) || before.contains(t)));
        }
        assert(had.vocabulary@.contains(term) == (names.contains(term) || before.contains(term)));
        lemma_wanting_same(had.touched@, had.used@, now.postings.used@);
        if !before.contains(term) {
            let id = now.postings.touched@.last() as int;
            if id < names.len() {
                assert(names[id] == term) by {
                    assert(was.postings.vocabulary@[id] == had.vocabulary@[id]);
                }
                assert(names.contains(term));
                assert(used.full.contains(term) == (was.postings.used@[id] > 50)) by {
                    if was.postings.used@[id] > 50 {
                        assert(was.postings.full_at(term, id));
                    }
                    if used.full.contains(term) {
                        let k = choose|k: int| #[trigger] was.postings.full_at(term, k);
                        assert(names[k] == names[id]);
                    }
                }
            } else {
                assert(!used.full.contains(term)) by {
                    if used.full.contains(term) {
                        let k = choose|k: int| #[trigger] was.postings.full_at(term, k);
                        assert(names[k] == term);
                        assert(had.vocabulary@[k] == was.postings.vocabulary@[k]);
                        assert(now.postings.vocabulary@[k] == now.postings.vocabulary@[id]);
                    }
                }
            }
            assert(now.postings.used@[id] == if id < names.len() {
                was.postings.used@[id]
            } else {
                0
            }) by {
                if id < had.vocabulary@.len() {
                    assert(had.used@[id] == now.postings.used@[id]);
                }
            }
        }
        assert forall|id: int|
            0 <= id < now.postings.vocabulary@.len() implies #[trigger] now.postings.used@[id]
            == if id < names.len() {
            was.postings.used@[id]
        } else {
            0
        } by {
            if id < had.vocabulary@.len() {
                assert(had.used@[id] == now.postings.used@[id]);
            }
        }
    }

    /// What is used once the terms that were counted have been flushed.
    proof fn lemma_spent(was: Self, counted: Self, now: Self, terms: Seq<Seq<u8>>)
        requires
            was.wf(),
            counted.postings.wf(),
            Self::counts(was, counted, terms, terms.len() as int),
            forall|id: int|
                0 <= id < was.postings.vocabulary@.len() ==> counted.postings.vocabulary@[id]
                    == #[trigger] was.postings.vocabulary@[id],
            now.postings.vocabulary == counted.postings.vocabulary,
            now.postings.arena@.len() == counted.postings.arena@.len() + 64 * wanting(
                counted.postings.touched@,
                counted.postings.used@,
            ),
            forall|id: int|
                0 <= id < counted.postings.vocabulary@.len() ==> {
                    let often = occurrences(terms, counted.postings.vocabulary@[id]);
                    &&& often == 0 ==> #[trigger] now.postings.used@[id]
                        == counted.postings.used@[id]
                    &&& often > 0 && counted.postings.used@[id] > 50 ==> now.postings.used@[id]
                        <= 50
                },
        ensures
            spends(was.used(), now.used(), terms),
    {
        let names = was.used().names;
        let after = now.postings.vocabulary@;
        assert(terms.take(terms.len() as int) =~= terms);
        assert forall|term: Seq<u8>| !terms.contains(term) implies #[trigger] now.used().full.contains(
        term) == was.used().full.contains(term) by {
            lemma_occurrences_bound(terms, term);
            assert(after.contains(term) == names.contains(term));
            if now.used().full.contains(term) {
                let id = choose|id: int| #[trigger] now.postings.full_at(term, id);
                assert(after[id] == term);
                let k = names.index_of(term);
                assert(was.postings.vocabulary@[k] == after[k]);
                assert(k == id);
                assert(now.postings.used@[id] == counted.postings.used@[id]);
                assert(was.postings.full_at(term, k));
            }
            if was.used().full.contains(term) {
                let k = choose|k: int| #[trigger] was.postings.full_at(term, k);
                assert(was.postings.vocabulary@[k] == after[k]);
                assert(now.postings.used@[k] == counted.postings.used@[k]);
                assert(now.postings.full_at(term, k));
            }
        }
        assert forall|term: Seq<u8>|
            terms.contains(term) && was.used().full.contains(term) implies !#[trigger] now.used().full.contains(
        term) by {
            lemma_occurrences_bound(terms, term);
            let k = choose|k: int| #[trigger] was.postings.full_at(term, k);
            assert(was.postings.vocabulary@[k] == after[k]);
            assert(now.postings.used@[k] <= 50);
            if now.used().full.contains(term) {
                let id = choose|id: int| #[trigger] now.postings.full_at(term, id);
                assert(after[id] == after[k]);
            }
        }
    }

    /// Folds writers into one index, in the order they are given. The same as
    /// [`build`](Self::build).
    pub fn concat(parts: Vec<Self>) -> (built: Result<Contents>)
        requires
            forall|p: int| 0 <= p < parts@.len() ==> (#[trigger] parts@[p]).wf(),
        ensures
            if corpus(parts@).len() <= u32::MAX {
                &&& built matches Ok(c)
                &&& indexes(corpus(parts@), c.entries@)
                &&& c.norms@ == norms_of(corpus(parts@))
                &&& match c.fields {
                    Some(fields) => stores_any(stored(parts@)) && fields@ == stored(parts@),
                    None => !stores_any(stored(parts@)),
                }
            } else {
                built matches Err(e) && e == Error::Overflow
            },
    {
        Self::build(parts)
    }

    /// Builds what a segment of the documents holds.
    pub fn finish(self) -> (built: Result<Contents>)
        requires
            self.wf(),
        ensures
            built matches Ok(c) && {
                &&& indexes(self@, c.entries@)
                &&& c.norms@ == norms_of(self@)
                &&& match c.fields {
                    Some(fields) => stores_any(self.stores()) && fields@ == self.stores(),
                    None => !stores_any(self.stores()),
                }
            },
    {
        let ghost docs = self@;
        let ghost stores = self.stores();
        let mut parts: Vec<Self> = Vec::new();
        parts.push(self);
        proof {
            reveal_with_fuel(corpus, 2);
            reveal_with_fuel(stored, 2);
            assert(parts@.drop_last() =~= Seq::<Writer>::empty());
            assert(corpus(parts@) =~= docs);
            assert(stored(parts@) =~= stores);
        }
        Self::build(parts)
    }

    /// Folds writers that indexed consecutive slices of the same corpus into
    /// one segment.
    ///
    /// Split the corpus, hand each slice to a writer of its own, and fold the
    /// writers here in the order the slices were taken. The documents of a part
    /// are numbered after the documents of every part before it, which is the
    /// only thing that order decides.
    ///
    /// Nothing is sorted here. Each part already knows its own vocabulary in
    /// order, and this walks all of them at once. Reports [`Error::Overflow`] if
    /// the parts together hold more documents than a document identifier can
    /// name.
    pub fn build(parts: Vec<Self>) -> (built: Result<Contents>)
        requires
            forall|p: int| 0 <= p < parts@.len() ==> (#[trigger] parts@[p]).wf(),
        ensures
            if corpus(parts@).len() <= u32::MAX {
                &&& built matches Ok(c)
                &&& indexes(corpus(parts@), c.entries@)
                &&& c.norms@ == norms_of(corpus(parts@))
                &&& match c.fields {
                    Some(fields) => stores_any(stored(parts@)) && fields@ == stored(parts@),
                    None => !stores_any(stored(parts@)),
                }
            } else {
                built matches Err(e) && e == Error::Overflow
            },
    {
        let mut parts = parts;
        let ghost given = parts@;
        let ghost docs = corpus(given);
        let (base, documents) = match bases(&parts) {
            Ok(found) => found,
            Err(error) => {
                return Err(error);
            },
        };
        let entries = fold(&parts, &base);
        let norms = write_norms(&parts, documents);
        // The fields are folded last and into the first part's rather than into
        // a new list.
        let mut held = false;
        let mut fields: Vec<Vec<Field>> = Vec::new();
        let mut at: usize = 0;
        proof {
            assert(given.take(0) =~= Seq::<Writer>::empty());
            assert(stored(given.take(0)) =~= Seq::<Vec<Field>>::empty());
        }
        while at < parts.len()
            invariant
                at <= parts@.len(),
                parts@.len() == given.len(),
                forall|p: int| at <= p < given.len() ==> #[trigger] parts@[p] == given[p],
                forall|p: int| 0 <= p < given.len() ==> (#[trigger] given[p]).wf(),
                fields@ == stored(given.take(at as int)),
                held == stores_any(fields@),
            decreases parts.len() - at,
        {
            let ghost had = fields@;
            assert(parts@[at as int] == given[at as int]);
            assert(given[at as int].wf());
            held = held || parts[at].stored;
            fields.append(&mut parts[at].fields);
            proof {
                assert(given.take(at + 1).drop_last() =~= given.take(at as int));
                lemma_stores_concat(had, given[at as int].fields@);
            }
            at = at + 1;
        }
        assert(given.take(at as int) =~= given);
        Ok(Contents { entries, norms, fields: if held { Some(fields) } else { None } })
    }

    /// How many documents have been added.
    pub fn len(&self) -> (n: usize)
        requires
            self.wf(),
        ensures
            n == self@.len(),
    {
        self.lengths.len()
    }

    /// Whether no documents have been added.
    pub fn is_empty(&self) -> (empty: bool)
        requires
            self.wf(),
        ensures
            empty == (self@.len() == 0),
    {
        self.lengths.len() == 0
    }
}

proof fn lemma_total_bound(docs: Seq<Seq<Seq<u8>>>)
    requires
        forall|d: int| 0 <= d < docs.len() ==> (#[trigger] docs[d]).len() <= u32::MAX,
    ensures
        total_of(docs) <= docs.len() * u32::MAX,
    decreases docs.len(),
{
    if docs.len() > 0 {
        let shorter = docs.drop_last();
        assert forall|d: int| 0 <= d < shorter.len() implies (#[trigger] shorter[d]).len()
            <= u32::MAX by {
            assert(shorter[d] == docs[d]);
        }
        lemma_total_bound(shorter);
        assert(docs[docs.len() - 1].len() <= u32::MAX);
    }
}

/// The documents of the parts, one part after the other.
pub open spec fn corpus(parts: Seq<Writer>) -> Seq<Seq<Seq<u8>>>
    decreases parts.len(),
{
    if parts.len() == 0 {
        Seq::empty()
    } else {
        corpus(parts.drop_last()) + parts.last()@
    }
}

/// The fields of the documents of the parts, one part after the other.
pub open spec fn stored(parts: Seq<Writer>) -> Seq<Vec<Field>>
    decreases parts.len(),
{
    if parts.len() == 0 {
        Seq::empty()
    } else {
        stored(parts.drop_last()) + parts.last().stores()
    }
}

proof fn lemma_corpus_step(parts: Seq<Writer>, at: int)
    requires
        0 <= at < parts.len(),
    ensures
        corpus(parts.take(at + 1)) == corpus(parts.take(at)) + parts[at]@,
{
    assert(parts.take(at + 1).drop_last() =~= parts.take(at));
}

proof fn lemma_corpus_grows(parts: Seq<Writer>, at: int)
    requires
        0 <= at <= parts.len(),
    ensures
        corpus(parts.take(at)).len() <= corpus(parts).len(),
    decreases parts.len() - at,
{
    if at < parts.len() {
        lemma_corpus_step(parts, at);
        lemma_corpus_grows(parts, at + 1);
    } else {
        assert(parts.take(at) =~= parts);
    }
}

proof fn lemma_stores_concat(a: Seq<Vec<Field>>, b: Seq<Vec<Field>>)
    ensures
        stores_any(a + b) == (stores_any(a) || stores_any(b)),
{
    let both = a + b;
    if stores_any(a) {
        let d = choose|d: int| 0 <= d < a.len() && (#[trigger] a[d])@.len() > 0;
        assert(both[d]@.len() > 0);
    }
    if stores_any(b) {
        let d = choose|d: int| 0 <= d < b.len() && (#[trigger] b[d])@.len() > 0;
        assert(both[a.len() + d]@.len() > 0);
    }
    if stores_any(both) {
        let d = choose|d: int| 0 <= d < both.len() && (#[trigger] both[d])@.len() > 0;
        if d < a.len() {
            assert(a[d]@.len() > 0);
        } else {
            assert(b[d - a.len()]@.len() > 0);
        }
    }
}

/// Where each part's documents start once they are all in one segment, and how
/// many there are.
fn bases(parts: &Vec<Writer>) -> (found: Result<(Vec<u32>, u32)>)
    requires
        forall|p: int| 0 <= p < parts@.len() ==> (#[trigger] parts@[p]).wf(),
    ensures
        if corpus(parts@).len() <= u32::MAX {
            &&& found matches Ok((base, documents))
            &&& documents == corpus(parts@).len()
            &&& base@.len() == parts@.len()
            &&& forall|p: int|
                0 <= p < parts@.len() ==> #[trigger] base@[p] == corpus(parts@.take(p)).len()
        } else {
            found matches Err(e) && e == Error::Overflow
        },
{
    let mut base: Vec<u32> = Vec::new();
    let mut documents: u32 = 0;
    let mut at: usize = 0;
    while at < parts.len()
        invariant
            at <= parts@.len(),
            base@.len() == at,
            forall|p: int| 0 <= p < parts@.len() ==> (#[trigger] parts@[p]).wf(),
            documents == corpus(parts@.take(at as int)).len(),
            forall|p: int| 0 <= p < at ==> #[trigger] base@[p] == corpus(parts@.take(p)).len(),
        decreases parts.len() - at,
    {
        base.push(documents);
        assert(parts@[at as int].wf());
        let count: u32 = parts[at].lengths.len() as u32;
        proof {
            lemma_corpus_step(parts@, at as int);
            lemma_corpus_grows(parts@, at + 1);
        }
        documents = match documents.checked_add(count) {
            Some(sum) => sum,
            None => {
                return Err(Error::Overflow);
            },
        };
        at = at + 1;
    }
    assert(parts@.take(at as int) =~= parts@);
    Ok((base, documents))
}

/// The term at place `k` of a part's order.
spec fn name_at(part: Writer, order: Seq<u32>, k: int) -> Seq<u8> {
    part.postings.vocabulary@[order[k] as int]
}

/// The orders hold each part's terms, in order.
spec fn orders_ok(parts: Seq<Writer>, orders: Seq<Vec<u32>>) -> bool {
    &&& orders.len() == parts.len()
    &&& forall|p: int|
        0 <= p < parts.len() ==> {
            let names = (#[trigger] parts[p]).postings.vocabulary@;
            &&& in_order(names, orders[p]@)
            &&& forall|x: u32| #[trigger] orders[p]@.contains(x) == (x < names.len())
        }
}

/// What the parts hold of a term, the first `n` of them.
spec fn gathered(parts: Seq<Writer>, term: Seq<u8>, n: int) -> Seq<(u32, u32)> {
    postings_of(
        corpus(parts.take(n)),
        term,
        corpus(parts.take(n)).len() as int,
    )
}

/// One more part's postings of a term.
proof fn lemma_gather_step(parts: Seq<Writer>, term: Seq<u8>, p: int)
    requires
        0 <= p < parts.len(),
        parts[p].wf(),
        corpus(parts).len() <= u32::MAX,
    ensures
        !parts[p].postings.vocabulary@.contains(term) ==> gathered(parts, term, p + 1) == gathered(
            parts,
            term,
            p,
        ),
        forall|id: int|
            0 <= id < parts[p].postings.vocabulary@.len() && #[trigger] parts[p].postings.vocabulary@[id]
                == term ==> gathered(parts, term, p + 1) == gathered(parts, term, p) + shifted(
                parts[p].postings.list(id),
                corpus(parts.take(p)).len() as u32,
            ) && (forall|i: int|
                0 <= i < parts[p].postings.list(id).len() ==> (#[trigger] parts[p].postings.list(
                    id,
                )[i]).0 + corpus(parts.take(p)).len() <= u32::MAX),
{
    let a = corpus(parts.take(p));
    let b = parts[p]@;
    lemma_corpus_step(parts, p);
    lemma_corpus_grows(parts, p + 1);
    lemma_postings_concat(a, b, term, b.len() as int);
    lemma_postings_some(b, term, b.len() as int);
    let mine = postings_of(b, term, b.len() as int);
    if !parts[p].postings.vocabulary@.contains(term) {
        assert(!occurs(b, term));
        if mine.len() > 0 {
            let d = choose|d: int| 0 <= d < b.len() && (#[trigger] b[d]).contains(term);
            assert(occurs(b, term));
        }
        assert(shifted(mine, a.len() as u32) =~= Seq::<(u32, u32)>::empty());
        assert(gathered(parts, term, p + 1) =~= gathered(parts, term, p));
    }
    assert forall|id: int|
        0 <= id < parts[p].postings.vocabulary@.len() && #[trigger] parts[p].postings.vocabulary@[id]
            == term implies gathered(parts, term, p + 1) == gathered(parts, term, p) + shifted(
        parts[p].postings.list(id),
        a.len() as u32,
    ) && (forall|i: int|
        0 <= i < parts[p].postings.list(id).len() ==> (#[trigger] parts[p].postings.list(id)[i]).0
            + a.len() <= u32::MAX) by {
        assert(parts[p].postings.list(id) == mine);
        assert forall|i: int| 0 <= i < mine.len() implies (#[trigger] mine[i]).0 + a.len()
            <= u32::MAX by {
            assert(mine[i].0 < b.len());
        }
    }
}

/// A term occurs in the corpus exactly if some part has it.
proof fn lemma_corpus_occurs(parts: Seq<Writer>, term: Seq<u8>)
    requires
        forall|p: int| 0 <= p < parts.len() ==> (#[trigger] parts[p]).wf(),
    ensures
        occurs(corpus(parts), term) <==> exists|p: int|
            0 <= p < parts.len() && (#[trigger] parts[p]).postings.vocabulary@.contains(term),
    decreases parts.len(),
{
    if parts.len() > 0 {
        let rest = parts.drop_last();
        let n = parts.len() - 1;
        let last = parts[n];
        let a = corpus(rest);
        let both = corpus(parts);
        assert forall|p: int| 0 <= p < rest.len() implies (#[trigger] rest[p]).wf() by {
            assert(rest[p] == parts[p]);
        }
        lemma_corpus_occurs(rest, term);
        assert(last.wf());
        if occurs(both, term) {
            let d = choose|d: int| 0 <= d < both.len() && (#[trigger] both[d]).contains(term);
            if d < a.len() {
                assert(a[d].contains(term));
                assert(occurs(a, term));
                let p = choose|p: int|
                    0 <= p < rest.len() && (#[trigger] rest[p]).postings.vocabulary@.contains(
                        term,
                    );
                assert(parts[p].postings.vocabulary@.contains(term));
            } else {
                assert(last@[d - a.len()].contains(term));
                assert(occurs(last@, term));
                assert(parts[n].postings.vocabulary@.contains(term));
            }
        }
        if exists|p: int|
            0 <= p < parts.len() && (#[trigger] parts[p]).postings.vocabulary@.contains(term) {
            let p = choose|p: int|
                0 <= p < parts.len() && (#[trigger] parts[p]).postings.vocabulary@.contains(term);
            if p < n {
                assert(rest[p].postings.vocabulary@.contains(term));
                let d = choose|d: int| 0 <= d < a.len() && (#[trigger] a[d]).contains(term);
                assert(both[d].contains(term));
            } else {
                let names = last.postings.vocabulary@;
                let k = names.index_of(term);
                assert(occurs(last@, names[k]));
                let d = choose|d: int|
                    0 <= d < last@.len() && (#[trigger] last@[d]).contains(term);
                assert(both[a.len() + d].contains(term));
            }
        }
    }
}

/// How far the walk of the parts' terms has got, and what it has written.
spec fn walked(
    parts: Seq<Writer>,
    orders: Seq<Vec<u32>>,
    front: Seq<usize>,
    entries: Seq<Entry>,
) -> bool {
    &&& front.len() == parts.len()
    &&& forall|p: int| 0 <= p < parts.len() ==> #[trigger] front[p] <= orders[p]@.len()
    &&& forall|i: int, j: int|
        0 <= i < j < entries.len() ==> before(
            (#[trigger] entries[i]).term@,
            (#[trigger] entries[j]).term@,
        )
    &&& forall|i: int|
        0 <= i < entries.len() ==> (#[trigger] entries[i]).postings@ == gathered(
            parts,
            entries[i].term@,
            parts.len() as int,
        ) && occurs(corpus(parts), entries[i].term@)
    // What has been passed has been written.
    &&& forall|p: int, k: int|
        0 <= p < parts.len() && 0 <= k < front[p] ==> exists|i: int|
            0 <= i < entries.len() && (#[trigger] entries[i]).term@ == #[trigger] name_at(
                parts[p],
                orders[p]@,
                k,
            )
    // What has been written comes before what has not been passed.
    &&& forall|p: int, k: int, i: int|
        0 <= p < parts.len() && front[p] <= k < orders[p]@.len() && 0 <= i < entries.len()
            ==> before(
            (#[trigger] entries[i]).term@,
            #[trigger] name_at(parts[p], orders[p]@, k),
        )
}

/// The smallest term at the front of any part, as the part it is in.
///
/// There are as many parts as there are threads, so finding it by looking at all
/// of them costs less than the heap that would avoid it.
fn least(parts: &Vec<Writer>, orders: &Vec<Vec<u32>>, front: &Vec<usize>) -> (found: Option<usize>)
    requires
        forall|p: int| 0 <= p < parts@.len() ==> (#[trigger] parts@[p]).wf(),
        orders_ok(parts@, orders@),
        front@.len() == parts@.len(),
    ensures
        match found {
            Some(q) => {
                &&& q < parts@.len()
                &&& front@[q as int] < orders@[q as int]@.len()
                &&& forall|p: int|
                    0 <= p < parts@.len() && #[trigger] front@[p] < orders@[p]@.len() ==> !before(
                        name_at(parts@[p], orders@[p]@, front@[p] as int),
                        name_at(parts@[q as int], orders@[q as int]@, front@[q as int] as int),
                    )
            },
            None => forall|p: int|
                0 <= p < parts@.len() ==> #[trigger] front@[p] >= orders@[p]@.len(),
        },
{
    let mut next: Option<usize> = None;
    let mut index: usize = 0;
    while index < parts.len()
        invariant
            index <= parts@.len(),
            forall|p: int| 0 <= p < parts@.len() ==> (#[trigger] parts@[p]).wf(),
            orders_ok(parts@, orders@),
            front@.len() == parts@.len(),
            match next {
                Some(q) => {
                    &&& q < index
                    &&& front@[q as int] < orders@[q as int]@.len()
                    &&& forall|p: int|
                        0 <= p < index && #[trigger] front@[p] < orders@[p]@.len() ==> !before(
                            name_at(parts@[p], orders@[p]@, front@[p] as int),
                            name_at(parts@[q as int], orders@[q as int]@, front@[q as int] as int),
                        )
                },
                None => forall|p: int|
                    0 <= p < index ==> #[trigger] front@[p] >= orders@[p]@.len(),
            },
        decreases parts.len() - index,
    {
        if front[index] < orders[index].len() {
            let id: u32 = orders[index][front[index]];
            proof {
                assert(parts@[index as int].wf());
                assert(orders@[index as int]@.contains(id));
            }
            match next {
                None => {
                    proof {
                        lemma_before_irreflexive(
                            name_at(
                                parts@[index as int],
                                orders@[index as int]@,
                                front@[index as int] as int,
                            ),
                        );
                    }
                    next = Some(index);
                },
                Some(q) => {
                    let held: u32 = orders[q][front[q]];
                    proof {
                        assert(parts@[q as int].wf());
                        assert(orders@[q as int]@.contains(held));
                    }
                    if comes_before(
                        parts[index].postings.vocabulary.term(id),
                        parts[q].postings.vocabulary.term(held),
                    ) {
                        proof {
                            let new = name_at(
                                parts@[index as int],
                                orders@[index as int]@,
                                front@[index as int] as int,
                            );
                            let old_name = name_at(
                                parts@[q as int],
                                orders@[q as int]@,
                                front@[q as int] as int,
                            );
                            lemma_before_irreflexive(new);
                            assert forall|p: int|
                                0 <= p < index + 1 && #[trigger] front@[p]
                                    < orders@[p]@.len() implies !before(
                                name_at(parts@[p], orders@[p]@, front@[p] as int),
                                new,
                            ) by {
                                if p < index {
                                    let other = name_at(parts@[p], orders@[p]@, front@[p] as int);
                                    if before(other, new) {
                                        lemma_before_transitive(other, new, old_name);
                                    }
                                }
                            }
                        }
                        next = Some(index);
                    }
                },
            }
        }
        index = index + 1;
    }
    next
}

/// Writes the term every part that is at it holds, and moves those parts on.
fn gather(
    parts: &Vec<Writer>,
    base: &Vec<u32>,
    orders: &Vec<Vec<u32>>,
    front: &mut Vec<usize>,
    term: &[u8],
    entries: Ghost<Seq<Entry>>,
) -> (list: Vec<(u32, u32)>)
    requires
        forall|p: int| 0 <= p < parts@.len() ==> (#[trigger] parts@[p]).wf(),
        corpus(parts@).len() <= u32::MAX,
        orders_ok(parts@, orders@),
        base@.len() == parts@.len(),
        forall|p: int|
            0 <= p < parts@.len() ==> #[trigger] base@[p] == corpus(parts@.take(p)).len(),
        walked(parts@, orders@, old(front)@, entries@),
        forall|i: int| 0 <= i < entries@.len() ==> before((#[trigger] entries@[i]).term@, term@),
        forall|p: int|
            0 <= p < parts@.len() && #[trigger] old(front)@[p] < orders@[p]@.len() ==> !before(
                name_at(parts@[p], orders@[p]@, old(front)@[p] as int),
                term@,
            ),
    ensures
        final(front)@.len() == old(front)@.len(),
        list@ == gathered(parts@, term@, parts@.len() as int),
        forall|p: int|
            0 <= p < parts@.len() ==> #[trigger] final(front)@[p] == if old(front)@[p]
                < orders@[p]@.len() && name_at(parts@[p], orders@[p]@, old(front)@[p] as int)
                == term@ {
                old(front)@[p] + 1
            } else {
                old(front)@[p] as int
            },
{
    let ghost was = front@;
    let mut list: Vec<(u32, u32)> = Vec::new();
    let mut index: usize = 0;
    proof {
        assert(parts@.take(0) =~= Seq::<Writer>::empty());
        assert(gathered(parts@, term@, 0) =~= Seq::<(u32, u32)>::empty());
    }
    while index < parts.len()
        invariant
            index <= parts@.len(),
            forall|p: int| 0 <= p < parts@.len() ==> (#[trigger] parts@[p]).wf(),
            corpus(parts@).len() <= u32::MAX,
            orders_ok(parts@, orders@),
            base@.len() == parts@.len(),
            forall|p: int|
                0 <= p < parts@.len() ==> #[trigger] base@[p] == corpus(parts@.take(p)).len(),
            walked(parts@, orders@, was, entries@),
            forall|i: int|
                0 <= i < entries@.len() ==> before((#[trigger] entries@[i]).term@, term@),
            forall|p: int|
                0 <= p < parts@.len() && #[trigger] was[p] < orders@[p]@.len() ==> !before(
                    name_at(parts@[p], orders@[p]@, was[p] as int),
                    term@,
                ),
            front@.len() == was.len(),
            list@ == gathered(parts@, term@, index as int),
            forall|p: int| index <= p < parts@.len() ==> #[trigger] front@[p] == was[p],
            forall|p: int|
                0 <= p < index ==> #[trigger] front@[p] == if was[p] < orders@[p]@.len() && name_at(
                    parts@[p],
                    orders@[p]@,
                    was[p] as int,
                ) == term@ {
                    was[p] + 1
                } else {
                    was[p] as int
                },
        decreases parts.len() - index,
    {
        assert(parts@[index as int].wf());
        assert(front@[index as int] == was[index as int]);
        proof {
            lemma_gather_step(parts@, term@, index as int);
            lemma_part_term(parts@, orders@, was, entries@, term@, index as int);
        }
        if front[index] < orders[index].len() {
            let id: u32 = orders[index][front[index]];
            assert(orders@[index as int]@.contains(id));
            if same_bytes(parts[index].postings.vocabulary.term(id), term) {
                proof {
                    assert(parts@[index as int].postings.vocabulary@[id as int] == term@);
                    assert(base@[index as int] == corpus(parts@.take(index as int)).len());
                }
                let walked = parts[index].postings.walk(id, base[index], &mut list);
                assert(walked is Ok);
                let moved: usize = front[index] + 1;
                front.set(index, moved);
            }
        }
        index = index + 1;
    }
    list
}

/// A part that is not at the term does not hold it.
proof fn lemma_part_term(
    parts: Seq<Writer>,
    orders: Seq<Vec<u32>>,
    front: Seq<usize>,
    entries: Seq<Entry>,
    term: Seq<u8>,
    p: int,
)
    requires
        forall|p: int| 0 <= p < parts.len() ==> (#[trigger] parts[p]).wf(),
        orders_ok(parts, orders),
        walked(parts, orders, front, entries),
        forall|i: int| 0 <= i < entries.len() ==> before((#[trigger] entries[i]).term@, term),
        0 <= p < parts.len(),
        front[p] < orders[p]@.len() ==> !before(
            name_at(parts[p], orders[p]@, front[p] as int),
            term,
        ),
    ensures
        !(front[p] < orders[p]@.len() && name_at(parts[p], orders[p]@, front[p] as int) == term)
            ==> !parts[p].postings.vocabulary@.contains(term),
{
    let names = parts[p].postings.vocabulary@;
    let order = orders[p]@;
    let at = front[p] as int;
    if !(at < order.len() && name_at(parts[p], order, at) == term) && names.contains(term) {
        assert(parts[p].wf());
        let id = names.index_of(term);
        assert(order.contains(id as u32));
        let k = order.index_of(id as u32);
        assert(name_at(parts[p], order, k) == term);
        if k < at {
            let i = choose|i: int|
                0 <= i < entries.len() && (#[trigger] entries[i]).term@ == name_at(
                    parts[p],
                    order,
                    k,
                );
            assert(before(entries[i].term@, term));
            lemma_before_irreflexive(term);
        } else if k > at {
            assert(before(names[order[at] as int], names[order[k] as int]));
            assert(before(name_at(parts[p], order, at), term));
        }
    }
}

/// Walks the vocabularies of all the parts at once and gathers each term's
/// postings.
fn fold(parts: &Vec<Writer>, base: &Vec<u32>) -> (entries: Vec<Entry>)
    requires
        forall|p: int| 0 <= p < parts@.len() ==> (#[trigger] parts@[p]).wf(),
        corpus(parts@).len() <= u32::MAX,
        base@.len() == parts@.len(),
        forall|p: int|
            0 <= p < parts@.len() ==> #[trigger] base@[p] == corpus(parts@.take(p)).len(),
    ensures
        indexes(corpus(parts@), entries@),
{
    let mut orders: Vec<Vec<u32>> = Vec::new();
    let mut front: Vec<usize> = Vec::new();
    let mut at: usize = 0;
    while at < parts.len()
        invariant
            at <= parts@.len(),
            orders@.len() == at,
            front@.len() == at,
            forall|p: int| 0 <= p < parts@.len() ==> (#[trigger] parts@[p]).wf(),
            forall|p: int| 0 <= p < at ==> #[trigger] front@[p] == 0,
            forall|p: int|
                0 <= p < at ==> {
                    let names = (#[trigger] parts@[p]).postings.vocabulary@;
                    &&& in_order(names, orders@[p]@)
                    &&& forall|x: u32| #[trigger] orders@[p]@.contains(x) == (x < names.len())
                },
        decreases parts.len() - at,
    {
        assert(parts@[at as int].wf());
        orders.push(parts[at].postings.sorted());
        front.push(0);
        at = at + 1;
    }
    let mut entries: Vec<Entry> = Vec::new();
    let ghost mut left: int = ahead(orders@, front@, parts@.len() as int);
    let mut going: bool = true;
    while going
        invariant
            forall|p: int| 0 <= p < parts@.len() ==> (#[trigger] parts@[p]).wf(),
            corpus(parts@).len() <= u32::MAX,
            orders_ok(parts@, orders@),
            base@.len() == parts@.len(),
            forall|p: int|
                0 <= p < parts@.len() ==> #[trigger] base@[p] == corpus(parts@.take(p)).len(),
            walked(parts@, orders@, front@, entries@),
            left == ahead(orders@, front@, parts@.len() as int),
            !going ==> forall|p: int|
                0 <= p < parts@.len() ==> #[trigger] front@[p] >= orders@[p]@.len(),
        decreases (if going {
            1int
        } else {
            0int
        }), left,
    {
        match least(parts, &orders, &front) {
            None => {
                going = false;
            },
            Some(q) => {
                let id: u32 = orders[q][front[q]];
                proof {
                    assert(parts@[q as int].wf());
                    assert(orders@[q as int]@.contains(id));
                }
                let term = vstd::slice::slice_to_vec(parts[q].postings.vocabulary.term(id));
                let ghost was = front@;
                let ghost had = entries@;
                proof {
                    assert(term@ == name_at(parts@[q as int], orders@[q as int]@, was[q as int]
                        as int));
                    assert forall|i: int| 0 <= i < had.len() implies before(
                        (#[trigger] had[i]).term@,
                        term@,
                    ) by {
                        assert(before(
                            had[i].term@,
                            name_at(parts@[q as int], orders@[q as int]@, was[q as int] as int),
                        ));
                    }
                }
                let postings = gather(
                    parts,
                    base,
                    &orders,
                    &mut front,
                    term.as_slice(),
                    Ghost(entries@),
                );
                let entry = Entry { term, postings };
                proof {
                    assert(front@[q as int] == was[q as int] + 1);
                    lemma_ahead(orders@, was, front@, parts@.len() as int, q as int);
                    left = ahead(orders@, front@, parts@.len() as int);
                    lemma_walked(parts@, orders@, was, front@, had, entry, q as int);
                }
                entries.push(entry);
            },
        }
    }
    proof {
        let docs = corpus(parts@);
        assert(parts@.take(parts@.len() as int) =~= parts@);
        assert forall|term: Seq<u8>| #[trigger] occurs(docs, term) implies exists|i: int|
            0 <= i < entries@.len() && (#[trigger] entries@[i]).term@ == term by {
            lemma_corpus_occurs(parts@, term);
            let p = choose|p: int|
                0 <= p < parts@.len() && (#[trigger] parts@[p]).postings.vocabulary@.contains(
                    term,
                );
            let names = parts@[p].postings.vocabulary@;
            let id = names.index_of(term);
            assert(parts@[p].wf());
            assert(orders@[p]@.contains(id as u32));
            let k = orders@[p]@.index_of(id as u32);
            assert(front@[p] >= orders@[p]@.len());
            assert(name_at(parts@[p], orders@[p]@, k) == term);
        }
    }
    entries
}

/// How many terms the first `n` parts still have ahead.
spec fn ahead(orders: Seq<Vec<u32>>, front: Seq<usize>, n: int) -> int
    decreases n,
{
    if n <= 0 {
        0
    } else {
        ahead(orders, front, n - 1) + (orders[n - 1]@.len() - front[n - 1])
    }
}

proof fn lemma_ahead(orders: Seq<Vec<u32>>, a: Seq<usize>, b: Seq<usize>, n: int, q: int)
    requires
        0 <= n <= a.len(),
        a.len() == b.len(),
        a.len() == orders.len(),
        forall|p: int| 0 <= p < a.len() ==> #[trigger] a[p] <= orders[p]@.len(),
        forall|p: int| 0 <= p < b.len() ==> a[p] <= #[trigger] b[p] <= orders[p]@.len(),
        0 <= q < a.len() ==> b[q] == a[q] + 1,
    ensures
        0 <= ahead(orders, b, n) <= ahead(orders, a, n),
        0 <= q < n ==> ahead(orders, b, n) < ahead(orders, a, n),
    decreases n,
{
    if n > 0 {
        lemma_ahead(orders, a, b, n - 1, q);
        assert(a[n - 1] <= orders[n - 1]@.len());
        assert(a[n - 1] <= b[n - 1] <= orders[n - 1]@.len());
    }
}

/// One term written, and every part that was at it moved past it.
proof fn lemma_walked(
    parts: Seq<Writer>,
    orders: Seq<Vec<u32>>,
    was: Seq<usize>,
    front: Seq<usize>,
    had: Seq<Entry>,
    entry: Entry,
    q: int,
)
    requires
        forall|p: int| 0 <= p < parts.len() ==> (#[trigger] parts[p]).wf(),
        orders_ok(parts, orders),
        walked(parts, orders, was, had),
        front.len() == was.len(),
        0 <= q < parts.len(),
        was[q] < orders[q]@.len(),
        entry.term@ == name_at(parts[q], orders[q]@, was[q] as int),
        entry.postings@ == gathered(parts, entry.term@, parts.len() as int),
        forall|p: int|
            0 <= p < parts.len() && #[trigger] was[p] < orders[p]@.len() ==> !before(
                name_at(parts[p], orders[p]@, was[p] as int),
                entry.term@,
            ),
        forall|p: int|
            0 <= p < parts.len() ==> #[trigger] front[p] == if was[p] < orders[p]@.len() && name_at(
                parts[p],
                orders[p]@,
                was[p] as int,
            ) == entry.term@ {
                was[p] + 1
            } else {
                was[p] as int
            },
    ensures
        walked(parts, orders, front, had.push(entry)),
{
    let now = had.push(entry);
    let term = entry.term@;
    assert forall|p: int| 0 <= p < parts.len() implies #[trigger] front[p]
        <= orders[p]@.len() by {
        assert(was[p] <= orders[p]@.len());
    }
    assert(occurs(corpus(parts), term)) by {
        assert(parts[q].wf());
        let id = orders[q]@[was[q] as int];
        assert(orders[q]@.contains(id));
        assert(parts[q].postings.vocabulary@[id as int] == term);
        assert(parts[q].postings.vocabulary@.contains(term));
        lemma_corpus_occurs(parts, term);
    }
    assert forall|i: int, j: int| 0 <= i < j < now.len() implies before(
        (#[trigger] now[i]).term@,
        (#[trigger] now[j]).term@,
    ) by {
        if j == had.len() {
            assert(before(had[i].term@, name_at(parts[q], orders[q]@, was[q] as int)));
        }
    }
    assert forall|p: int, k: int| 0 <= p < parts.len() && 0 <= k < front[p] implies exists|i: int|
        0 <= i < now.len() && (#[trigger] now[i]).term@ == #[trigger] name_at(
            parts[p],
            orders[p]@,
            k,
        ) by {
        if k < was[p] {
            let i = choose|i: int|
                0 <= i < had.len() && (#[trigger] had[i]).term@ == name_at(
                    parts[p],
                    orders[p]@,
                    k,
                );
            assert(now[i].term@ == name_at(parts[p], orders[p]@, k));
        } else {
            assert(now[had.len() as int].term@ == name_at(parts[p], orders[p]@, k));
        }
    }
    assert forall|p: int, k: int, i: int|
        0 <= p < parts.len() && front[p] <= k < orders[p]@.len() && 0 <= i
            < now.len() implies before(
        (#[trigger] now[i]).term@,
        #[trigger] name_at(parts[p], orders[p]@, k),
    ) by {
        assert(was[p] <= front[p]);
        let name = name_at(parts[p], orders[p]@, k);
        if i < had.len() {
            assert(before(had[i].term@, name));
        } else {
            let names = parts[p].postings.vocabulary@;
            let first = name_at(parts[p], orders[p]@, was[p] as int);
            assert(in_order(names, orders[p]@));
            lemma_before_total(first, term);
            if was[p] < k {
                assert(before(
                    names[orders[p]@[was[p] as int] as int],
                    names[orders[p]@[k] as int],
                ));
                if first != term {
                    lemma_before_transitive(term, first, name);
                }
            }
        }
    }
}

/// Writes the counts and the lengths.
fn write_norms(parts: &Vec<Writer>, documents: u32) -> (norms: Vec<u8>)
    requires
        forall|p: int| 0 <= p < parts@.len() ==> (#[trigger] parts@[p]).wf(),
        corpus(parts@).len() == documents,
    ensures
        norms@ == norms_of(corpus(parts@)),
{
    let mut norms: Vec<u8> = Vec::new();
    put_u32(&mut norms, documents);
    let mut total: u64 = 0;
    let mut at: usize = 0;
    proof {
        assert(parts@.take(0) =~= Seq::<Writer>::empty());
    }
    while at < parts.len()
        invariant
            at <= parts@.len(),
            forall|p: int| 0 <= p < parts@.len() ==> (#[trigger] parts@[p]).wf(),
            corpus(parts@).len() == documents,
            total == total_of(corpus(parts@.take(at as int))),
        decreases parts.len() - at,
    {
        assert(parts@[at as int].wf());
        proof {
            lemma_corpus_step(parts@, at as int);
            lemma_total_concat(corpus(parts@.take(at as int)), parts@[at as int]@);
            lemma_corpus_grows(parts@, at + 1);
            lemma_corpus_lengths(parts@.take(at + 1));
            lemma_total_bound(corpus(parts@.take(at + 1)));
            assert(corpus(parts@.take(at + 1)).len() * u32::MAX <= u64::MAX) by (nonlinear_arith)
                requires
                    corpus(parts@.take(at + 1)).len() <= u32::MAX,
            ;
        }
        total = total + parts[at].total;
        at = at + 1;
    }
    assert(parts@.take(at as int) =~= parts@);
    put_u64(&mut norms, total);
    let ghost head = norms@;
    let mut at: usize = 0;
    assert(head + lengths_bytes(corpus(parts@.take(0))) =~= head);
    while at < parts.len()
        invariant
            at <= parts@.len(),
            forall|p: int| 0 <= p < parts@.len() ==> (#[trigger] parts@[p]).wf(),
            norms@ == head + lengths_bytes(corpus(parts@.take(at as int))),
        decreases parts.len() - at,
    {
        assert(parts@[at as int].wf());
        let ghost had = corpus(parts@.take(at as int));
        let ghost mine = parts@[at as int]@;
        let mut d: usize = 0;
        assert(had + mine.take(0) =~= had);
        while d < parts[at].lengths.len()
            invariant
                at < parts@.len(),
                parts@[at as int].wf(),
                mine == parts@[at as int]@,
                d <= mine.len(),
                norms@ == head + lengths_bytes(had + mine.take(d as int)),
            decreases mine.len() - d,
        {
            put_u32(&mut norms, parts[at].lengths[d]);
            proof {
                assert(parts@[at as int].lengths@[d as int] == mine[d as int].len());
                let longer = had + mine.take(d + 1);
                assert(longer.drop_last() =~= had + mine.take(d as int));
                assert(longer.last() == mine[d as int]);
                assert(norms@ =~= head + lengths_bytes(longer));
            }
            d = d + 1;
        }
        proof {
            lemma_corpus_step(parts@, at as int);
            assert(mine.take(d as int) =~= mine);
        }
        at = at + 1;
    }
    proof {
        assert(parts@.take(at as int) =~= parts@);
        assert(norms@ =~= norms_of(corpus(parts@)));
    }
    norms
}

proof fn lemma_total_concat(a: Seq<Seq<Seq<u8>>>, b: Seq<Seq<Seq<u8>>>)
    ensures
        total_of(a + b) == total_of(a) + total_of(b),
    decreases b.len(),
{
    if b.len() == 0 {
        assert(a + b =~= a);
    } else {
        assert((a + b).drop_last() =~= a + b.drop_last());
        lemma_total_concat(a, b.drop_last());
    }
}

proof fn lemma_corpus_lengths(parts: Seq<Writer>)
    requires
        forall|p: int| 0 <= p < parts.len() ==> (#[trigger] parts[p]).wf(),
    ensures
        forall|d: int|
            0 <= d < corpus(parts).len() ==> (#[trigger] corpus(parts)[d]).len() <= u32::MAX,
    decreases parts.len(),
{
    if parts.len() > 0 {
        let rest = parts.drop_last();
        assert forall|p: int| 0 <= p < rest.len() implies (#[trigger] rest[p]).wf() by {
            assert(rest[p] == parts[p]);
        }
        lemma_corpus_lengths(rest);
        let last = parts[parts.len() - 1];
        assert(last.wf());
        assert forall|d: int| 0 <= d < corpus(parts).len() implies (#[trigger] corpus(
            parts,
        )[d]).len() <= u32::MAX by {
            let n = corpus(rest).len();
            if d < n {
                assert(corpus(parts)[d] == corpus(rest)[d]);
            } else {
                assert(corpus(parts)[d] == last@[d - n]);
                assert(last.lengths@[d - n] == last@[d - n].len());
            }
        }
    }
}

/// Whether any document stored anything.
pub open spec fn stores_any(fields: Seq<Vec<Field>>) -> bool {
    exists|d: int| 0 <= d < fields.len() && (#[trigger] fields[d])@.len() > 0
}

proof fn lemma_stores_push(fields: Seq<Vec<Field>>, more: Vec<Field>)
    ensures
        stores_any(fields.push(more)) == (stores_any(fields) || more@.len() > 0),
{
    let longer = fields.push(more);
    if stores_any(fields) {
        let d = choose|d: int| 0 <= d < fields.len() && (#[trigger] fields[d])@.len() > 0;
        assert(longer[d]@.len() > 0);
    }
    if more@.len() > 0 {
        assert(longer[fields.len() as int]@.len() > 0);
    }
    if stores_any(longer) {
        let d = choose|d: int| 0 <= d < longer.len() && (#[trigger] longer[d])@.len() > 0;
        if d < fields.len() {
            assert(fields[d]@.len() > 0);
        }
    }
}

} // verus!

//! Reading an index out of a segment.
use crate::codec::{get_u32, get_u64, le_bytes, le_value, lemma_le_bytes, lemma_le_unfold, short};
use crate::error::{Error, Result};
use crate::file::clamped;
use crate::index::{
    indexes, lengths_bytes, norms_of, occurs, postings_of, total_of, Contents, Entry,
};
use crate::keys::{read_word, word_at};
use crate::order::{
    before, comes_before, lemma_before_irreflexive, lemma_before_total, lemma_before_transitive,
};
use crate::segment::{
    kind, law_the_first_section_of_a_kind_is_found, place_of, section, Segment,
};
use crate::DocId;
use vstd::prelude::*;
use vstd::slice::slice_subrange;

verus! {

/// What a norms section says: how many documents, how many terms altogether, and
/// the lengths.
pub open spec fn norms_read(norms: Seq<u8>) -> core::result::Result<(nat, nat, Seq<u8>), Error> {
    if norms.len() < 4 {
        Err(short(4, norms.len()))
    } else if norms.len() < 12 {
        Err(short(8, (norms.len() - 4) as nat))
    } else {
        let documents = le_value(norms.take(4));
        if norms.len() - 12 < 4 * documents {
            Err(short(clamped(4 * documents), (norms.len() - 12) as nat))
        } else {
            Ok((documents, le_value(norms.subrange(4, 12)), norms.skip(12)))
        }
    }
}

/// The bytes of a section, if there is one.
pub open spec fn bytes_of(segment: Segment, kind: u16) -> Option<Seq<u8>> {
    match place_of(segment.sections@, kind) {
        Some(at) => Some(segment.sections@[at].bytes@),
        None => None,
    }
}

/// What the norms of a segment say, or which of the three sections an index needs
/// is missing or short.
pub open spec fn index_read(segment: Segment) -> core::result::Result<(nat, nat, Seq<u8>), Error> {
    match (
        bytes_of(segment, kind::TERMS),
        bytes_of(segment, kind::POSTINGS),
        bytes_of(segment, kind::NORMS),
    ) {
        (None, _, _) => Err(Error::MissingSection { kind: kind::TERMS }),
        (Some(_), None, _) => Err(Error::MissingSection { kind: kind::POSTINGS }),
        (Some(_), Some(_), None) => Err(Error::MissingSection { kind: kind::NORMS }),
        (Some(_), Some(_), Some(norms)) => norms_read(norms),
    }
}

/// What was wrong, if anything was.
pub open spec fn wrong<T>(result: core::result::Result<T, Error>) -> Option<Error> {
    match result {
        Ok(_) => None,
        Err(error) => Some(error),
    }
}

/// What is wrong with the index of a segment, if anything is: with its sections or
/// its norms, then with what its fields decode to where it has any, and then with
/// its dictionary.
pub open spec fn unopened(
    segment: Segment,
    dictionary: Option<Error>,
    store: Option<Error>,
) -> Option<Error> {
    match index_read(segment) {
        Err(error) => Some(error),
        Ok(_) => if bytes_of(segment, kind::FIELDS) is Some && store is Some {
            store
        } else {
            dictionary
        },
    }
}

/// Reads an index: what is in it, where its lists are and how long its documents
/// are.
#[derive(Debug, Clone, Copy)]
pub struct Reader<'a> {
    terms: u32,
    dictionary: &'a [u8],
    postings: &'a [u8],
    lengths: &'a [u8],
    fields: Option<&'a [u8]>,
    documents: u32,
    total: u64,
}

impl<'a> Reader<'a> {
    pub closed spec fn wf(&self) -> bool {
        4 * self.documents <= self.lengths@.len()
    }

    pub closed spec fn documents_in(&self) -> u32 {
        self.documents
    }

    pub closed spec fn total_in(&self) -> u64 {
        self.total
    }

    pub closed spec fn lengths_in(&self) -> Seq<u8> {
        self.lengths@
    }

    pub closed spec fn postings_in(&self) -> Seq<u8> {
        self.postings@
    }

    pub closed spec fn terms_in(&self) -> u32 {
        self.terms
    }

    pub closed spec fn dictionary_in(&self) -> Seq<u8> {
        self.dictionary@
    }

    pub closed spec fn fields_in(&self) -> Option<Seq<u8>> {
        match self.fields {
            Some(bytes) => Some(bytes@),
            None => None,
        }
    }

    /// Opens the index in a segment, where opening its dictionary came to `dictionary`,
    /// how many terms that holds, and opening its fields came to `store`.
    ///
    /// Reports [`Error::MissingSection`] if any of the three sections an index
    /// needs is not there, [`Error::Truncated`] if the lengths are short, and what is
    /// wrong with the fields, if there are any, or with the dictionary.
    pub fn open(segment: &'a Segment, dictionary: Result<u32>, store: Result<()>) -> (reader: Result<
        Self,
    >)
        ensures
            match unopened(*segment, wrong(dictionary), wrong(store)) {
                Some(error) => reader matches Err(e) && e == error,
                None => {
                    &&& reader matches Ok(r)
                    &&& r.wf()
                    &&& r.terms_in() == dictionary->Ok_0
                    &&& r.documents_in() == index_read(*segment)->Ok_0.0
                    &&& r.total_in() == index_read(*segment)->Ok_0.1
                    &&& r.lengths_in() == index_read(*segment)->Ok_0.2
                    &&& Some(r.dictionary_in()) == bytes_of(*segment, kind::TERMS)
                    &&& Some(r.postings_in()) == bytes_of(*segment, kind::POSTINGS)
                    &&& r.fields_in() == bytes_of(*segment, kind::FIELDS)
                },
            },
    {
        let bytes = match section(segment, kind::TERMS) {
            Ok(bytes) => bytes,
            Err(error) => {
                return Err(error);
            },
        };
        let postings = match section(segment, kind::POSTINGS) {
            Ok(bytes) => bytes,
            Err(error) => {
                return Err(error);
            },
        };
        let norms = match section(segment, kind::NORMS) {
            Ok(bytes) => bytes,
            Err(error) => {
                return Err(error);
            },
        };
        assert(norms.len() <= usize::MAX);
        let (documents, rest) = match get_u32(norms) {
            Ok(read) => read,
            Err(error) => {
                return Err(error);
            },
        };
        let (total, lengths) = match get_u64(rest) {
            Ok(read) => read,
            Err(error) => {
                return Err(error);
            },
        };
        proof {
            assert(norms@.skip(4).take(8) =~= norms@.subrange(4, 12));
            assert(norms@.skip(4).skip(8) =~= norms@.skip(12));
        }
        let needed: usize = match (documents as usize).checked_mul(4) {
            Some(needed) => needed,
            None => usize::MAX,
        };
        if lengths.len() < needed {
            return Err(Error::Truncated { needed, available: lengths.len() });
        }
        let fields = segment.section(kind::FIELDS);
        if fields.is_some() {
            match store {
                Ok(()) => {},
                Err(error) => {
                    return Err(error);
                },
            }
        }
        match dictionary {
            Ok(terms) => Ok(
                Reader { terms, dictionary: bytes, postings, lengths, fields, documents, total },
            ),
            Err(error) => Err(error),
        }
    }

    /// How many documents the index holds.
    pub fn documents(&self) -> (n: u32)
        ensures
            n == self.documents_in(),
    {
        self.documents
    }

    /// Whether the index holds no documents.
    pub fn is_empty(&self) -> (empty: bool)
        ensures
            empty == (self.documents_in() == 0),
    {
        self.documents == 0
    }

    /// How many terms a document holds, or zero if there is no such document.
    pub fn length(&self, doc: DocId) -> (n: u32)
        requires
            self.wf(),
        ensures
            n == if doc < self.documents_in() {
                word_at(self.lengths_in(), doc as int)
            } else {
                0
            },
    {
        if doc >= self.documents {
            return 0;
        }
        assert(self.lengths.len() <= usize::MAX);
        read_word(self.lengths, doc as usize)
    }

    /// How many terms the index holds across all of its documents.
    ///
    /// The numerator of the mean length, and what a search across several segments
    /// needs. Such a search cannot average the segments' averages, because a mean
    /// of means is only the mean when the parts are the same size.
    pub fn total_length(&self) -> (n: u64)
        ensures
            n == self.total_in(),
    {
        self.total
    }

    /// How many distinct terms the index holds.
    pub fn terms(&self) -> (n: u32)
        ensures
            n == self.terms_in(),
    {
        self.terms
    }

    /// The bytes of the term dictionary.
    pub fn dictionary(&self) -> (bytes: &'a [u8])
        ensures
            bytes@ == self.dictionary_in(),
    {
        self.dictionary
    }

    /// The bytes of the stored fields, or nothing if the index was built without
    /// any.
    pub fn store(&self) -> (bytes: Option<&'a [u8]>)
        ensures
            match self.fields_in() {
                Some(fields) => bytes matches Some(held) && held@ == fields,
                None => bytes is None,
            },
    {
        self.fields
    }

    /// The bytes of the posting list an entry of the dictionary points at.
    ///
    /// Reports [`Error::SectionOutOfRange`] if the entry points outside the
    /// postings section.
    pub fn list(&self, offset: u64, len: u64) -> (list: Result<&'a [u8]>)
        ensures
            if offset + len <= self.postings_in().len() {
                list matches Ok(bytes) && bytes@ == self.postings_in().subrange(
                    offset as int,
                    offset + len,
                )
            } else {
                list matches Err(e) && e == (Error::SectionOutOfRange {
                    kind: kind::POSTINGS,
                    offset,
                    length: len,
                })
            },
    {
        let available: u64 = self.postings.len() as u64;
        if offset > available || len > available - offset {
            return Err(
                Error::SectionOutOfRange { kind: kind::POSTINGS, offset, length: len },
            );
        }
        let start: usize = offset as usize;
        let end: usize = start + len as usize;
        Ok(slice_subrange(self.postings, start, end))
    }
}

// ---------------------------------------------------------------------------
// What has been indexed and not yet laid out.
// ---------------------------------------------------------------------------

/// The entries are in term order.
pub open spec fn in_order(entries: Seq<Entry>) -> bool {
    forall|i: int, j: int|
        0 <= i < j < entries.len() ==> before(
            (#[trigger] entries[i]).term@,
            (#[trigger] entries[j]).term@,
        )
}

impl Contents {
    /// The postings of a term, or nothing if the term is not in the index.
    pub fn postings(&self, term: &[u8]) -> (found: Option<&Vec<(DocId, u32)>>)
        requires
            in_order(self.entries@),
        ensures
            match found {
                Some(list) => exists|i: int|
                    0 <= i < self.entries@.len() && (#[trigger] self.entries@[i]).term@ == term@
                        && self.entries@[i].postings == list,
                None => forall|i: int|
                    0 <= i < self.entries@.len() ==> (#[trigger] self.entries@[i]).term@ != term@,
            },
    {
        let mut low: usize = 0;
        let mut high: usize = self.entries.len();
        while low < high
            invariant
                low <= high <= self.entries@.len(),
                in_order(self.entries@),
                forall|i: int| 0 <= i < low ==> before((#[trigger] self.entries@[i]).term@, term@),
                forall|i: int|
                    high <= i < self.entries@.len() ==> before(
                        term@,
                        (#[trigger] self.entries@[i]).term@,
                    ),
            decreases high - low,
        {
            let middle: usize = low + (high - low) / 2;
            let held = self.entries[middle].term.as_slice();
            if comes_before(held, term) {
                proof {
                    assert forall|i: int| 0 <= i < middle + 1 implies before(
                        (#[trigger] self.entries@[i]).term@,
                        term@,
                    ) by {
                        if i < middle {
                            lemma_before_transitive(self.entries@[i].term@, held@, term@);
                        }
                    }
                }
                low = middle + 1;
            } else if comes_before(term, held) {
                proof {
                    assert forall|i: int| middle <= i < self.entries@.len() implies before(
                        term@,
                        (#[trigger] self.entries@[i]).term@,
                    ) by {
                        if i > middle {
                            lemma_before_transitive(term@, held@, self.entries@[i].term@);
                        }
                    }
                }
                high = middle;
            } else {
                proof {
                    lemma_before_total(held@, term@);
                    assert(self.entries@[middle as int].term@ == term@);
                }
                return Some(&self.entries[middle].postings);
            }
        }
        proof {
            lemma_before_irreflexive(term@);
        }
        None
    }
}

/// Every term finds the documents it was in: what an index of documents gives for
/// a term is the term's postings, and it gives nothing only for a term that does
/// not occur.
pub proof fn law_a_term_finds_its_documents(
    docs: Seq<Seq<Seq<u8>>>,
    contents: Contents,
    term: Seq<u8>,
)
    requires
        indexes(docs, contents.entries@),
    ensures
        in_order(contents.entries@),
        forall|i: int|
            0 <= i < contents.entries@.len() && (#[trigger] contents.entries@[i]).term@ == term
                ==> contents.entries@[i].postings@ == postings_of(docs, term, docs.len() as int),
        occurs(docs, term) == exists|i: int|
            0 <= i < contents.entries@.len() && (#[trigger] contents.entries@[i]).term@ == term,
{
}

/// The lengths that were written are the ones read back.
pub proof fn law_written_lengths_are_read(docs: Seq<Seq<Seq<u8>>>, d: int)
    requires
        docs.len() <= u32::MAX,
        total_of(docs) <= u64::MAX,
        forall|i: int| 0 <= i < docs.len() ==> (#[trigger] docs[i]).len() <= u32::MAX,
        0 <= d < docs.len(),
    ensures
        norms_read(norms_of(docs)) == Ok::<(nat, nat, Seq<u8>), Error>(
            (docs.len(), total_of(docs), lengths_bytes(docs)),
        ),
        word_at(lengths_bytes(docs), d) == docs[d].len(),
{
    let norms = norms_of(docs);
    lemma_le_unfold(0);
    lemma_le_bytes(docs.len(), 4);
    lemma_le_bytes(total_of(docs), 8);
    lemma_lengths(docs, d);
    assert(norms.take(4) =~= le_bytes(docs.len(), 4));
    assert(norms.subrange(4, 12) =~= le_bytes(total_of(docs), 8));
    assert(norms.skip(12) =~= lengths_bytes(docs));
}

proof fn lemma_lengths(docs: Seq<Seq<Seq<u8>>>, d: int)
    requires
        forall|i: int| 0 <= i < docs.len() ==> (#[trigger] docs[i]).len() <= u32::MAX,
    ensures
        lengths_bytes(docs).len() == 4 * docs.len(),
        0 <= d < docs.len() ==> word_at(lengths_bytes(docs), d) == docs[d].len(),
    decreases docs.len(),
{
    if docs.len() > 0 {
        let rest = docs.drop_last();
        lemma_lengths(rest, d);
        lemma_le_unfold(0);
        lemma_le_bytes(docs.last().len(), 4);
        let bytes = lengths_bytes(docs);
        if 0 <= d < rest.len() {
            assert(bytes.subrange(4 * d, 4 * d + 4) =~= lengths_bytes(rest).subrange(
                4 * d,
                4 * d + 4,
            ));
        } else if d == rest.len() {
            assert(bytes.subrange(4 * d, 4 * d + 4) =~= le_bytes(docs.last().len(), 4));
        }
    }
}

/// Norms are read exactly where they are as long as they say: twelve bytes, then four for
/// each document.
pub proof fn law_norms_are_read_where_they_are_whole(norms: Seq<u8>)
    ensures
        ({
            let documents = le_value(norms.subrange(0, 4)) as int;
            &&& norms_read(norms) is Ok <==> norms.len() >= 12 && 12 + 4 * documents <= norms.len()
            &&& norms_read(norms) matches Ok((n, total, lengths)) ==> {
                &&& n == documents
                &&& total == le_value(norms.subrange(4, 12))
                &&& forall|d: int|
                    0 <= d < documents ==> #[trigger] word_at(lengths, d) == le_value(
                        norms.subrange(12 + 4 * d, 16 + 4 * d),
                    )
            }
        }),
{
    if norms.len() >= 12 {
        assert(norms.take(4) =~= norms.subrange(0, 4));
        let documents = le_value(norms.subrange(0, 4)) as int;
        if 12 + 4 * documents <= norms.len() {
            let lengths = norms.skip(12);
            assert forall|d: int| 0 <= d < documents implies #[trigger] word_at(lengths, d)
                == le_value(norms.subrange(12 + 4 * d, 16 + 4 * d)) by {
                assert(lengths.subrange(4 * d, 4 * d + 4) =~= norms.subrange(
                    12 + 4 * d,
                    16 + 4 * d,
                ));
            }
        }
    }
}

/// The index of a segment opens exactly where its dictionary, its postings and its norms
/// are there and its norms are whole, its dictionary decodes, and its fields do where it
/// has any. What is missing is reported before what does not decode.
pub proof fn law_an_index_opens_where_all_of_it_is_there(
    segment: Segment,
    dictionary: Option<Error>,
    store: Option<Error>,
)
    ensures
        ({
            let held_as = |kind: u16|
                exists|i: int|
                    0 <= i < segment.sections@.len() && (#[trigger] segment.sections@[i]).kind
                        == kind;
            &&& unopened(segment, dictionary, store) is None <==> held_as(kind::TERMS) && held_as(
                kind::POSTINGS,
            ) && held_as(kind::NORMS) && norms_read(bytes_of(segment, kind::NORMS).unwrap()) is Ok
                && dictionary is None && (held_as(kind::FIELDS) ==> store is None)
            &&& !held_as(kind::TERMS) ==> unopened(segment, dictionary, store) == Some(
                Error::MissingSection { kind: kind::TERMS },
            )
            &&& held_as(kind::TERMS) && !held_as(kind::POSTINGS) ==> unopened(segment, dictionary, store)
                == Some(Error::MissingSection { kind: kind::POSTINGS })
            &&& held_as(kind::TERMS) && held_as(kind::POSTINGS) && !held_as(kind::NORMS) ==> unopened(
                segment,
                dictionary,
                store,
            ) == Some(Error::MissingSection { kind: kind::NORMS })
        }),
{
    law_the_first_section_of_a_kind_is_found(segment.sections@, kind::TERMS);
    law_the_first_section_of_a_kind_is_found(segment.sections@, kind::POSTINGS);
    law_the_first_section_of_a_kind_is_found(segment.sections@, kind::NORMS);
    law_the_first_section_of_a_kind_is_found(segment.sections@, kind::FIELDS);
    assert forall|kind: u16| #[trigger] bytes_of(segment, kind) is Some implies exists|i: int|
        0 <= i < segment.sections@.len() && (#[trigger] segment.sections@[i]).kind == kind by {
        law_the_first_section_of_a_kind_is_found(segment.sections@, kind);
        let at = place_of(segment.sections@, kind).unwrap();
        assert(segment.sections@[at].kind == kind);
    }
}

} // verus!

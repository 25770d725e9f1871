//! Folding segments into one and leaving out what was deleted.
//!
//! A store gains a segment every time a batch is committed and never loses one.
//! Given some segments and the deletions beside them, [`merge`] produces one
//! segment holding exactly their live documents, numbered again from zero in the
//! order the sources were given.
//!
//! The merge is a rewrite rather than a copy: every document identifier in the
//! postings moves. What is copied is the part that does not depend on the
//! numbering: the stored fields of the documents that survive, and their keys.
use crate::bitmap::Bitmap;
use crate::codec::{le_bytes, put_u32, put_u64};
use crate::count::{count, lemma_count_bound, lemma_count_split};
use crate::error::{Error, Result};
use crate::index::reader::{bytes_of, in_order, index_read, unopened, wrong, Reader};
use crate::index::{Contents, Entry, Field};
use crate::keymap::KeyMap;
use crate::keys::{self, word_at};
use crate::length::{round, rounds_to};
use crate::order::{
    before, comes_before, lemma_before_irreflexive, lemma_before_total, lemma_before_transitive,
    same_bytes,
};
use crate::segment::{kind, Section, Segment};
use crate::DocId;
use vstd::prelude::*;

pub mod carried;
pub mod laws;

verus! {

/// What a document that did not survive is numbered.
pub const GONE: DocId = 0xffff_ffff;

/// Whether a merge knows how to carry a section of a kind.
///
/// Everything a segment can hold is either one of these or a reason to refuse.
pub open spec fn carried_kind(kind: u16) -> bool {
    ||| kind == kind::TERMS
    ||| kind == kind::POSTINGS
    ||| kind == kind::NORMS
    ||| kind == kind::ROUNDED
    ||| kind == kind::BOUNDS
    ||| kind == kind::WIDE_BOUNDS
    ||| kind == kind::FIELDS
    ||| kind == kind::KEYS
    ||| kind == kind::KEY_FILTER
}

/// Reports whether a merge knows how to carry a section of a kind.
pub fn is_carried(kind: u16) -> (yes: bool)
    ensures
        yes == carried_kind(kind),
{
    kind == kind::TERMS || kind == kind::POSTINGS || kind == kind::NORMS || kind == kind::ROUNDED
        || kind == kind::BOUNDS || kind == kind::WIDE_BOUNDS || kind == kind::FIELDS || kind
        == kind::KEYS || kind == kind::KEY_FILTER
}

/// The first of some sections that a merge cannot carry.
pub open spec fn first_uncarried(sections: Seq<Section>) -> Option<u16>
    decreases sections.len(),
{
    if sections.len() == 0 {
        None
    } else if !carried_kind(sections[0].kind) {
        Some(sections[0].kind)
    } else {
        first_uncarried(sections.skip(1))
    }
}

/// Checks that everything a segment holds is something a merge can carry, and
/// reports [`Error::UncarriedSection`] naming the first section that is not.
pub fn carries(segment: &Segment) -> (checked: Result<()>)
    ensures
        match first_uncarried(segment.sections@) {
            Some(kind) => checked matches Err(e) && e == (Error::UncarriedSection { kind }),
            None => checked is Ok,
        },
{
    let mut i: usize = 0;
    assert(segment.sections@.skip(0) =~= segment.sections@);
    while i < segment.sections.len()
        invariant
            i <= segment.sections@.len(),
            first_uncarried(segment.sections@) == first_uncarried(segment.sections@.skip(i as int)),
        decreases segment.sections.len() - i,
    {
        let kind: u16 = segment.sections[i].kind;
        assert(segment.sections@.skip(i as int)[0] == segment.sections@[i as int]);
        assert(segment.sections@.skip(i as int).skip(1) =~= segment.sections@.skip(i + 1));
        if !is_carried(kind) {
            return Err(Error::UncarriedSection { kind });
        }
        i = i + 1;
    }
    Ok(())
}

/// An index as a merge reads it out of a segment.
#[derive(Debug)]
pub struct Indexed {
    /// How many terms each document holds.
    pub lengths: Vec<u32>,
    /// The dictionary with its postings, in term order.
    pub entries: Vec<Entry>,
    /// The fields of each document, where the segment stored any.
    pub fields: Option<Vec<Vec<Field>>>,
    /// The keys with the document each names, where the segment has any.
    pub keys: Option<Vec<(Vec<u8>, DocId)>>,
}

impl Indexed {
    pub open spec fn wf(&self) -> bool {
        &&& self.lengths@.len() <= u32::MAX
        &&& forall|i: int, j: int|
            0 <= i < j < self.entries@.len() ==> before(
                (#[trigger] self.entries@[i]).term@,
                (#[trigger] self.entries@[j]).term@,
            )
        &&& self.fields matches Some(fields) ==> fields@.len() == self.lengths@.len()
    }

    /// Reads an index out of a segment: the lengths out of its norms and the keys out
    /// of its key table, with what its dictionary and its fields decoded to.
    ///
    /// Reports what [`Reader::open`] reports, and [`Error::Truncated`] if the keys are
    /// short.
    pub fn read(
        segment: &Segment,
        entries: Result<Vec<Entry>>,
        fields: Result<Vec<Vec<Field>>>,
    ) -> (index: Result<Self>)
        requires
            entries matches Ok(held) ==> in_order(held@) && held@.len() <= u32::MAX,
            bytes_of(*segment, kind::FIELDS) is Some ==> (fields matches Ok(held) ==> (index_read(
                *segment,
            ) matches Ok((documents, _, _)) ==> held@.len() == documents)),
        ensures
            match unopened(*segment, wrong(entries), wrong(fields)) {
                Some(error) => index matches Err(e) && e == error,
                None => match keys_in(*segment) {
                    Err(error) => index matches Err(e) && e == error,
                    Ok(keys) => {
                        &&& index matches Ok(i)
                        &&& i.wf()
                        &&& i.lengths@ == lengths_of(*segment)
                        &&& i.entries == entries->Ok_0
                        &&& i.fields == if bytes_of(*segment, kind::FIELDS) is Some {
                            Some(fields->Ok_0)
                        } else {
                            None
                        }
                        &&& match keys {
                            Some(table) => i.keys matches Some(held) && named_by(held@) == table,
                            None => i.keys is None,
                        }
                    },
                },
            },
    {
        let (counted, held) = match entries {
            Ok(entries) => (Ok(entries.len() as u32), Some(entries)),
            Err(error) => (Err(error), None),
        };
        let (stored, fields) = match fields {
            Ok(fields) => (Ok(()), Some(fields)),
            Err(error) => (Err(error), None),
        };
        let reader = match Reader::open(segment, counted, stored) {
            Ok(reader) => reader,
            Err(error) => {
                return Err(error);
            },
        };
        let entries = match held {
            Some(entries) => entries,
            None => Vec::new(),
        };
        let fields = if reader.store().is_some() {
            fields
        } else {
            None
        };
        let documents: u32 = reader.documents();
        let mut lengths: Vec<u32> = Vec::new();
        let mut doc: u32 = 0;
        while doc < documents
            invariant
                doc <= documents,
                reader.wf(),
                documents == reader.documents_in(),
                lengths@.len() == doc,
                forall|d: int|
                    0 <= d < doc ==> #[trigger] lengths@[d] == word_at(reader.lengths_in(), d),
            decreases documents - doc,
        {
            lengths.push(reader.length(doc));
            doc = doc + 1;
        }
        proof {
            assert(lengths@ =~= lengths_of(*segment));
        }
        let keys = match segment.section(kind::KEYS) {
            None => None,
            Some(bytes) => {
                let table = match keys::Reader::new(bytes) {
                    Ok(table) => table,
                    Err(error) => {
                        return Err(error);
                    },
                };
                let listed = table.entries();
                let ghost bytes_held = bytes@;
                let mut held: Vec<(Vec<u8>, DocId)> = Vec::new();
                while held.len() < listed.len()
                    invariant
                        held@.len() <= listed@.len(),
                        named_by(held@) == keys::listed(listed@).take(held@.len() as int),
                    decreases listed.len() - held.len(),
                {
                    let (key, doc) = listed[held.len()];
                    let ghost had = held@;
                    held.push((vstd::slice::slice_to_vec(key), doc));
                    assert(named_by(held@) =~= keys::listed(listed@).take(held@.len() as int));
                }
                proof {
                    assert(keys::listed(listed@).take(listed@.len() as int) =~= keys::listed(
                        listed@,
                    ));
                    lemma_table(table, bytes_held, table.count as int);
                }
                Some(held)
            },
        };
        Ok(Indexed { lengths, entries, fields, keys })
    }
}

/// Keys with the document each names.
pub open spec fn named_by(keys: Seq<(Vec<u8>, DocId)>) -> Seq<(Seq<u8>, DocId)> {
    keys.map_values(|key: (Vec<u8>, DocId)| (key.0@, key.1))
}

/// How many terms each document of a segment holds, by its norms.
pub open spec fn lengths_of(segment: Segment) -> Seq<u32> {
    let (documents, _, lengths) = index_read(segment)->Ok_0;
    Seq::new(documents, |d: int| word_at(lengths, d) as u32)
}

/// The keys of a segment with the document each names, or nothing where it has no
/// key table.
pub open spec fn keys_in(segment: Segment) -> core::result::Result<
    Option<Seq<(Seq<u8>, DocId)>>,
    Error,
> {
    match bytes_of(segment, kind::KEYS) {
        None => Ok(None),
        Some(bytes) => match keys::opened(bytes) {
            Err(error) => Err(error),
            Ok((count, _, _, _)) => Ok(Some(table_of(bytes, count as int))),
        },
    }
}

/// The first `n` keys of a table that make sense, with their documents.
pub open spec fn table_of(bytes: Seq<u8>, n: int) -> Seq<(Seq<u8>, DocId)>
    decreases n,
{
    if n <= 0 {
        Seq::empty()
    } else {
        let had = table_of(bytes, n - 1);
        match keys::opened(bytes) {
            Ok((count, docs, keys, end)) => match keys::key_in(
                count,
                bytes.subrange(docs, keys),
                bytes.subrange(keys, end),
                n - 1,
            ) {
                Some(key) => had.push((key, word_at(bytes.subrange(8, docs), n - 1) as u32)),
                None => had,
            },
            Err(_) => had,
        }
    }
}

proof fn lemma_table(table: keys::Reader<'_>, bytes: Seq<u8>, n: int)
    requires
        n <= table.count,
        keys::opened(bytes) matches Ok((count, docs, keys, end)) && table.count == count
            && table.docs@ == bytes.subrange(8, docs) && table.offsets@ == bytes.subrange(
            docs,
            keys,
        ) && table.blob@ == bytes.subrange(keys, end),
    ensures
        table.entries_before(n) == table_of(bytes, n),
    decreases n,
{
    if n > 0 {
        lemma_table(table, bytes, n - 1);
    }
}

/// One segment going into a merge.
///
/// Making one checks the segment over before anything is written: that its
/// deletions belong to it, and that it holds nothing a merge would have to drop.
#[derive(Debug)]
pub struct Source {
    pub index: Indexed,
    pub deleted: Bitmap,
}

impl Source {
    /// Whether the source holds the document and it is not deleted.
    pub open spec fn live(&self, doc: int) -> bool {
        0 <= doc < self.index.lengths@.len() && !self.deleted@.contains(doc as u32)
    }

    pub open spec fn lives(&self) -> spec_fn(int) -> bool {
        |doc: int| self.live(doc)
    }

    /// How many documents of the source are live.
    pub open spec fn live_count(&self) -> nat {
        count(self.lives(), 0, self.index.lengths@.len() as int)
    }

    /// Opens a segment for merging, with the deletions beside it applied.
    ///
    /// Reports [`Error::UncarriedSection`] if the segment holds a section a
    /// merge cannot carry across, and [`Error::NoSuchDocument`] if the deletions
    /// name a document the segment does not hold.
    pub fn new(segment: &Segment, index: Indexed, deleted: Option<Bitmap>) -> (source: Result<Self>)
        requires
            index.wf(),
        ensures
            match first_uncarried(segment.sections@) {
                Some(kind) => source matches Err(e) && e == (Error::UncarriedSection { kind }),
                None => match deleted {
                    Some(gone) => if exists|d: u32| #[trigger]
                        gone@.contains(d) && d >= index.lengths@.len() {
                        source matches Err(Error::NoSuchDocument { doc, documents }) && gone@.contains(
                            doc,
                        ) && (forall|d: u32| #[trigger] gone@.contains(d) ==> d <= doc)
                            && documents == index.lengths@.len()
                    } else {
                        source matches Ok(s) && s.index == index && s.deleted@ == gone@
                    },
                    None => source matches Ok(s) && s.index == index && s.deleted@ == Set::<
                        u32,
                    >::empty(),
                },
            },
    {
        match carries(segment) {
            Ok(()) => {},
            Err(error) => {
                return Err(error);
            },
        }
        match deleted {
            None => Ok(Source { index, deleted: Bitmap::new() }),
            Some(gone) => {
                let documents: u32 = index.lengths.len() as u32;
                match gone.max() {
                    Some(doc) => {
                        if doc >= documents {
                            return Err(Error::NoSuchDocument { doc, documents });
                        }
                    },
                    None => {},
                }
                Ok(Source { index, deleted: gone })
            },
        }
    }
}

/// Where the documents of the segments a merge replaced ended up in it.
///
/// A merge numbers the live documents of its sources in order, so a document
/// that goes in with one identifier comes out with another. This is what the
/// merge worked out on its way through, kept so that a batch prepared before the
/// merge can be moved along with the documents it names.
#[derive(Debug)]
pub struct Moved {
    /// One list per source, old identifier to new, [`GONE`] for the documents
    /// the merge did not carry.
    pub into: Vec<Vec<DocId>>,
}

impl Default for Moved {
    fn default() -> (moved: Self)
        ensures
            moved.into@.len() == 0,
    {
        Moved { into: Vec::new() }
    }
}

impl Moved {
    /// Where a document of a source is now.
    pub open spec fn target(&self, source: int, doc: int) -> Option<DocId> {
        if 0 <= source < self.into@.len() && 0 <= doc < self.into@[source]@.len()
            && self.into@[source]@[doc] != GONE {
            Some(self.into@[source]@[doc])
        } else {
            None
        }
    }

    /// Where the document that was `doc` in the source at `source` is now, or
    /// `None` if the merge left it behind because it was already deleted.
    ///
    /// `None` for a document that is not in that source at all, and for a source
    /// that was not in the merge.
    pub fn of(&self, source: usize, doc: DocId) -> (moved: Option<DocId>)
        ensures
            moved == self.target(source as int, doc as int),
    {
        if source >= self.into.len() {
            return None;
        }
        let into = &self.into[source];
        if doc as usize >= into.len() {
            return None;
        }
        let moved: DocId = into[doc as usize];
        if moved != GONE {
            Some(moved)
        } else {
            None
        }
    }

    /// How many segments went into the merge.
    pub fn sources(&self) -> (n: usize)
        ensures
            n == self.into@.len(),
    {
        self.into.len()
    }
}

/// One segment, written out of several.
#[derive(Debug)]
pub struct Merged {
    /// What the segment holds, before it is laid out.
    pub contents: Contents,
    /// How long each document is, in one byte.
    pub rounded: Vec<u8>,
    /// The keys of the live documents, under their new numbers.
    pub keys: KeyMap<DocId>,
    /// How many documents it holds, which is how many of the sources were live.
    pub documents: u32,
    /// How many were left behind because they had been deleted.
    pub dropped: u64,
    /// How many distinct terms survived.
    pub terms: u32,
    /// Where the documents of the sources ended up.
    pub moved: Moved,
}

// ---------------------------------------------------------------------------
// What a merge is.
// ---------------------------------------------------------------------------

/// How many documents of the first `n` sources are live.
pub open spec fn live_before(sources: Seq<Source>, n: int) -> nat
    decreases n,
{
    if n <= 0 {
        0
    } else {
        live_before(sources, n - 1) + sources[n - 1].live_count()
    }
}

/// What a live document is numbered in the merged segment.
pub open spec fn place(sources: Seq<Source>, source: int, doc: int) -> nat {
    live_before(sources, source) + count(sources[source].lives(), 0, doc)
}

/// How many documents of the first `n` sources are deleted.
pub open spec fn dropped_of(sources: Seq<Source>, n: int) -> nat
    decreases n,
{
    if n <= 0 {
        0
    } else {
        (dropped_of(sources, n - 1) + (sources[n - 1].index.lengths@.len() - sources[n
            - 1].live_count())) as nat
    }
}

/// Of the first `n` things that go with a source's documents, those of the live
/// ones.
pub open spec fn survivors<T>(source: Source, things: Seq<T>, n: int) -> Seq<T>
    decreases n,
{
    if n <= 0 {
        Seq::empty()
    } else if source.live(n - 1) {
        survivors(source, things, n - 1).push(things[n - 1])
    } else {
        survivors(source, things, n - 1)
    }
}

/// The lengths of the live documents of the first `n` sources.
pub open spec fn live_lengths(sources: Seq<Source>, n: int) -> Seq<u32>
    decreases n,
{
    if n <= 0 {
        Seq::empty()
    } else {
        let source = sources[n - 1];
        live_lengths(sources, n - 1) + survivors(
            source,
            source.index.lengths@,
            source.index.lengths@.len() as int,
        )
    }
}

pub open spec fn sum(lengths: Seq<u32>) -> nat
    decreases lengths.len(),
{
    if lengths.len() == 0 {
        0
    } else {
        sum(lengths.drop_last()) + lengths.last() as nat
    }
}

pub open spec fn u32s_bytes(values: Seq<u32>) -> Seq<u8>
    decreases values.len(),
{
    if values.len() == 0 {
        Seq::empty()
    } else {
        u32s_bytes(values.drop_last()) + le_bytes(values.last() as nat, 4)
    }
}

/// A document's fields, by name and value.
pub open spec fn shown(fields: Vec<Field>) -> Seq<(Seq<char>, Seq<u8>)> {
    fields@.map_values(|field: Field| (field.name@, field.value@))
}

/// The fields of each document of a source, none where it stored none.
pub open spec fn source_fields(source: Source) -> Seq<Seq<(Seq<char>, Seq<u8>)>> {
    match source.index.fields {
        Some(fields) => fields@.map_values(|fields: Vec<Field>| shown(fields)),
        None => Seq::new(source.index.lengths@.len(), |d: int| Seq::empty()),
    }
}

/// The fields of the live documents of the first `n` sources.
pub open spec fn live_fields(sources: Seq<Source>, n: int) -> Seq<Seq<(Seq<char>, Seq<u8>)>>
    decreases n,
{
    if n <= 0 {
        Seq::empty()
    } else {
        let source = sources[n - 1];
        live_fields(sources, n - 1) + survivors(
            source,
            source_fields(source),
            source.index.lengths@.len() as int,
        )
    }
}

/// Whether any source stored fields.
pub open spec fn any_fields(sources: Seq<Source>) -> bool {
    exists|s: int| 0 <= s < sources.len() && (#[trigger] sources[s]).index.fields is Some
}

/// The keys after the first `n` of a source's, under their new numbers.
pub open spec fn named_in(
    map: Map<Seq<u8>, DocId>,
    sources: Seq<Source>,
    source: int,
    keys: Seq<(Vec<u8>, DocId)>,
    n: int,
) -> Map<Seq<u8>, DocId>
    decreases n,
{
    if n <= 0 {
        map
    } else {
        let had = named_in(map, sources, source, keys, n - 1);
        let (key, doc) = keys[n - 1];
        if sources[source].live(doc as int) {
            had.insert(key@, place(sources, source, doc as int) as u32)
        } else {
            had
        }
    }
}

/// The keys of the live documents of the first `n` sources. Where a key names a
/// document in more than one source the later source wins.
pub open spec fn named(sources: Seq<Source>, n: int) -> Map<Seq<u8>, DocId>
    decreases n,
{
    if n <= 0 {
        Map::empty()
    } else {
        let had = named(sources, n - 1);
        match sources[n - 1].index.keys {
            Some(keys) => named_in(had, sources, n - 1, keys@, keys@.len() as int),
            None => had,
        }
    }
}

/// The entry of a term at a place.
pub open spec fn entry_at(entries: Seq<Entry>, term: Seq<u8>, i: int) -> bool {
    0 <= i < entries.len() && entries[i].term@ == term
}

/// The postings some entries have for a term, none where they do not have it.
pub open spec fn held(entries: Seq<Entry>, term: Seq<u8>) -> Seq<(u32, u32)> {
    if exists|i: int| #[trigger] entry_at(entries, term, i) {
        entries[choose|i: int| #[trigger] entry_at(entries, term, i)].postings@
    } else {
        Seq::empty()
    }
}

/// The first `n` postings of a list, those of live documents under their new
/// numbers and the others left out.
pub open spec fn carry(
    sources: Seq<Source>,
    source: int,
    list: Seq<(u32, u32)>,
    n: int,
) -> Seq<(u32, u32)>
    decreases n,
{
    if n <= 0 {
        Seq::empty()
    } else {
        let had = carry(sources, source, list, n - 1);
        let (doc, frequency) = list[n - 1];
        if sources[source].live(doc as int) {
            had.push((place(sources, source, doc as int) as u32, frequency))
        } else {
            had
        }
    }
}

/// What the first `n` sources have of a term, under the new numbers.
pub open spec fn carried(sources: Seq<Source>, term: Seq<u8>, n: int) -> Seq<(u32, u32)>
    decreases n,
{
    if n <= 0 {
        Seq::empty()
    } else {
        let list = held(sources[n - 1].index.entries@, term);
        carried(sources, term, n - 1) + carry(sources, n - 1, list, list.len() as int)
    }
}

/// The entries are the merged dictionary: each term with a posting that
/// survives and no other, in order, each with all of its postings.
pub open spec fn merges(sources: Seq<Source>, entries: Seq<Entry>) -> bool {
    &&& forall|i: int, j: int|
        0 <= i < j < entries.len() ==> before(
            (#[trigger] entries[i]).term@,
            (#[trigger] entries[j]).term@,
        )
    &&& forall|i: int|
        0 <= i < entries.len() ==> (#[trigger] entries[i]).postings@ == carried(
            sources,
            entries[i].term@,
            sources.len() as int,
        ) && entries[i].postings@.len() > 0
    &&& forall|term: Seq<u8>|
        (#[trigger] carried(sources, term, sources.len() as int)).len() > 0 ==> exists|i: int|
            0 <= i < entries.len() && (#[trigger] entries[i]).term@ == term
}

/// The mapping says where each document goes.
pub open spec fn mapped(sources: Seq<Source>, mapping: Seq<Vec<DocId>>) -> bool {
    &&& mapping.len() == sources.len()
    &&& forall|s: int|
        0 <= s < sources.len() ==> (#[trigger] mapping[s])@.len()
            == sources[s].index.lengths@.len()
    &&& forall|s: int, d: int|
        0 <= s < sources.len() && 0 <= d < sources[s].index.lengths@.len() ==> (
        #[trigger] mapping[s]@[d] == if sources[s].live(d) {
            place(sources, s, d) as u32
        } else {
            GONE
        })
}

pub proof fn lemma_live_grows(sources: Seq<Source>, a: int, b: int)
    requires
        0 <= a <= b,
    ensures
        live_before(sources, a) <= live_before(sources, b),
    decreases b - a,
{
    if a < b {
        lemma_live_grows(sources, a, b - 1);
    }
}

/// A live document's number is below how many documents there are.
pub proof fn lemma_place(sources: Seq<Source>, source: int, doc: int)
    requires
        0 <= source < sources.len(),
        sources[source].live(doc),
    ensures
        place(sources, source, doc) < live_before(sources, sources.len() as int),
{
    let f = sources[source].lives();
    let n = sources[source].index.lengths@.len() as int;
    lemma_count_split(f, 0, doc, n);
    lemma_count_split(f, doc, doc + 1, n);
    assert(count(f, doc, doc) == 0);
    lemma_live_grows(sources, source + 1, sources.len() as int);
}

/// Two live documents have different numbers, in the order of the sources and
/// then of their old numbers.
pub proof fn law_numbering_is_ordered(
    sources: Seq<Source>,
    a: int,
    doc_a: int,
    b: int,
    doc_b: int,
)
    requires
        0 <= a < sources.len(),
        0 <= b < sources.len(),
        sources[a].live(doc_a),
        sources[b].live(doc_b),
        a < b || (a == b && doc_a < doc_b),
    ensures
        place(sources, a, doc_a) < place(sources, b, doc_b),
{
    let f = sources[a].lives();
    let n = sources[a].index.lengths@.len() as int;
    lemma_count_split(f, doc_a, doc_a + 1, n);
    assert(count(f, doc_a, doc_a) == 0);
    if a == b {
        lemma_count_split(f, 0, doc_a, doc_b);
        lemma_count_split(f, doc_a, doc_a + 1, doc_b);
    } else {
        lemma_count_split(f, 0, doc_a, n);
        lemma_live_grows(sources, a + 1, b);
    }
}

// ---------------------------------------------------------------------------
// The merge.
// ---------------------------------------------------------------------------

/// The terms that survive a merge: those with a posting of a live document.
pub open spec fn surviving(sources: Seq<Source>) -> Set<Seq<u8>> {
    Set::new(|term: Seq<u8>| carried(sources, term, sources.len() as int).len() > 0)
}

/// The sources are well formed, and no more terms survive and no more documents are
/// left behind than can be counted.
pub open spec fn mergeable(sources: Seq<Source>) -> bool {
    &&& forall|s: int| 0 <= s < sources.len() ==> (#[trigger] sources[s]).index.wf()
    &&& surviving(sources).len() <= u32::MAX
    &&& dropped_of(sources, sources.len() as int) <= u64::MAX
}

/// How many entries the first `n` sources have.
pub open spec fn entries_before(sources: Seq<Source>, n: int) -> nat
    decreases n,
{
    if n <= 0 {
        0
    } else {
        entries_before(sources, n - 1) + sources[n - 1].index.entries@.len()
    }
}

/// The terms of the first `n` sources.
spec fn terms_before(sources: Seq<Source>, n: int) -> Set<Seq<u8>>
    decreases n,
{
    if n <= 0 {
        Set::empty()
    } else {
        terms_before(sources, n - 1).union(
            sources[n - 1].index.entries@.map_values(|entry: Entry| entry.term@).to_set(),
        )
    }
}

proof fn lemma_terms_before(sources: Seq<Source>, n: int)
    requires
        0 <= n <= sources.len(),
    ensures
        terms_before(sources, n).finite(),
        terms_before(sources, n).len() <= entries_before(sources, n),
        forall|s: int, k: int|
            0 <= s < n && 0 <= k < sources[s].index.entries@.len() ==> terms_before(
                sources,
                n,
            ).contains((#[trigger] sources[s].index.entries@[k]).term@),
    decreases n,
{
    if n > 0 {
        lemma_terms_before(sources, n - 1);
        let terms = sources[n - 1].index.entries@.map_values(|entry: Entry| entry.term@);
        vstd::seq_lib::seq_to_set_is_finite(terms);
        terms.lemma_cardinality_of_set();
        vstd::set_lib::lemma_len_union(terms_before(sources, n - 1), terms.to_set());
        assert forall|s: int, k: int|
            0 <= s < n && 0 <= k < sources[s].index.entries@.len() implies terms_before(
            sources,
            n,
        ).contains((#[trigger] sources[s].index.entries@[k]).term@) by {
            if s == n - 1 {
                assert(terms[k] == sources[s].index.entries@[k].term@);
            }
        }
    }
}

/// No more terms survive a merge than the dictionaries of its sources have.
pub proof fn law_no_more_terms_survive_than_went_in(sources: Seq<Source>)
    ensures
        surviving(sources).finite(),
        surviving(sources).len() <= entries_before(sources, sources.len() as int),
{
    let n = sources.len() as int;
    lemma_terms_before(sources, n);
    assert forall|term: Seq<u8>| surviving(sources).contains(term) implies terms_before(
        sources,
        n,
    ).contains(term) by {
        let s = lemma_carried_from(sources, term, n);
        let k = choose|k: int| #[trigger] entry_at(sources[s].index.entries@, term, k);
        assert(sources[s].index.entries@[k].term@ == term);
    }
    vstd::set_lib::lemma_len_subset(surviving(sources), terms_before(sources, n));
}

/// The merged dictionary has an entry for each term that survives.
proof fn lemma_survivors(sources: Seq<Source>, entries: Seq<Entry>)
    requires
        merges(sources, entries),
    ensures
        entries.len() == surviving(sources).len(),
{
    let terms = entries.map_values(|entry: Entry| entry.term@);
    assert(terms.no_duplicates()) by {
        assert forall|i: int, j: int| 0 <= i < terms.len() && 0 <= j < terms.len() && i != j implies
            terms[i] != terms[j] by {
            lemma_before_irreflexive(terms[i]);
            if i < j {
                assert(before(entries[i].term@, entries[j].term@));
            } else {
                assert(before(entries[j].term@, entries[i].term@));
            }
        }
    }
    terms.unique_seq_to_set();
    assert(terms.to_set() =~= surviving(sources)) by {
        assert forall|term: Seq<u8>| terms.to_set().contains(term) == surviving(sources).contains(
            term,
        ) by {
            if terms.contains(term) {
                let i = terms.index_of(term);
                assert(entries[i].term@ == term);
                assert(entries[i].postings@.len() > 0);
            }
            if surviving(sources).contains(term) {
                let i = choose|i: int|
                    0 <= i < entries.len() && (#[trigger] entries[i]).term@ == term;
                assert(terms[i] == term);
            }
        }
    }
}

/// Works out what each source's documents are numbered in the merged segment,
/// how many there are, and how long they are altogether.
///
/// The mapping is one entry per document of each source, [`GONE`] where the
/// document was deleted. Every posting of every term is looked up in it.
fn numbering(sources: &Vec<Source>) -> (numbered: Result<(Vec<Vec<DocId>>, u32, u64)>)
    requires
        forall|s: int| 0 <= s < sources@.len() ==> (#[trigger] sources@[s]).index.wf(),
    ensures
        if live_before(sources@, sources@.len() as int) <= u32::MAX {
            &&& numbered matches Ok((mapping, documents, total))
            &&& mapped(sources@, mapping@)
            &&& documents == live_before(sources@, sources@.len() as int)
            &&& total == sum(live_lengths(sources@, sources@.len() as int))
        } else {
            numbered matches Err(e) && e == Error::Overflow
        },
{
    let mut mapping: Vec<Vec<DocId>> = Vec::new();
    let mut documents: u32 = 0;
    let mut total: u64 = 0;
    let mut s: usize = 0;
    while s < sources.len()
        invariant
            s <= sources@.len(),
            forall|s: int| 0 <= s < sources@.len() ==> (#[trigger] sources@[s]).index.wf(),
            mapping@.len() == s,
            documents == live_before(sources@, s as int),
            total == sum(live_lengths(sources@, s as int)),
            total <= documents * u32::MAX,
            forall|p: int|
                0 <= p < s ==> (#[trigger] mapping@[p])@.len() == sources@[p].index.lengths@.len(),
            forall|p: int, d: int|
                0 <= p < s && 0 <= d < sources@[p].index.lengths@.len() ==> (
                #[trigger] mapping@[p]@[d] == if sources@[p].live(d) {
                    place(sources@, p, d) as u32
                } else {
                    GONE
                }),
        decreases sources.len() - s,
    {
        let source = &sources[s];
        let ghost f = sources@[s as int].lives();
        let ghost lengths = source.index.lengths@;
        assert(sources@[s as int].index.wf());
        let mut into: Vec<DocId> = Vec::new();
        let mut doc: usize = 0;
        proof {
            assert(live_lengths(sources@, s as int) + survivors(*source, lengths, 0)
                =~= live_lengths(sources@, s as int));
        }
        while doc < source.index.lengths.len()
            invariant
                s < sources@.len(),
                *source == sources@[s as int],
                f == source.lives(),
                lengths == source.index.lengths@,
                lengths.len() <= u32::MAX,
                doc <= lengths.len(),
                into@.len() == doc,
                documents == live_before(sources@, s as int) + count(f, 0, doc as int),
                total == sum(
                    live_lengths(sources@, s as int) + survivors(*source, lengths, doc as int),
                ),
                total <= documents * u32::MAX,
                forall|d: int|
                    0 <= d < doc ==> (#[trigger] into@[d] == if source.live(d) {
                        place(sources@, s as int, d) as u32
                    } else {
                        GONE
                    }),
            decreases lengths.len() - doc,
        {
            if source.deleted.contains(doc as u32) {
                into.push(GONE);
            } else {
                proof {
                    assert(source.live(doc as int));
                    lemma_live_grows(sources@, s + 1, sources@.len() as int);
                    lemma_count_split(f, 0, doc + 1, lengths.len() as int);
                }
                into.push(documents);
                documents = match documents.checked_add(1) {
                    Some(more) => more,
                    None => {
                        return Err(Error::Overflow);
                    },
                };
                proof {
                    let had = live_lengths(sources@, s as int) + survivors(
                        *source,
                        lengths,
                        doc as int,
                    );
                    let now = live_lengths(sources@, s as int) + survivors(
                        *source,
                        lengths,
                        doc + 1,
                    );
                    assert(now =~= had.push(lengths[doc as int]));
                    assert(now.drop_last() =~= had);
                    assert((documents - 1) * u32::MAX + u32::MAX == documents * u32::MAX)
                        by (nonlinear_arith);
                    assert(documents * u32::MAX <= u64::MAX) by (nonlinear_arith)
                        requires
                            documents <= u32::MAX,
                    ;
                }
                total = total + source.index.lengths[doc] as u64;
            }
            doc = doc + 1;
        }
        mapping.push(into);
        s = s + 1;
    }
    Ok((mapping, documents, total))
}

/// The term at the front of a source.
spec fn name(sources: Seq<Source>, s: int, k: int) -> Seq<u8> {
    sources[s].index.entries@[k].term@
}

/// How far the walk of the dictionaries has got, and what it has written.
spec fn walked(sources: Seq<Source>, front: Seq<usize>, entries: Seq<Entry>) -> bool {
    &&& front.len() == sources.len()
    &&& forall|s: int|
        0 <= s < sources.len() ==> #[trigger] front[s] <= sources[s].index.entries@.len()
    &&& forall|i: int, j: int|
        0 <= i < j < entries.len() ==> before(
            (#[trigger] entries[i]).term@,
            (#[trigger] entries[j]).term@,
        )
    &&& forall|i: int|
        0 <= i < entries.len() ==> (#[trigger] entries[i]).postings@ == carried(
            sources,
            entries[i].term@,
            sources.len() as int,
        ) && entries[i].postings@.len() > 0
    // What has been passed has been written, unless nothing of it survives.
    &&& forall|s: int, k: int|
        0 <= s < sources.len() && 0 <= k < front[s] ==> (carried(
            sources,
            #[trigger] name(sources, s, k),
            sources.len() as int,
        ).len() == 0 || exists|i: int|
            0 <= i < entries.len() && (#[trigger] entries[i]).term@ == name(sources, s, k))
    // What has been written, and what has been passed, comes before what has
    // not been passed.
    &&& forall|s: int, k: int, i: int|
        0 <= s < sources.len() && front[s] <= k < sources[s].index.entries@.len() && 0 <= i
            < entries.len() ==> before((#[trigger] entries[i]).term@, #[trigger] name(sources, s, k))
    &&& forall|s: int, k: int, p: int, l: int|
        0 <= s < sources.len() && front[s] <= k < sources[s].index.entries@.len() && 0 <= p
            < sources.len() && 0 <= l < front[p] ==> before(
            #[trigger] name(sources, p, l),
            #[trigger] name(sources, s, k),
        )
}

/// The source whose front term is the smallest of any.
fn smallest(sources: &Vec<Source>, front: &Vec<usize>) -> (found: Option<usize>)
    requires
        front@.len() == sources@.len(),
    ensures
        match found {
            Some(q) => {
                &&& q < sources@.len()
                &&& front@[q as int] < sources@[q as int].index.entries@.len()
                &&& forall|s: int|
                    0 <= s < sources@.len() && #[trigger] front@[s]
                        < sources@[s].index.entries@.len() ==> !before(
                        name(sources@, s, front@[s] as int),
                        name(sources@, q as int, front@[q as int] as int),
                    )
            },
            None => forall|s: int|
                0 <= s < sources@.len() ==> #[trigger] front@[s]
                    >= sources@[s].index.entries@.len(),
        },
{
    let mut least: Option<usize> = None;
    let mut index: usize = 0;
    while index < sources.len()
        invariant
            index <= sources@.len(),
            front@.len() == sources@.len(),
            match least {
                Some(q) => {
                    &&& q < index
                    &&& front@[q as int] < sources@[q as int].index.entries@.len()
                    &&& forall|s: int|
                        0 <= s < index && #[trigger] front@[s] < sources@[s].index.entries@.len()
                            ==> !before(
                            name(sources@, s, front@[s] as int),
                            name(sources@, q as int, front@[q as int] as int),
                        )
                },
                None => forall|s: int|
                    0 <= s < index ==> #[trigger] front@[s] >= sources@[s].index.entries@.len(),
            },
        decreases sources.len() - index,
    {
        if front[index] < sources[index].index.entries.len() {
            let term = sources[index].index.entries[front[index]].term.as_slice();
            match least {
                None => {
                    proof {
                        lemma_before_irreflexive(term@);
                    }
                    least = Some(index);
                },
                Some(q) => {
                    let other = sources[q].index.entries[front[q]].term.as_slice();
                    if comes_before(term, other) {
                        proof {
                            lemma_before_irreflexive(term@);
                            assert forall|s: int|
                                0 <= s < index + 1 && #[trigger] front@[s]
                                    < sources@[s].index.entries@.len() implies !before(
                                name(sources@, s, front@[s] as int),
                                term@,
                            ) by {
                                if s < index {
                                    let third = name(sources@, s, front@[s] as int);
                                    if before(third, term@) {
                                        lemma_before_transitive(third, term@, other@);
                                    }
                                }
                            }
                        }
                        least = Some(index);
                    }
                },
            }
        }
        index = index + 1;
    }
    least
}

/// Appends the postings of a list that survive, under their new numbers.
fn carry_list(
    sources: Ghost<Seq<Source>>,
    source: usize,
    list: &Vec<(u32, u32)>,
    mapping: &Vec<Vec<DocId>>,
    out: &mut Vec<(u32, u32)>,
)
    requires
        mapped(sources@, mapping@),
        source < sources@.len(),
        live_before(sources@, sources@.len() as int) <= u32::MAX,
    ensures
        final(out)@ == old(out)@ + carry(
            sources@,
            source as int,
            list@,
            list@.len() as int,
        ),
{
    let ghost before = out@;
    let mut i: usize = 0;
    assert(before + carry(sources@, source as int, list@, 0) =~= before);
    while i < list.len()
        invariant
            i <= list@.len(),
            mapped(sources@, mapping@),
            source < sources@.len(),
            live_before(sources@, sources@.len() as int) <= u32::MAX,
            out@ == before + carry(sources@, source as int, list@, i as int),
        decreases list.len() - i,
    {
        let (doc, frequency) = list[i];
        let ghost had = carry(sources@, source as int, list@, i as int);
        assert(mapping@[source as int]@.len() == sources@[source as int].index.lengths@.len());
        if (doc as usize) < mapping[source].len() {
            let new: u32 = mapping[source][doc as usize];
            proof {
                assert(mapping@[source as int]@[doc as int] == if sources@[source as int].live(
                    doc as int,
                ) {
                    place(sources@, source as int, doc as int) as u32
                } else {
                    GONE
                });
                if sources@[source as int].live(doc as int) {
                    lemma_place(sources@, source as int, doc as int);
                }
            }
            if new != GONE {
                out.push((new, frequency));
                assert(out@ =~= before + had.push((new, frequency)));
            }
        }
        i = i + 1;
    }
}

/// Gathers the term from every source that is at it, and moves those on.
fn gather(
    sources: &Vec<Source>,
    mapping: &Vec<Vec<DocId>>,
    front: &mut Vec<usize>,
    term: &[u8],
    entries: Ghost<Seq<Entry>>,
) -> (list: Vec<(u32, u32)>)
    requires
        forall|s: int| 0 <= s < sources@.len() ==> (#[trigger] sources@[s]).index.wf(),
        mapped(sources@, mapping@),
        live_before(sources@, sources@.len() as int) <= u32::MAX,
        walked(sources@, old(front)@, entries@),
        exists|q: int|
            0 <= q < sources@.len() && (#[trigger] old(front)@[q])
                < sources@[q].index.entries@.len() && name(sources@, q, old(front)@[q] as int)
                == term@,
        forall|s: int|
            0 <= s < sources@.len() && #[trigger] old(front)@[s] < sources@[s].index.entries@.len()
                ==> !before(name(sources@, s, old(front)@[s] as int), term@),
    ensures
        final(front)@.len() == old(front)@.len(),
        list@ == carried(sources@, term@, sources@.len() as int),
        forall|s: int|
            0 <= s < sources@.len() ==> #[trigger] final(front)@[s] == if old(front)@[s]
                < sources@[s].index.entries@.len() && name(sources@, s, old(front)@[s] as int)
                == term@ {
                old(front)@[s] + 1
            } else {
                old(front)@[s] as int
            },
{
    let ghost was = front@;
    let mut list: Vec<(u32, u32)> = Vec::new();
    let mut index: usize = 0;
    while index < sources.len()
        invariant
            index <= sources@.len(),
            forall|s: int| 0 <= s < sources@.len() ==> (#[trigger] sources@[s]).index.wf(),
            mapped(sources@, mapping@),
            live_before(sources@, sources@.len() as int) <= u32::MAX,
            walked(sources@, was, entries@),
            exists|q: int|
                0 <= q < sources@.len() && (#[trigger] was[q]) < sources@[q].index.entries@.len()
                    && name(sources@, q, was[q] as int) == term@,
            forall|s: int|
                0 <= s < sources@.len() && #[trigger] was[s] < sources@[s].index.entries@.len()
                    ==> !before(name(sources@, s, was[s] as int), term@),
            front@.len() == was.len(),
            list@ == carried(sources@, term@, index as int),
            forall|s: int| index <= s < sources@.len() ==> #[trigger] front@[s] == was[s],
            forall|s: int|
                0 <= s < index ==> #[trigger] front@[s] == if was[s]
                    < sources@[s].index.entries@.len() && name(sources@, s, was[s] as int)
                    == term@ {
                    was[s] + 1
                } else {
                    was[s] as int
                },
        decreases sources.len() - index,
    {
        assert(front@[index as int] == was[index as int]);
        assert(sources@[index as int].index.wf());
        let ghost had = list@;
        proof {
            lemma_held(sources@, was, entries@, term@, index as int);
        }
        if front[index] < sources[index].index.entries.len() && same_bytes(
            sources[index].index.entries[front[index]].term.as_slice(),
            term,
        ) {
            let entry = &sources[index].index.entries[front[index]];
            carry_list(Ghost(sources@), index, &entry.postings, mapping, &mut list);
            let moved: usize = front[index] + 1;
            front.set(index, moved);
        } else {
            proof {
                assert(list@ =~= had + carry(sources@, index as int, Seq::empty(), 0));
            }
        }
        index = index + 1;
    }
    list
}

/// What a source holds of the smallest term at any front: the list at its own
/// front, or nothing if that is another term.
proof fn lemma_held(
    sources: Seq<Source>,
    front: Seq<usize>,
    entries: Seq<Entry>,
    term: Seq<u8>,
    s: int,
)
    requires
        0 <= s < sources.len(),
        sources[s].index.wf(),
        walked(sources, front, entries),
        exists|q: int|
            0 <= q < sources.len() && (#[trigger] front[q]) < sources[q].index.entries@.len()
                && name(sources, q, front[q] as int) == term,
        front[s] < sources[s].index.entries@.len() ==> !before(
            name(sources, s, front[s] as int),
            term,
        ),
    ensures
        held(sources[s].index.entries@, term) == if front[s] < sources[s].index.entries@.len()
            && name(sources, s, front[s] as int) == term {
            sources[s].index.entries@[front[s] as int].postings@
        } else {
            Seq::empty()
        },
{
    let mine = sources[s].index.entries@;
    let at = front[s] as int;
    let q = choose|q: int|
        0 <= q < sources.len() && (#[trigger] front[q]) < sources[q].index.entries@.len() && name(
            sources,
            q,
            front[q] as int,
        ) == term;
    lemma_before_irreflexive(term);
    if at < mine.len() && name(sources, s, at) == term {
        assert(entry_at(mine, term, at));
        let i = choose|i: int| #[trigger] entry_at(mine, term, i);
        if i < at {
            assert(before(mine[i].term@, mine[at].term@));
        } else if i > at {
            assert(before(mine[at].term@, mine[i].term@));
        }
    } else if exists|i: int| #[trigger] entry_at(mine, term, i) {
        let i = choose|i: int| #[trigger] entry_at(mine, term, i);
        if i < at {
            assert(before(name(sources, s, i), name(sources, q, front[q] as int)));
        } else if i > at {
            assert(before(mine[at].term@, mine[i].term@));
        }
    }
}

/// How many entries the first `n` sources still have ahead.
spec fn ahead(sources: Seq<Source>, front: Seq<usize>, n: int) -> int
    decreases n,
{
    if n <= 0 {
        0
    } else {
        ahead(sources, front, n - 1) + (sources[n - 1].index.entries@.len() - front[n - 1])
    }
}

proof fn lemma_ahead(sources: Seq<Source>, a: Seq<usize>, b: Seq<usize>, n: int, q: int)
    requires
        0 <= n <= a.len(),
        a.len() == b.len(),
        a.len() == sources.len(),
        forall|s: int| 0 <= s < a.len() ==> #[trigger] a[s] <= sources[s].index.entries@.len(),
        forall|s: int|
            0 <= s < b.len() ==> a[s] <= #[trigger] b[s] <= sources[s].index.entries@.len(),
        0 <= q < a.len() ==> b[q] == a[q] + 1,
    ensures
        0 <= ahead(sources, b, n) <= ahead(sources, a, n),
        0 <= q < n ==> ahead(sources, b, n) < ahead(sources, a, n),
    decreases n,
{
    if n > 0 {
        lemma_ahead(sources, a, b, n - 1, q);
        assert(a[n - 1] <= sources[n - 1].index.entries@.len());
        assert(a[n - 1] <= b[n - 1] <= sources[n - 1].index.entries@.len());
    }
}

proof fn lemma_ahead_start(sources: Seq<Source>, front: Seq<usize>, n: int)
    requires
        0 <= n <= sources.len(),
        front.len() == sources.len(),
        forall|s: int| 0 <= s < front.len() ==> #[trigger] front[s] == 0,
    ensures
        ahead(sources, front, n) == entries_before(sources, n),
    decreases n,
{
    if n > 0 {
        lemma_ahead_start(sources, front, n - 1);
        assert(front[n - 1] == 0);
    }
}

/// The sources at a term moved past it.
proof fn lemma_passed(
    sources: Seq<Source>,
    was: Seq<usize>,
    front: Seq<usize>,
    had: Seq<Entry>,
    now: Seq<Entry>,
    term: Seq<u8>,
    q: int,
)
    requires
        forall|s: int| 0 <= s < sources.len() ==> (#[trigger] sources[s]).index.wf(),
        walked(sources, was, had),
        front.len() == was.len(),
        0 <= q < sources.len(),
        was[q] < sources[q].index.entries@.len(),
        term == name(sources, q, was[q] as int),
        forall|s: int|
            0 <= s < sources.len() && #[trigger] was[s] < sources[s].index.entries@.len()
                ==> !before(name(sources, s, was[s] as int), term),
        forall|s: int|
            0 <= s < sources.len() ==> #[trigger] front[s] == if was[s]
                < sources[s].index.entries@.len() && name(sources, s, was[s] as int) == term {
                was[s] + 1
            } else {
                was[s] as int
            },
        ({
            ||| now == had && carried(sources, term, sources.len() as int).len() == 0
            ||| now.len() == had.len() + 1 && now.drop_last() == had && now.last().term@ == term
                && now.last().postings@ == carried(sources, term, sources.len() as int)
                && now.last().postings@.len() > 0
        }),
    ensures
        walked(sources, front, now),
{
    assert forall|s: int| 0 <= s < sources.len() implies #[trigger] front[s]
        <= sources[s].index.entries@.len() by {
        assert(was[s] <= sources[s].index.entries@.len());
    }
    assert forall|i: int| 0 <= i < had.len() implies #[trigger] now[i] == had[i] by {
        if now != had {
            assert(now.drop_last()[i] == had[i]);
        }
    }
    assert forall|i: int, j: int| 0 <= i < j < now.len() implies before(
        (#[trigger] now[i]).term@,
        (#[trigger] now[j]).term@,
    ) by {
        assert(now[i] == had[i]);
        if j == had.len() {
            assert(before(had[i].term@, name(sources, q, was[q] as int)));
        } else {
            assert(now[j] == had[j]);
        }
    }
    assert forall|i: int| 0 <= i < now.len() implies (#[trigger] now[i]).postings@ == carried(
        sources,
        now[i].term@,
        sources.len() as int,
    ) && now[i].postings@.len() > 0 by {
        if i < had.len() {
            assert(now[i] == had[i]);
        }
    }
    // A name passed before, or the term itself.
    assert forall|s: int, k: int| 0 <= s < sources.len() && 0 <= k < front[s] implies (carried(
        sources,
        #[trigger] name(sources, s, k),
        sources.len() as int,
    ).len() == 0 || exists|i: int|
        0 <= i < now.len() && (#[trigger] now[i]).term@ == name(sources, s, k)) by {
        if k < was[s] {
            if carried(sources, name(sources, s, k), sources.len() as int).len() != 0 {
                let i = choose|i: int|
                    0 <= i < had.len() && (#[trigger] had[i]).term@ == name(sources, s, k);
                assert(now[i] == had[i]);
            }
        } else {
            assert(name(sources, s, k) == term);
            if now != had {
                assert(now[had.len() as int].term@ == term);
            }
        }
    }
    // What is still ahead comes after the term.
    assert forall|s: int, k: int|
        0 <= s < sources.len() && front[s] <= k < sources[s].index.entries@.len() implies before(
        term,
        #[trigger] name(sources, s, k),
    ) by {
        assert(was[s] <= front[s]);
        assert(sources[s].index.wf());
        let first = name(sources, s, was[s] as int);
        lemma_before_total(first, term);
        if was[s] < k {
            assert(before(
                sources[s].index.entries@[was[s] as int].term@,
                sources[s].index.entries@[k].term@,
            ));
            if first != term {
                lemma_before_transitive(term, first, name(sources, s, k));
            }
        }
    }
    assert forall|s: int, k: int, i: int|
        0 <= s < sources.len() && front[s] <= k < sources[s].index.entries@.len() && 0 <= i
            < now.len() implies before(
        (#[trigger] now[i]).term@,
        #[trigger] name(sources, s, k),
    ) by {
        assert(was[s] <= front[s]);
        if i < had.len() {
            assert(now[i] == had[i]);
            assert(before(had[i].term@, name(sources, s, k)));
        }
    }
    assert forall|s: int, k: int, p: int, l: int|
        0 <= s < sources.len() && front[s] <= k < sources[s].index.entries@.len() && 0 <= p
            < sources.len() && 0 <= l < front[p] implies before(
        #[trigger] name(sources, p, l),
        #[trigger] name(sources, s, k),
    ) by {
        assert(was[s] <= front[s]);
        if l < was[p] {
            assert(before(name(sources, p, l), name(sources, s, k)));
        } else {
            assert(name(sources, p, l) == term);
        }
    }
}

/// Walks the term dictionaries of every source at once and writes the merged
/// dictionary and the postings.
///
/// The dictionaries are already in order, so this is a merge of sorted runs
/// rather than a sort. A term whose every posting belonged to a deleted document
/// is not written at all.
fn vocabulary(sources: &Vec<Source>, mapping: &Vec<Vec<DocId>>) -> (entries: Vec<Entry>)
    requires
        forall|s: int| 0 <= s < sources@.len() ==> (#[trigger] sources@[s]).index.wf(),
        mapped(sources@, mapping@),
        live_before(sources@, sources@.len() as int) <= u32::MAX,
    ensures
        merges(sources@, entries@),
{
    let mut front: Vec<usize> = Vec::new();
    while front.len() < sources.len()
        invariant
            front@.len() <= sources@.len(),
            forall|s: int| 0 <= s < front@.len() ==> #[trigger] front@[s] == 0,
        decreases sources.len() - front.len(),
    {
        front.push(0);
    }
    let mut entries: Vec<Entry> = Vec::new();
    let ghost mut left: int = ahead(sources@, front@, sources@.len() as int);
    proof {
        lemma_ahead_start(sources@, front@, sources@.len() as int);
    }
    let mut going: bool = true;
    while going
        invariant
            forall|s: int| 0 <= s < sources@.len() ==> (#[trigger] sources@[s]).index.wf(),
            mapped(sources@, mapping@),
            live_before(sources@, sources@.len() as int) <= u32::MAX,
            walked(sources@, front@, entries@),
            left == ahead(sources@, front@, sources@.len() as int),
            0 <= left,
            !going ==> forall|s: int|
                0 <= s < sources@.len() ==> #[trigger] front@[s]
                    >= sources@[s].index.entries@.len(),
        decreases (if going {
            1int
        } else {
            0int
        }), left,
    {
        match smallest(sources, &front) {
            None => {
                going = false;
            },
            Some(q) => {
                let term = vstd::slice::slice_to_vec(
                    sources[q].index.entries[front[q]].term.as_slice(),
                );
                let ghost was = front@;
                let ghost had = entries@;
                assert(term@ == name(sources@, q as int, was[q as int] as int));
                let postings = gather(
                    sources,
                    mapping,
                    &mut front,
                    term.as_slice(),
                    Ghost(entries@),
                );
                proof {
                    assert(front@[q as int] == was[q as int] + 1);
                    lemma_ahead(sources@, was, front@, sources@.len() as int, q as int);
                    left = ahead(sources@, front@, sources@.len() as int);
                }
                let ghost name = term@;
                if postings.len() > 0 {
                    entries.push(Entry { term, postings });
                    assert(entries@.drop_last() =~= had);
                }
                proof {
                    lemma_passed(sources@, was, front@, had, entries@, name, q as int);
                }
            },
        }
    }
    proof {
        let n = sources@.len() as int;
        assert forall|term: Seq<u8>| (#[trigger] carried(sources@, term, n)).len()
            > 0 implies exists|i: int|
            0 <= i < entries@.len() && (#[trigger] entries@[i]).term@ == term by {
            let s = lemma_carried_from(sources@, term, n);
            let k = choose|k: int| #[trigger] entry_at(sources@[s].index.entries@, term, k);
            assert(front@[s] >= sources@[s].index.entries@.len());
            assert(name(sources@, s, k) == term);
        }
    }
    entries
}

/// A term with a posting that survives is in some source's dictionary.
proof fn lemma_carried_from(sources: Seq<Source>, term: Seq<u8>, n: int) -> (s: int)
    requires
        0 <= n <= sources.len(),
        carried(sources, term, n).len() > 0,
    ensures
        0 <= s < n,
        exists|k: int| #[trigger] entry_at(sources[s].index.entries@, term, k),
    decreases n,
{
    let list = held(sources[n - 1].index.entries@, term);
    if exists|k: int| #[trigger] entry_at(sources[n - 1].index.entries@, term, k) {
        n - 1
    } else {
        assert(carry(sources, n - 1, list, 0).len() == 0);
        lemma_carried_from(sources, term, n - 1)
    }
}

/// A second copy of a document's fields.
fn copy_fields(fields: &Vec<Field>) -> (out: Vec<Field>)
    ensures
        shown(out) == shown(*fields),
{
    let mut out: Vec<Field> = Vec::new();
    let mut i: usize = 0;
    while i < fields.len()
        invariant
            i <= fields@.len(),
            out@.len() == i,
            forall|k: int|
                0 <= k < i ==> (#[trigger] out@[k]).name@ == fields@[k].name@ && out@[k].value@
                    == fields@[k].value@,
        decreases fields.len() - i,
    {
        let field = &fields[i];
        out.push(
            Field {
                name: field.name.clone(),
                value: vstd::slice::slice_to_vec(field.value.as_slice()),
            },
        );
        i = i + 1;
    }
    assert(shown(out) =~= shown(*fields));
    out
}

/// Each document's fields, by name and value.
pub open spec fn shown_all(fields: Seq<Vec<Field>>) -> Seq<Seq<(Seq<char>, Seq<u8>)>> {
    fields.map_values(|fields: Vec<Field>| shown(fields))
}

/// Carries the stored fields of the live documents across, or `None` when no
/// source stored any.
///
/// A document is pushed for every live document whether or not its source had a
/// store, because fields are numbered by the order they were pushed and a merge
/// of a segment with fields and one without would otherwise hand every document
/// after the join the fields of another one.
fn fields(sources: &Vec<Source>) -> (carried: Option<Vec<Vec<Field>>>)
    requires
        forall|s: int| 0 <= s < sources@.len() ==> (#[trigger] sources@[s]).index.wf(),
    ensures
        match carried {
            Some(out) => any_fields(sources@) && shown_all(out@) == live_fields(
                sources@,
                sources@.len() as int,
            ),
            None => !any_fields(sources@),
        },
{
    let mut any: bool = false;
    let mut s: usize = 0;
    while s < sources.len()
        invariant
            s <= sources@.len(),
            any == exists|p: int|
                0 <= p < s && (#[trigger] sources@[p]).index.fields is Some,
        decreases sources.len() - s,
    {
        if sources[s].index.fields.is_some() {
            any = true;
            assert(sources@[s as int].index.fields is Some);
        }
        s = s + 1;
    }
    if !any {
        return None;
    }
    let mut out: Vec<Vec<Field>> = Vec::new();
    let mut s: usize = 0;
    assert(shown_all(out@) =~= live_fields(sources@, 0));
    while s < sources.len()
        invariant
            s <= sources@.len(),
            forall|s: int| 0 <= s < sources@.len() ==> (#[trigger] sources@[s]).index.wf(),
            shown_all(out@) == live_fields(sources@, s as int),
        decreases sources.len() - s,
    {
        let source = &sources[s];
        assert(sources@[s as int].index.wf());
        let ghost had = live_fields(sources@, s as int);
        let ghost things = source_fields(*source);
        let mut doc: usize = 0;
        assert(had + survivors(*source, things, 0) =~= had);
        while doc < source.index.lengths.len()
            invariant
                s < sources@.len(),
                *source == sources@[s as int],
                source.index.wf(),
                things == source_fields(*source),
                doc <= source.index.lengths@.len(),
                shown_all(out@) == had + survivors(*source, things, doc as int),
            decreases source.index.lengths@.len() - doc,
        {
            if !source.deleted.contains(doc as u32) {
                let ghost before = out@;
                let record: Vec<Field> = match &source.index.fields {
                    Some(fields) => copy_fields(&fields[doc]),
                    None => Vec::new(),
                };
                proof {
                    assert(source.live(doc as int));
                    assert(shown(record) =~= things[doc as int]);
                    assert(shown_all(before.push(record)) =~= shown_all(before).push(
                        shown(record),
                    ));
                    assert(had + survivors(*source, things, doc + 1) =~= (had + survivors(
                        *source,
                        things,
                        doc as int,
                    )).push(things[doc as int]));
                }
                out.push(record);
            }
            doc = doc + 1;
        }
        s = s + 1;
    }
    Some(out)
}

/// The keys of the live documents, under their new numbers.
///
/// A key naming a document its own segment does not hold is left out rather than
/// refused. It cannot be resolved to anything either way, and a merge is not the
/// pass that decides a segment is damaged.
fn names(sources: &Vec<Source>, mapping: &Vec<Vec<DocId>>) -> (keys: KeyMap<DocId>)
    requires
        mapped(sources@, mapping@),
        live_before(sources@, sources@.len() as int) <= u32::MAX,
    ensures
        keys.wf(),
        keys@ == named(sources@, sources@.len() as int),
{
    let mut map: KeyMap<DocId> = KeyMap::new();
    let mut s: usize = 0;
    while s < sources.len()
        invariant
            s <= sources@.len(),
            mapped(sources@, mapping@),
            live_before(sources@, sources@.len() as int) <= u32::MAX,
            map.wf(),
            map@ == named(sources@, s as int),
        decreases sources.len() - s,
    {
        let ghost had = map@;
        match &sources[s].index.keys {
            None => {},
            Some(keys) => {
                let mut i: usize = 0;
                while i < keys.len()
                    invariant
                        s < sources@.len(),
                        i <= keys@.len(),
                        mapped(sources@, mapping@),
                        live_before(sources@, sources@.len() as int) <= u32::MAX,
                        map.wf(),
                        map@ == named_in(had, sources@, s as int, keys@, i as int),
                    decreases keys.len() - i,
                {
                    let doc: u32 = keys[i].1;
                    assert(mapping@[s as int]@.len() == sources@[s as int].index.lengths@.len());
                    if (doc as usize) < mapping[s].len() {
                        let new: u32 = mapping[s][doc as usize];
                        proof {
                            assert(mapping@[s as int]@[doc as int] == if sources@[s as int].live(
                                doc as int,
                            ) {
                                place(sources@, s as int, doc as int) as u32
                            } else {
                                GONE
                            });
                            if sources@[s as int].live(doc as int) {
                                lemma_place(sources@, s as int, doc as int);
                            }
                        }
                        if new != GONE {
                            let key = vstd::slice::slice_to_vec(keys[i].0.as_slice());
                            map.insert(key, new);
                        }
                    }
                    i = i + 1;
                }
            },
        }
        s = s + 1;
    }
    map
}

/// The exact lengths and the rounded ones.
fn norms(sources: &Vec<Source>, documents: u32, total: u64) -> (written: (Vec<u8>, Vec<u8>))
    requires
        forall|s: int| 0 <= s < sources@.len() ==> (#[trigger] sources@[s]).index.wf(),
    ensures
        written.0@ == le_bytes(documents as nat, 4) + le_bytes(total as nat, 8) + u32s_bytes(
            live_lengths(sources@, sources@.len() as int),
        ),
        written.1@.len() == live_lengths(sources@, sources@.len() as int).len(),
        forall|i: int|
            0 <= i < written.1@.len() ==> rounds_to(
                live_lengths(sources@, sources@.len() as int)[i],
                #[trigger] written.1@[i],
            ),
{
    let mut norms: Vec<u8> = Vec::new();
    put_u32(&mut norms, documents);
    put_u64(&mut norms, total);
    let ghost head = norms@;
    assert(head =~= le_bytes(documents as nat, 4) + le_bytes(total as nat, 8));
    assert(head + u32s_bytes(live_lengths(sources@, 0)) =~= head);
    let mut rounded: Vec<u8> = Vec::new();
    let mut s: usize = 0;
    while s < sources.len()
        invariant
            s <= sources@.len(),
            forall|s: int| 0 <= s < sources@.len() ==> (#[trigger] sources@[s]).index.wf(),
            norms@ == head + u32s_bytes(live_lengths(sources@, s as int)),
            rounded@.len() == live_lengths(sources@, s as int).len(),
            forall|i: int|
                0 <= i < rounded@.len() ==> rounds_to(
                    live_lengths(sources@, s as int)[i],
                    #[trigger] rounded@[i],
                ),
        decreases sources.len() - s,
    {
        let source = &sources[s];
        assert(sources@[s as int].index.wf());
        let ghost had = live_lengths(sources@, s as int);
        let ghost lengths = source.index.lengths@;
        let mut doc: usize = 0;
        assert(had + survivors(*source, lengths, 0) =~= had);
        while doc < source.index.lengths.len()
            invariant
                s < sources@.len(),
                *source == sources@[s as int],
                source.index.wf(),
                lengths == source.index.lengths@,
                doc <= lengths.len(),
                norms@ == head + u32s_bytes(had + survivors(*source, lengths, doc as int)),
                rounded@.len() == (had + survivors(*source, lengths, doc as int)).len(),
                forall|i: int|
                    0 <= i < rounded@.len() ==> rounds_to(
                        (had + survivors(*source, lengths, doc as int))[i],
                        #[trigger] rounded@[i],
                    ),
            decreases lengths.len() - doc,
        {
            if !source.deleted.contains(doc as u32) {
                let length: u32 = source.index.lengths[doc];
                let ghost before = had + survivors(*source, lengths, doc as int);
                let ghost now = had + survivors(*source, lengths, doc + 1);
                proof {
                    assert(source.live(doc as int));
                    assert(now =~= before.push(length));
                    assert(now.drop_last() =~= before);
                }
                put_u32(&mut norms, length);
                assert(norms@ =~= head + u32s_bytes(now));
                rounded.push(round(length));
            }
            doc = doc + 1;
        }
        s = s + 1;
    }
    (norms, rounded)
}

/// What was written is the sources' live documents: as many of them, with their terms,
/// their lengths, their fields and their keys, under the numbers the mapping gives.
pub open spec fn merged_from(sources: Seq<Source>, m: Merged) -> bool {
    let n = sources.len() as int;
    &&& m.documents == live_before(sources, n)
    &&& m.dropped == dropped_of(sources, n)
    &&& merges(sources, m.contents.entries@)
    &&& m.terms == m.contents.entries@.len()
    &&& m.terms == surviving(sources).len()
    &&& m.contents.norms@ == le_bytes(live_before(sources, n), 4) + le_bytes(
        sum(live_lengths(sources, n)),
        8,
    ) + u32s_bytes(live_lengths(sources, n))
    &&& m.rounded@.len() == live_lengths(sources, n).len()
    &&& forall|i: int|
        0 <= i < m.rounded@.len() ==> rounds_to(
            live_lengths(sources, n)[i],
            #[trigger] m.rounded@[i],
        )
    &&& match m.contents.fields {
        Some(out) => any_fields(sources) && shown_all(out@) == live_fields(sources, n),
        None => !any_fields(sources),
    }
    &&& m.keys.wf()
    &&& m.keys@ == named(sources, n)
    &&& mapped(sources, m.moved.into@)
}

/// Writes one segment holding the live documents of all the sources.
///
/// The sources are given oldest first, the order the manifest lists them in.
/// Order decides two things. Documents are numbered in it. And when the same key
/// names a document in more than one source, the later source wins, which is
/// the same rule a lookup across a store follows when it takes the newest
/// segment holding the key.
///
/// Reports [`Error::Overflow`] if the sources together hold more live documents
/// than a document identifier can name.
pub fn merge(sources: &Vec<Source>) -> (merged: Result<Merged>)
    requires
        mergeable(sources@),
    ensures
        ({
            let n = sources@.len() as int;
            if live_before(sources@, n) <= u32::MAX {
                merged matches Ok(m) && merged_from(sources@, m)
            } else {
                merged matches Err(e) && e == Error::Overflow
            }
        }),
{
    let (mapping, documents, total) = match numbering(sources) {
        Ok(numbered) => numbered,
        Err(error) => {
            return Err(error);
        },
    };
    let mut dropped: u64 = 0;
    let mut s: usize = 0;
    while s < sources.len()
        invariant
            s <= sources@.len(),
            mergeable(sources@),
            dropped == dropped_of(sources@, s as int),
        decreases sources.len() - s,
    {
        assert(sources@[s as int].index.wf());
        let live: u32 = live(&sources[s]);
        proof {
            lemma_dropped_grows(sources@, s + 1, sources@.len() as int);
            lemma_count_bound(
                sources@[s as int].lives(),
                0,
                sources@[s as int].index.lengths@.len() as int,
            );
        }
        dropped = dropped + (sources[s].index.lengths.len() as u64 - live as u64);
        s = s + 1;
    }
    let entries = vocabulary(sources, &mapping);
    proof {
        lemma_survivors(sources@, entries@);
    }
    let terms: u32 = entries.len() as u32;
    let (norms, rounded) = norms(sources, documents, total);
    let carried = fields(sources);
    let keys = names(sources, &mapping);
    Ok(
        Merged {
            contents: Contents { entries, norms, fields: carried },
            rounded,
            keys,
            documents,
            dropped,
            terms,
            moved: Moved { into: mapping },
        },
    )
}

/// How many documents of a source are live.
fn live(source: &Source) -> (n: u32)
    requires
        source.index.wf(),
    ensures
        n == source.live_count(),
{
    let mut n: u32 = 0;
    let mut doc: usize = 0;
    while doc < source.index.lengths.len()
        invariant
            source.index.wf(),
            doc <= source.index.lengths@.len(),
            n <= doc,
            n == count(source.lives(), 0, doc as int),
        decreases source.index.lengths@.len() - doc,
    {
        if !source.deleted.contains(doc as u32) {
            n = n + 1;
        }
        doc = doc + 1;
    }
    n
}

proof fn lemma_dropped_grows(sources: Seq<Source>, a: int, b: int)
    requires
        0 <= a <= b <= sources.len(),
    ensures
        dropped_of(sources, a) <= dropped_of(sources, b),
    decreases b - a,
{
    if a < b {
        lemma_dropped_grows(sources, a, b - 1);
        lemma_count_bound(
            sources[b - 1].lives(),
            0,
            sources[b - 1].index.lengths@.len() as int,
        );
    }
}

} // verus!

//! Folding segments into one, on small corpora that can be checked by hand.
use kura_core::bitmap::Bitmap;
use kura_core::compact::{carries, is_carried, merge, Indexed, Merged, Moved, Source};
use kura_core::index::reader::Reader;
use kura_core::index::{Contents, Field, Writer};
use kura_core::keys;
use kura_core::length;
use kura_core::segment::{kind, Section, Segment};
use kura_core::{DocId, Error};

/// A corpus small enough to check by hand, with a term in it that only one
/// document holds so that deleting that document can be seen.
const DOCS: [&str; 4] = [
    "the quick brown fox jumps over the lazy dog",
    "the dog barks",
    "quick quick quick",
    "nothing in common with the others except a stop word",
];

fn build(docs: &[&str]) -> Contents {
    let mut writer = Writer::new();
    for doc in docs {
        writer.add(doc).expect("a handful of documents fit");
    }
    writer.finish().expect("what was written decodes")
}

/// A segment whose documents are named by their key and carry it back as a
/// stored field, which is what lets a test say which document it is looking at
/// after the numbering has changed.
fn keyed(docs: &[(&str, &str)]) -> (Contents, Vec<(Vec<u8>, DocId)>) {
    let mut writer = Writer::new();
    let mut keys = Vec::new();
    for (key, text) in docs {
        let doc = writer
            .add_with_fields(
                text,
                vec![Field {
                    name: "id".to_string(),
                    value: key.as_bytes().to_vec(),
                }],
            )
            .expect("adds");
        keys.push((key.as_bytes().to_vec(), doc));
    }
    keys.sort();
    (writer.finish().expect("what was written decodes"), keys)
}

/// The segment some contents are laid out in, as far as a merge asks about it.
fn laid_out(contents: &Contents, keys: bool) -> Segment {
    let mut kinds = vec![kind::TERMS, kind::POSTINGS];
    if contents.fields.is_some() {
        kinds.push(kind::FIELDS);
    }
    if keys {
        kinds.push(kind::KEYS);
        kinds.push(kind::KEY_FILTER);
    }
    let mut sections: Vec<Section> = kinds
        .into_iter()
        .map(|kind| Section {
            kind,
            bytes: Vec::new(),
        })
        .collect();
    sections.push(Section {
        kind: kind::NORMS,
        bytes: contents.norms.clone(),
    });
    Segment { sections }
}

fn lengths(contents: &Contents) -> Vec<u32> {
    let segment = laid_out(contents, false);
    let index = Reader::open(&segment, Ok(0), Ok(())).expect("opens");
    (0..index.documents()).map(|doc| index.length(doc)).collect()
}

fn source(contents: Contents, deleted: Option<Bitmap>) -> Result<Source, Error> {
    let segment = laid_out(&contents, false);
    let index = Indexed {
        lengths: lengths(&contents),
        entries: contents.entries,
        fields: contents.fields,
        keys: None,
    };
    Source::new(&segment, index, deleted)
}

fn keyed_source(docs: &[(&str, &str)], deleted: Option<Bitmap>) -> Result<Source, Error> {
    let (contents, keys) = keyed(docs);
    let segment = laid_out(&contents, true);
    let index = Indexed {
        lengths: lengths(&contents),
        entries: contents.entries,
        fields: contents.fields,
        keys: Some(keys),
    };
    Source::new(&segment, index, deleted)
}

/// The documents that hold a word, in order.
fn answers(contents: &Contents, word: &str) -> Vec<DocId> {
    contents
        .postings(word.as_bytes())
        .map_or(Vec::new(), |list| list.iter().map(|&(doc, _)| doc).collect())
}

/// The `id` field of a document, as a string.
fn id(contents: &Contents, doc: usize) -> String {
    let fields = contents.fields.as_ref().expect("the segment stored its fields");
    let field = fields[doc]
        .iter()
        .find(|field| field.name == "id")
        .expect("an id");
    String::from_utf8_lossy(&field.value).into_owned()
}

/// What a merge holds under a key.
fn document(merged: &Merged, key: &[u8]) -> Option<DocId> {
    merged.keys.get(key)
}

/// Contents as plain values, to be compared.
fn plain(contents: &Contents) -> (Vec<(Vec<u8>, Vec<(DocId, u32)>)>, Vec<u8>) {
    (
        contents
            .entries
            .iter()
            .map(|entry| (entry.term.clone(), entry.postings.clone()))
            .collect(),
        contents.norms.clone(),
    )
}

#[test]
fn a_merge_holds_every_live_document_of_every_source() {
    let sources = vec![
        source(build(&DOCS[..2]), None).expect("opens"),
        source(build(&DOCS[2..]), None).expect("opens"),
    ];
    let report = merge(&sources).expect("merges");
    assert_eq!(report.documents, 4);
    assert_eq!(report.dropped, 0);
    assert_eq!(lengths(&report.contents).len(), 4);

    // The same questions the sources could answer, answered the same way. The
    // numbering matches because a search across segments numbers a hit by the
    // segments before it, which is the order the merge numbered them in.
    let (first, second) = (build(&DOCS[..2]), build(&DOCS[2..]));
    for query in ["the", "dog", "quick", "fox", "barks", "word", "missing"] {
        let mut expected = answers(&first, query);
        expected.extend(answers(&second, query).into_iter().map(|doc| doc + 2));
        assert_eq!(answers(&report.contents, query), expected, "{query} moved");
    }
}

#[test]
fn a_merge_of_segments_with_nothing_deleted_is_the_segment_the_writer_would_have_built() {
    let whole = build(&DOCS);
    let sources = vec![
        source(build(&DOCS[..1]), None).expect("opens"),
        source(build(&DOCS[1..]), None).expect("opens"),
    ];
    let merged = merge(&sources).expect("merges");
    assert_eq!(plain(&merged.contents), plain(&whole));
}

#[test]
fn a_deleted_document_and_its_key_and_its_fields_are_not_in_the_merge() {
    let gone = Bitmap::from_sorted(&[1]);
    let source = keyed_source(
        &[
            ("a", DOCS[0]),
            ("b", DOCS[1]),
            ("c", DOCS[2]),
            ("d", DOCS[3]),
        ],
        Some(gone),
    )
    .expect("opens");
    let report = merge(&vec![source]).expect("merges");
    assert_eq!(report.documents, 3);
    assert_eq!(report.dropped, 1);

    // The documents that are left are the ones that were left, in order.
    assert_eq!(id(&report.contents, 0), "a");
    assert_eq!(id(&report.contents, 1), "c");
    assert_eq!(id(&report.contents, 2), "d");
    assert_eq!(document(&report, b"b"), None);
    assert_eq!(document(&report, b"a"), Some(0));
    assert_eq!(document(&report, b"c"), Some(1));
    assert_eq!(document(&report, b"d"), Some(2));

    // The deleted document held the only "barks" in the corpus, so the term is
    // not in the dictionary at all rather than in it with an empty list.
    assert!(report.contents.postings(b"barks").is_none());
    assert_eq!(answers(&report.contents, "dog"), vec![0]);
    assert_eq!(answers(&report.contents, "quick"), vec![0, 1]);

    assert_eq!(report.moved.sources(), 1);
    assert_eq!(report.moved.of(0, 0), Some(0));
    assert_eq!(report.moved.of(0, 1), None);
    assert_eq!(report.moved.of(0, 3), Some(2));
    assert_eq!(report.moved.of(0, 4), None);
    assert_eq!(report.moved.of(1, 0), None);
}

#[test]
fn the_lengths_and_the_totals_of_a_merge_are_the_ones_of_what_survived() {
    let source = keyed_source(
        &[("a", "one two three"), ("b", "four"), ("c", "five six")],
        Some(Bitmap::from_sorted(&[1])),
    )
    .expect("opens");
    let merged = merge(&vec![source]).expect("merges");
    let segment = laid_out(&merged.contents, true);
    let terms = merged.contents.entries.len() as u32;
    let index = Reader::open(&segment, Ok(terms), Ok(())).expect("opens");

    assert_eq!(index.length(0), 3);
    assert_eq!(index.length(1), 2);
    assert_eq!(index.total_length(), 5);
    let average = index.total_length() as f32 / index.documents() as f32;
    assert!((average - 2.5).abs() < f32::EPSILON);
    assert_eq!(merged.rounded.len(), 2);
    for doc in 0..index.documents() {
        assert_eq!(
            merged.rounded[doc as usize],
            length::round(index.length(doc))
        );
    }
}

#[test]
fn a_key_in_two_sources_resolves_to_the_document_of_the_later_one() {
    // What a store looks like when a document was replaced and the deletion has
    // not been written, or when the segments being folded are not the whole
    // store. The rule a lookup follows is that the newest segment wins, and a
    // merge has to leave that answer where it was.
    let sources = vec![
        keyed_source(&[("a", "the old text"), ("b", "another document")], None).expect("opens"),
        keyed_source(&[("a", "the new text")], None).expect("opens"),
    ];
    let merged = merge(&sources).expect("merges");

    assert_eq!(merged.documents, 3);
    assert_eq!(document(&merged, b"a"), Some(2));
    assert_eq!(document(&merged, b"b"), Some(1));
    assert_eq!(answers(&merged.contents, "new"), vec![2]);
    // The superseded document is still there, because nothing said it was
    // deleted. It is the key that moved, not the text.
    assert_eq!(answers(&merged.contents, "old"), vec![0]);
}

#[test]
fn a_source_without_stored_fields_does_not_shift_the_fields_of_one_with_them() {
    let sources = vec![
        source(build(&["a document with no fields at all"]), None).expect("opens"),
        keyed_source(&[("a", "one"), ("b", "two")], None).expect("opens"),
    ];
    let merged = merge(&sources).expect("merges");

    assert_eq!(merged.documents, 3);
    let fields = merged.contents.fields.as_ref().expect("a field section");
    assert!(fields[0].is_empty());
    assert_eq!(id(&merged.contents, 1), "a");
    assert_eq!(id(&merged.contents, 2), "b");
}

#[test]
fn a_merge_of_segments_that_stored_nothing_writes_no_field_section() {
    let sources = vec![
        source(build(&DOCS[..2]), None).expect("opens"),
        source(build(&DOCS[2..]), None).expect("opens"),
    ];
    let merged = merge(&sources).expect("merges");
    assert!(merged.contents.fields.is_none());
    assert!(merged.keys.entries.is_empty());
}

#[test]
fn merging_a_segment_whose_every_document_is_deleted_leaves_an_empty_one() {
    let source = keyed_source(
        &[("a", DOCS[0]), ("b", DOCS[1])],
        Some(Bitmap::from_sorted(&[0, 1])),
    )
    .expect("opens");
    let report = merge(&vec![source]).expect("merges");
    assert_eq!(report.documents, 0);
    assert_eq!(report.dropped, 2);
    assert_eq!(report.terms, 0);

    let segment = laid_out(&report.contents, false);
    let index = Reader::open(&segment, Ok(report.terms), Ok(())).expect("opens");
    assert_eq!(index.terms(), 0);
    assert!(index.is_empty());
    assert!(report.contents.entries.is_empty());
    assert_eq!(answers(&report.contents, "dog"), Vec::<DocId>::new());
}

#[test]
fn merging_nothing_at_all_is_an_empty_segment_rather_than_a_refusal() {
    let report = merge(&Vec::new()).expect("merges");
    assert_eq!(report.documents, 0);
    let segment = laid_out(&report.contents, false);
    assert!(Reader::open(&segment, Ok(0), Ok(())).expect("opens").is_empty());
}

#[test]
fn a_segment_holding_a_section_a_merge_cannot_carry_is_refused() {
    // A segment written by a build that knows about something this one does not.
    // Merging it would produce a segment that answers every question the old one
    // did except the ones nothing here can ask yet, and it would do it without
    // saying so.
    let contents = build(&DOCS);
    let mut segment = laid_out(&contents, false);
    assert_eq!(carries(&segment), Ok(()));
    segment.sections.push(Section {
        kind: kind::VECTORS,
        bytes: b"whatever a vector section holds".to_vec(),
    });
    let index = Indexed {
        lengths: lengths(&contents),
        entries: contents.entries,
        fields: None,
        keys: None,
    };
    assert_eq!(
        Source::new(&segment, index, None).err(),
        Some(Error::UncarriedSection {
            kind: kind::VECTORS
        })
    );
}

#[test]
fn deletions_that_do_not_belong_to_the_segment_are_refused() {
    let gone = Bitmap::from_sorted(&[7]);
    assert_eq!(
        source(build(&DOCS), Some(gone)).err(),
        Some(Error::NoSuchDocument {
            doc: 7,
            documents: 4
        })
    );
}

#[test]
fn every_section_kind_there_is_is_either_carried_or_refused_on_purpose() {
    // The sections a merge has no way to carry yet. Being in here is a decision
    // that a segment holding one is refused, which is the loud failure. The quiet
    // one is a kind in neither list, which is a section the merge has never heard
    // of and would drop, and that is what this test is for.
    const REFUSED: [u16; 5] = [
        kind::VECTORS,
        kind::ACL,
        kind::COLUMNS,
        kind::GRAPH,
        kind::TOMBSTONES,
    ];
    for kind in kind::known() {
        assert!(
            is_carried(kind) || REFUSED.contains(&kind),
            "nothing here says what a merge does with a section of kind {kind}"
        );
        assert!(
            !(is_carried(kind) && REFUSED.contains(&kind)),
            "a section of kind {kind} is both carried and refused"
        );
    }
}

#[test]
fn a_merge_of_nothing_moves_nothing() {
    let moved = Moved::default();
    assert_eq!(moved.sources(), 0);
    assert_eq!(moved.of(0, 0), None);
}

#[test]
fn an_index_is_read_out_of_the_sections_of_its_segment() {
    let (contents, keys) = keyed(&[("b", "one two"), ("a", "three")]);
    let mut segment = laid_out(&contents, false);
    let fields = contents.fields.expect("the fields were stored");
    let index = Indexed::read(&segment, Ok(contents.entries), Ok(fields)).expect("reads");
    assert_eq!(index.lengths, [2, 1]);
    assert_eq!(index.keys, None);
    assert_eq!(index.entries.len(), 3);
    assert_eq!(index.fields.map(|fields| fields.len()), Some(2));

    let mut table = keys::Writer::new();
    for (key, doc) in &keys {
        table.push(key, *doc).expect("a key");
    }
    let bytes = table.finish().expect("a table");
    segment.sections.push(Section {
        kind: kind::KEYS,
        bytes,
    });
    let fields = vec![Vec::new(), Vec::new()];
    let index = Indexed::read(&segment, Ok(Vec::new()), Ok(fields)).expect("reads");
    assert_eq!(index.keys, Some(vec![(b"a".to_vec(), 1), (b"b".to_vec(), 0)]));
}

#[test]
fn an_index_whose_sections_are_missing_or_short_is_not_read() {
    let read = |segment: &Segment| {
        Indexed::read(segment, Ok(Vec::new()), Ok(Vec::new())).map(|index| index.fields.is_some())
    };
    for missing in [kind::TERMS, kind::POSTINGS, kind::NORMS] {
        let mut segment = laid_out(&build(&DOCS), false);
        segment.sections.retain(|section| section.kind != missing);
        assert_eq!(read(&segment), Err(Error::MissingSection { kind: missing }));
    }
    let mut segment = laid_out(&build(&DOCS), true);
    assert!(matches!(read(&segment), Err(Error::Truncated { .. })));
    segment.sections.retain(|section| section.kind != kind::KEYS);
    assert_eq!(read(&segment), Ok(false));
    let broken = Indexed::read(&segment, Err(Error::Overflow), Ok(Vec::new()));
    assert_eq!(broken.err(), Some(Error::Overflow));
}

#[test]
fn a_merge_has_as_many_terms_as_survive_it() {
    let gone = Bitmap::from_sorted(&[3]);
    let sources = vec![
        source(build(&DOCS), Some(gone)).expect("opens"),
        source(build(&DOCS[..1]), None).expect("opens"),
    ];
    let went_in: usize = sources.iter().map(|source| source.index.entries.len()).sum();
    let merged = merge(&sources).expect("merges");
    // the quick brown fox jumps over lazy dog barks
    assert_eq!(merged.terms, 9);
    assert!(went_in > 9);
}

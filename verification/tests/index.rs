//! Building and reading an index on small corpora.
use kura_core::index::reader::Reader;
use kura_core::index::{Contents, Field, Writer};
use kura_core::segment::{kind, Section, Segment};
use kura_core::{DocId, Error};

/// A corpus small enough to check by hand and varied enough to exercise the paths
/// that matter.
const DOCS: [&str; 4] = [
    "the quick brown fox jumps over the lazy dog",
    "the dog barks",
    "quick quick quick",
    "nothing in common with the others except a stop word",
];

fn build(docs: &[&str]) -> Contents {
    let mut writer = Writer::new();
    for doc in docs {
        writer.add(doc).expect("a handful of documents fit");
    }
    writer.finish().expect("what was written decodes")
}

/// The segment some contents are laid out in, as far as a reader asks about it.
fn laid_out(contents: &Contents) -> Segment {
    let mut sections = vec![
        Section {
            kind: kind::TERMS,
            bytes: Vec::new(),
        },
        Section {
            kind: kind::POSTINGS,
            bytes: b"0123456789".to_vec(),
        },
        Section {
            kind: kind::NORMS,
            bytes: contents.norms.clone(),
        },
    ];
    if contents.fields.is_some() {
        sections.push(Section {
            kind: kind::FIELDS,
            bytes: b"fields".to_vec(),
        });
    }
    Segment { sections }
}

fn fields(pairs: &[(&str, &[u8])]) -> Vec<Field> {
    pairs
        .iter()
        .map(|(name, value)| Field {
            name: (*name).to_string(),
            value: value.to_vec(),
        })
        .collect()
}

fn field<'a>(contents: &'a Contents, doc: usize, name: &str) -> Option<&'a [u8]> {
    contents.fields.as_ref()?[doc]
        .iter()
        .find(|field| field.name == name)
        .map(|field| &field.value[..])
}

/// The index of a segment whose dictionary and fields decode.
fn opened<'a>(segment: &'a Segment, contents: &Contents) -> Result<Reader<'a>, Error> {
    Reader::open(segment, Ok(contents.entries.len() as u32), Ok(()))
}

/// The documents that hold a term.
fn docs(contents: &Contents, term: &str) -> Vec<DocId> {
    contents
        .postings(term.as_bytes())
        .expect("the term is in the index")
        .iter()
        .map(|&(doc, _)| doc)
        .collect()
}

fn average_length(index: &Reader<'_>) -> f32 {
    if index.documents() == 0 {
        return 0.0;
    }
    (index.total_length() as f64 / f64::from(index.documents())) as f32
}

/// Contents as plain values, to be compared.
fn plain(contents: &Contents) -> (Vec<(Vec<u8>, Vec<(DocId, u32)>)>, Vec<u8>) {
    (
        contents
            .entries
            .iter()
            .map(|entry| (entry.term.clone(), entry.postings.clone()))
            .collect(),
        contents.norms.clone(),
    )
}

#[test]
fn stored_fields_come_back_with_the_document_they_went_in_with() {
    let mut writer = Writer::new();
    writer
        .add_with_fields("the quick brown fox", fields(&[("id", b"a"), ("n", b"1")]))
        .expect("adds");
    writer
        .add_with_fields("the lazy dog", fields(&[("id", b"b"), ("n", b"2")]))
        .expect("adds");
    let contents = writer.finish().expect("finishes");
    let segment = laid_out(&contents);
    assert!(opened(&segment, &contents).expect("opens").store().is_some());
    assert_eq!(contents.fields.as_ref().expect("stored").len(), 2);
    for (doc, want) in [(0, &b"a"[..]), (1, &b"b"[..])] {
        assert_eq!(field(&contents, doc, "id"), Some(want));
    }
}

#[test]
fn an_index_that_stores_nothing_carries_no_store() {
    // Eight bytes a document for an empty record is eight bytes a document nobody
    // asked for.
    let mut writer = Writer::new();
    writer.add("the quick brown fox").expect("adds");
    let contents = writer.finish().expect("finishes");
    assert!(contents.fields.is_none());
    let segment = laid_out(&contents);
    assert!(opened(&segment, &contents).expect("opens").store().is_none());
}

#[test]
fn a_segment_built_in_parts_is_the_segment_built_in_one() {
    // The property the whole fold rests on. Whether a corpus went through one
    // writer or four is not something a reader should be able to tell.
    let docs: Vec<String> = (0..400)
        .map(|i| format!("document {i} the quick brown fox term{} shared", i % 37))
        .collect();

    let mut whole = Writer::new();
    for text in &docs {
        whole
            .add_with_fields(text, fields(&[("n", text.as_bytes())]))
            .expect("adds");
    }
    let one = whole.finish().expect("finishes");

    let mut parts = Vec::new();
    for slice in docs.chunks(97) {
        let mut part = Writer::new();
        for text in slice {
            part.add_with_fields(text, fields(&[("n", text.as_bytes())]))
                .expect("adds");
        }
        parts.push(part);
    }
    let many = Writer::concat(parts).expect("folds");

    assert_eq!(plain(&one), plain(&many));

    let (left, right) = (laid_out(&one), laid_out(&many));
    let left = opened(&left, &one).expect("opens");
    let right = opened(&right, &many).expect("opens");
    assert_eq!(left.documents(), right.documents());
    assert_eq!(left.terms(), right.terms());
    for doc in 0..right.documents() {
        assert_eq!(left.length(doc), right.length(doc));
        assert_eq!(
            field(&many, doc as usize, "n"),
            Some(docs[doc as usize].as_bytes()),
            "document {doc}"
        );
    }
}

#[test]
fn folding_parts_that_hold_nothing_changes_nothing() {
    let mut part = Writer::new();
    part.add("the only document there is").expect("adds");
    let alone = part.finish().expect("finishes");

    let mut part = Writer::new();
    part.add("the only document there is").expect("adds");
    let folded = Writer::concat(vec![Writer::new(), part, Writer::new()]).expect("folds");
    assert_eq!(plain(&alone), plain(&folded));
    assert!(folded.fields.is_none());
}

#[test]
fn a_fold_of_nothing_is_a_segment() {
    let contents = Writer::concat(Vec::new()).expect("folds");
    let segment = laid_out(&contents);
    let index = opened(&segment, &contents).expect("opens");
    assert!(index.is_empty());
    assert_eq!(index.terms(), 0);
}

#[test]
fn a_term_only_one_part_has_still_finds_its_documents() {
    let mut first = Writer::new();
    first.add("alpha beta").expect("adds");
    let mut second = Writer::new();
    second.add("gamma").expect("adds");
    second.add("beta gamma").expect("adds");
    let contents = Writer::concat(vec![first, second]).expect("folds");
    for (term, want) in [
        ("alpha", vec![0]),
        ("beta", vec![0, 2]),
        ("gamma", vec![1, 2]),
    ] {
        assert_eq!(docs(&contents, term), want, "{term}");
    }
}

#[test]
fn every_term_finds_the_documents_it_was_in() {
    let contents = build(&DOCS);
    assert_eq!(docs(&contents, "the"), [0, 1, 3]);
    assert_eq!(docs(&contents, "dog"), [0, 1]);
    assert_eq!(docs(&contents, "quick"), [0, 2]);
    assert_eq!(docs(&contents, "fox"), [0]);
    assert_eq!(docs(&contents, "barks"), [1]);
}

#[test]
fn a_term_that_is_not_there_is_not_found() {
    let contents = build(&DOCS);
    assert!(contents.postings(b"aardvark").is_none());
    assert!(contents.postings(b"").is_none());
}

#[test]
fn frequencies_survive_the_round_trip() {
    let contents = build(&DOCS);
    let quick = contents.postings(b"quick").expect("is there");
    assert_eq!(*quick, [(0, 1), (2, 3)]);
    let the = contents.postings(b"the").expect("is there");
    assert_eq!(*the, [(0, 2), (1, 1), (3, 1)]);
}

#[test]
fn lengths_and_the_average_are_what_was_indexed() {
    let contents = build(&DOCS);
    let segment = laid_out(&contents);
    let index = opened(&segment, &contents).expect("opens");
    assert_eq!(index.documents(), 4);
    assert_eq!(index.length(0), 9);
    assert_eq!(index.length(1), 3);
    assert_eq!(index.length(2), 3);
    assert_eq!(index.length(3), 10);
    assert_eq!(index.length(4), 0);
    assert!((average_length(&index) - 6.25).abs() < 1e-6);
}

#[test]
fn an_index_with_no_documents_is_valid() {
    let contents = build(&[]);
    let segment = laid_out(&contents);
    let index = opened(&segment, &contents).expect("opens");
    assert_eq!(index.documents(), 0);
    assert_eq!(index.terms(), 0);
    assert!(index.is_empty());
    assert!((average_length(&index) - 0.0).abs() < 1e-6);
    assert!(contents.postings(b"anything").is_none());
}

#[test]
fn a_document_with_no_terms_still_counts() {
    let contents = build(&["hello", "   ,,,   ", "hello"]);
    let segment = laid_out(&contents);
    let index = opened(&segment, &contents).expect("opens");
    assert_eq!(index.documents(), 3);
    assert_eq!(index.length(1), 0);
    assert_eq!(docs(&contents, "hello"), [0, 2]);
}

#[test]
fn a_chain_that_runs_over_many_chunks_decodes() {
    // A term in every one of ten thousand documents is a chain hundreds of chunks
    // long, which is the only way to find out whether the link following is right.
    let texts: Vec<String> = (0..10_000).map(|i| format!("common term{i}")).collect();
    let refs: Vec<&str> = texts.iter().map(String::as_str).collect();
    let contents = build(&refs);
    let common = docs(&contents, "common");
    assert_eq!(common.len(), 10_000);
    assert!(common.iter().copied().eq(0..10_000));
    assert_eq!(contents.entries.len(), 10_001);
}

#[test]
fn a_term_in_a_document_far_from_the_last_one_keeps_its_gap() {
    // Gaps are what the chain stores, so a term that skips most of the corpus is
    // the case that catches an off by one in the delta.
    let mut texts: Vec<String> = (0..1_000).map(|i| format!("filler{i}")).collect();
    texts[0] = "rare filler0".to_string();
    texts[500] = "rare filler500".to_string();
    texts[999] = "rare filler999".to_string();
    let refs: Vec<&str> = texts.iter().map(String::as_str).collect();
    let contents = build(&refs);
    assert_eq!(docs(&contents, "rare"), [0, 500, 999]);
}

#[test]
fn the_vocabulary_grows_without_losing_a_term() {
    // Past the load factor the table is rebuilt, and a term lost in the rebuild
    // would be a term that silently stops matching.
    let texts: Vec<String> = (0..20_000).map(|i| format!("term{i} shared")).collect();
    let refs: Vec<&str> = texts.iter().map(String::as_str).collect();
    let contents = build(&refs);
    assert_eq!(contents.entries.len(), 20_001);
    for i in (0..20_000).step_by(97) {
        assert_eq!(docs(&contents, &format!("term{i}")), [i]);
    }
}

#[test]
fn a_truncated_segment_is_an_error_not_a_panic() {
    let contents = build(&DOCS);
    let total: usize = laid_out(&contents).sections.iter().map(|held| held.bytes.len()).sum();
    for cut in 0..total {
        // The sections up to the cut, the last of them short, and none after it.
        let mut segment = laid_out(&contents);
        let mut left = cut;
        segment.sections.retain_mut(|held| {
            let keeps = left > 0;
            held.bytes.truncate(left);
            left -= held.bytes.len();
            keeps
        });
        let short = Error::Truncated {
            needed: total,
            available: cut,
        };
        for dictionary in [Ok(contents.entries.len() as u32), Err(short)] {
            let Ok(index) = Reader::open(&segment, dictionary, Ok(())) else {
                continue;
            };
            let _ = index.list(0, 4);
            let _ = index.length(0);
        }
    }
}

#[test]
fn norms_that_are_cut_short_are_not_opened() {
    let contents = build(&DOCS);
    for cut in 0..contents.norms.len() {
        let mut segment = laid_out(&contents);
        segment.sections[2].bytes.truncate(cut);
        assert!(
            matches!(opened(&segment, &contents), Err(Error::Truncated { .. })),
            "cut at {cut}"
        );
    }
}

#[test]
fn an_index_whose_fields_or_dictionary_do_not_decode_is_not_opened() {
    let mut writer = Writer::new();
    writer.add_with_fields("one two", fields(&[("n", b"1")])).expect("adds");
    let stored = laid_out(&writer.finish().expect("finishes"));
    let plain = laid_out(&build(&["one two"]));
    let (fields, terms) = (Error::BadMagic, Error::Overflow);
    let read = |segment, dictionary, store| {
        Reader::open(segment, dictionary, store).map(|index| index.terms())
    };
    assert_eq!(read(&stored, Ok(2), Ok(())), Ok(2));
    assert_eq!(read(&stored, Err(terms), Err(fields)), Err(fields));
    assert_eq!(read(&stored, Err(terms), Ok(())), Err(terms));
    // An index that stored nothing has no fields to be wrong.
    assert_eq!(read(&plain, Ok(2), Err(fields)), Ok(2));
    assert_eq!(read(&plain, Err(terms), Err(fields)), Err(terms));
}

#[test]
fn a_segment_without_a_section_an_index_needs_says_which() {
    let contents = build(&DOCS);
    for (at, want) in [kind::TERMS, kind::POSTINGS, kind::NORMS]
        .into_iter()
        .enumerate()
    {
        let mut segment = laid_out(&contents);
        segment.sections.remove(at);
        assert_eq!(
            opened(&segment, &contents).err(),
            Some(Error::MissingSection { kind: want })
        );
    }
}

#[test]
fn a_list_outside_the_postings_section_is_refused() {
    let contents = build(&DOCS);
    let segment = laid_out(&contents);
    let index = opened(&segment, &contents).expect("opens");
    assert_eq!(index.list(2, 3), Ok(&b"234"[..]));
    assert_eq!(index.list(10, 0), Ok(&b""[..]));
    assert_eq!(
        index.list(8, 3),
        Err(Error::SectionOutOfRange {
            kind: kind::POSTINGS,
            offset: 8,
            length: 3
        })
    );
    assert!(index.list(u64::MAX, u64::MAX).is_err());
}

#[test]
fn terms_that_were_analysed_already_index_like_their_text() {
    let mut texts = Writer::new();
    texts.add("quick brown quick").expect("adds");
    let mut terms = Writer::new();
    terms
        .add_terms(
            &vec![b"quick".to_vec(), b"brown".to_vec(), b"quick".to_vec()],
            Vec::new(),
        )
        .expect("adds");
    assert_eq!(
        plain(&texts.finish().expect("finishes")),
        plain(&terms.finish().expect("finishes"))
    );
}

#[test]
fn a_document_offered_to_an_index_with_room_is_added() {
    let mut writer = Writer::new();
    assert!(writer.has_room(&vec![b"one".to_vec(), b"one".to_vec()]));
    assert_eq!(writer.offer("one two", Vec::new()), Ok(Some(0)));
    assert_eq!(writer.offer("two", fields(&[("n", b"2")])), Ok(Some(1)));
    assert_eq!(writer.len(), 2);
    let contents = writer.finish().expect("finishes");
    assert_eq!(contents.postings(b"two"), Some(&vec![(0, 1), (1, 1)]));
    assert_eq!(field(&contents, 1, "n"), Some(&b"2"[..]));
}

#[test]
fn a_document_of_terms_the_index_holds_needs_no_room_for_them() {
    let mut writer = Writer::new();
    let terms = vec![b"one".to_vec(), b"two".to_vec(), b"one".to_vec()];
    for doc in 0..200 {
        assert!(writer.has_room(&terms));
        assert_eq!(writer.add_terms(&terms, Vec::new()), Ok(doc));
    }
    let contents = writer.finish().expect("finishes");
    assert_eq!(contents.entries.len(), 2);
    assert_eq!(contents.postings(b"one").map(Vec::len), Some(200));
}

//! The key table on concrete keys.
use kura_core::keys::{Reader, Writer, HEADER};
use kura_core::{DocId, Error};

/// Keys that look like real ones: long, alike, and differing at the end.
fn key(n: usize) -> Vec<u8> {
    format!("https://example.com/wiki/page/{n:06}").into_bytes()
}

/// A table over `count` keys, each naming the document with the same number.
fn built(count: usize) -> Vec<u8> {
    let mut keys: Vec<_> = (0..count).map(key).collect();
    keys.sort();
    let mut writer = Writer::new();
    for (doc, key) in keys.iter().enumerate() {
        let doc = DocId::try_from(doc).expect("a test corpus fits in a segment");
        writer.push(key, doc).expect("a key");
    }
    writer.finish().expect("a table")
}

#[test]
fn a_key_that_went_in_names_the_document_it_went_in_with() {
    let bytes = built(1_000);
    let reader = Reader::new(&bytes).expect("a table");
    assert_eq!(reader.len(), 1_000);
    // The keys were sorted before they were pushed and the numbers are
    // zero padded, so the key of document n is the nth key.
    for n in 0..1_000 {
        let doc = DocId::try_from(n).expect("a small number");
        assert_eq!(reader.get(&key(n)), Some(doc));
    }
}

#[test]
fn a_key_that_is_not_there_is_absent_rather_than_the_nearest_one() {
    let bytes = built(1_000);
    let reader = Reader::new(&bytes).expect("a table");
    assert_eq!(reader.get(b""), None);
    assert_eq!(reader.get(b"https://example.com/wiki/page/000000x"), None);
    assert_eq!(reader.get(b"https://example.com/wiki/page/001000"), None);
    assert_eq!(reader.get(b"zzz"), None);
    assert_eq!(reader.get(b"a"), None);
}

#[test]
fn a_table_with_nothing_in_it_answers_nothing() {
    let bytes = Writer::new().finish().expect("a table");
    assert_eq!(bytes.len(), HEADER);
    let reader = Reader::new(&bytes).expect("a table");
    assert!(reader.is_empty());
    assert_eq!(reader.get(b"anything"), None);
    assert_eq!(reader.entries().len(), 0);
}

#[test]
fn a_table_of_one_key_answers_it_and_nothing_else() {
    let mut writer = Writer::new();
    writer.push(b"only", 7).expect("a key");
    let bytes = writer.finish().expect("a table");
    let reader = Reader::new(&bytes).expect("a table");
    assert_eq!(reader.get(b"only"), Some(7));
    assert_eq!(reader.get(b"onl"), None);
    assert_eq!(reader.get(b"onlyy"), None);
}

#[test]
fn a_key_that_is_a_prefix_of_another_is_its_own_key() {
    // The case a naive comparison gets wrong, and the reason the length is
    // part of the key rather than a terminator being part of it.
    let mut writer = Writer::new();
    for (key, doc) in [(&b"doc"[..], 1u32), (b"doc/1", 2), (b"doc/10", 3)] {
        writer.push(key, doc).expect("a key");
    }
    let bytes = writer.finish().expect("a table");
    let reader = Reader::new(&bytes).expect("a table");
    assert_eq!(reader.get(b"doc"), Some(1));
    assert_eq!(reader.get(b"doc/1"), Some(2));
    assert_eq!(reader.get(b"doc/10"), Some(3));
    assert_eq!(reader.get(b"doc/100"), None);
}

#[test]
fn an_empty_key_is_a_key() {
    let mut writer = Writer::new();
    writer.push(b"", 4).expect("a key");
    writer.push(b"after", 5).expect("a key");
    let bytes = writer.finish().expect("a table");
    let reader = Reader::new(&bytes).expect("a table");
    assert_eq!(reader.get(b""), Some(4));
    assert_eq!(reader.get(b"after"), Some(5));
}

#[test]
fn a_key_out_of_order_is_refused_and_so_is_the_same_key_twice() {
    let mut writer = Writer::new();
    writer.push(b"b", 0).expect("a key");
    assert!(matches!(
        writer.push(b"a", 1),
        Err(Error::NotSorted { at: 1 })
    ));
    assert!(matches!(
        writer.push(b"b", 2),
        Err(Error::NotSorted { at: 1 })
    ));
    writer.push(b"c", 3).expect("a key");
    assert_eq!(writer.len(), 2);
}

#[test]
fn every_key_comes_back_in_the_order_it_was_written() {
    let bytes = built(200);
    let reader = Reader::new(&bytes).expect("a table");
    let entries = reader.entries();
    assert_eq!(entries.len(), 200);
    for pair in entries.windows(2) {
        assert!(pair[0].0 < pair[1].0);
    }
    for (at, (key, doc)) in entries.iter().enumerate() {
        assert_eq!(reader.key(at), Some(*key));
        assert_eq!(reader.doc(at), Some(*doc));
    }
    assert_eq!(reader.key(200), None);
    assert_eq!(reader.doc(200), None);
}

#[test]
fn a_table_reads_back_as_the_table_that_was_written() {
    let bytes = built(64);
    let reader = Reader::new(&bytes).expect("a table");
    assert_eq!(reader.size(), bytes.len());
    // And with something after it, which is what a section holding more
    // than the table looks like.
    let mut more = bytes.clone();
    more.extend_from_slice(b"and then some");
    let reader = Reader::new(&more).expect("a table");
    assert_eq!(reader.size(), bytes.len());
    assert_eq!(reader.get(&key(0)), Some(0));
}

#[test]
fn a_table_that_stops_short_is_refused_rather_than_read() {
    let bytes = built(64);
    for cut in [0, 1, HEADER - 1, HEADER, HEADER + 4, bytes.len() - 1] {
        assert!(
            matches!(Reader::new(&bytes[..cut]), Err(Error::Truncated { .. })),
            "cut at {cut}"
        );
    }
}

#[test]
fn a_table_whose_offsets_are_nonsense_answers_nothing_rather_than_reading_past_the_end() {
    let mut bytes = built(16);
    // The offset of the last key, turned into something past the blob.
    let at = HEADER + 16 * 4 + 15 * 4;
    bytes[at..at + 4].copy_from_slice(&u32::MAX.to_le_bytes());
    let reader = Reader::new(&bytes).expect("a table");
    assert_eq!(reader.key(15), None);
    // Every lookup that walks over the damaged key gives up rather than
    // guessing, and the ones that do not are still answerable.
    assert_eq!(reader.get(&key(15)), None);
    // Fourteen rather than fifteen, because a key ends where the next one
    // starts, so a broken offset takes out the key in front of it as well.
    assert_eq!(reader.entries().len(), 14);
}

//! Batches, groups and the log they come back from, over a file that is a vector.
use kura_core::analysis::Analyzer;
use kura_core::bitmap::Bitmap;
use kura_core::file::publish::Published;
use kura_core::file::view::View;
use kura_core::file::walk::{Aim, Look, Seen, Walk};
use kura_core::file::{committed_deletions, Log, Store};
use kura_core::index::{Contents, Field};
use kura_core::ingest::group::commit_all;
use kura_core::ingest::{Batch, Logged, Prepared, Record, Replay, Replayed};
use kura_core::keys;
use kura_core::manifest::Superblock;
use kura_core::{DocId, Error};

/// What a record that holds a document says it is.
const KIND: u32 = 1;
const PAD: u32 = 0;

/// The bytes of a record that are not its payload.
const HEADER: usize = 28;

/// A segment as it was built, with the keys it was built under.
struct Held {
    contents: Contents,
    keys: Vec<(Vec<u8>, DocId)>,
}

/// A store with the bytes of its file and what its segments were built from.
struct Disk {
    store: Store,
    bytes: Vec<u8>,
    segments: Vec<Held>,
    syncs: u64,
}

fn put(bytes: &mut Vec<u8>, at: u64, written: &[u8]) {
    let end = at as usize + written.len();
    if bytes.len() < end {
        bytes.resize(end, 0);
    }
    bytes[at as usize..end].copy_from_slice(written);
}

/// The bytes a segment is written as: its key table.
fn laid_out(keys: &[(Vec<u8>, DocId)]) -> Vec<u8> {
    let mut writer = keys::Writer::new();
    for (key, doc) in keys {
        writer.push(key, *doc).expect("a key");
    }
    writer.finish().expect("a table")
}

fn fields(pairs: &[(&str, &[u8])]) -> Vec<Field> {
    pairs
        .iter()
        .map(|(name, value)| Field {
            name: (*name).to_string(),
            value: value.to_vec(),
        })
        .collect()
}

/// A document as the log holds it.
fn written(key: Option<&[u8]>, text: &str, fields: &[(&str, &[u8])]) -> Vec<u8> {
    let mut bytes = Vec::new();
    let mut piece = |piece: &[u8]| {
        bytes.extend_from_slice(&(piece.len() as u32).to_le_bytes());
        bytes.extend_from_slice(piece);
    };
    piece(&[u8::from(key.is_some())]);
    piece(key.unwrap_or_default());
    let terms = Analyzer::new().analyze(text);
    piece(&(terms.len() as u32).to_le_bytes());
    for term in &terms {
        piece(term);
    }
    for (name, value) in fields {
        piece(name.as_bytes());
        piece(value);
    }
    bytes
}

/// The document a payload of the log holds.
fn read(payload: &[u8]) -> Record {
    let mut pieces = Vec::new();
    let mut rest = payload;
    while !rest.is_empty() {
        let len = u32::from_le_bytes(rest[..4].try_into().expect("a length")) as usize;
        pieces.push(rest[4..4 + len].to_vec());
        rest = &rest[4 + len..];
    }
    let keyed = pieces[0] == [1];
    let terms = u32::from_le_bytes(pieces[2][..].try_into().expect("a count")) as usize;
    Record {
        key: keyed.then_some(pieces[1].clone()),
        terms: pieces[3..3 + terms].to_vec(),
        fields: pieces[3 + terms..]
            .chunks(2)
            .map(|pair| Field {
                name: String::from_utf8(pair[0].clone()).expect("a name"),
                value: pair[1].clone(),
            })
            .collect(),
    }
}

impl Disk {
    fn empty() -> Self {
        Self::with_log(1 << 20)
    }

    fn with_log(len: u64) -> Self {
        let superblock = Superblock {
            store: 1,
            created: 1_700_000_000,
            wal_offset: 4096,
            wal_len: len,
            segments_offset: 4096 + len,
        };
        Self {
            store: Store::create(superblock, 1_700_000_000),
            bytes: vec![0; superblock.segments_offset as usize],
            segments: Vec::new(),
            syncs: 0,
        }
    }

    fn view(&self) -> View<'_> {
        let view = self.store.view(&self.bytes, 0).expect("a view");
        let tables = (0..view.len()).map(|at| view.bytes(at)).collect();
        view.with_tables(tables)
    }

    /// How many documents each segment some deletions name hides now.
    fn before(&self, deletions: &[(usize, Bitmap)]) -> Vec<u64> {
        deletions
            .iter()
            .map(|&(at, _)| match self.store.manifest.segments.get(at) {
                Some(segment) => {
                    let start = segment.tombstones_offset as usize;
                    let end = start + segment.tombstones_len as usize;
                    committed_deletions(segment, &self.bytes[start..end]).expect("they decode")
                }
                None => 0,
            })
            .collect()
    }

    /// Writes what a commit writes, and commits it.
    fn land(&mut self, published: Published, built: Vec<Held>, at: u64) -> Result<u64, Error> {
        let first = self.store.manifest.segments.len();
        for (n, held) in built.iter().enumerate() {
            let offset = published.manifest.segments[first + n].offset;
            put(&mut self.bytes, offset, &laid_out(&held.keys));
        }
        for set in &published.tombstones {
            put(&mut self.bytes, set.segment.tombstones_offset, &set.bytes);
        }
        self.store.segments = published.end;
        self.segments.extend(built);
        self.syncs += u64::from(published.wrote);
        let next = self.store.commit(published.manifest, at)?;
        self.syncs += 1;
        Ok(self.store.committed(next))
    }

    fn commit(&mut self, prepared: Prepared, created: u64, at: u64) -> Result<u64, Error> {
        let len = laid_out(&prepared.keys).len() as u64;
        let before = self.before(&prepared.deletions);
        let published = prepared.commit(&self.store, len, created, &before)?;
        let built = match prepared.segment {
            Some((contents, _)) => vec![Held {
                contents,
                keys: prepared.keys,
            }],
            None => Vec::new(),
        };
        self.land(published, built, at)
    }

    /// Commits several batches at once.
    fn group(&mut self, parts: Vec<Prepared>, created: u64, at: u64) -> Result<u64, Error> {
        let lens: Vec<u64> = parts
            .iter()
            .map(|part| laid_out(&part.keys).len() as u64)
            .collect();
        let grouped = commit_all(&self.store, &parts, &lens)?;
        let before = self.before(&grouped.deletions);
        let published =
            self.store
                .publish_all(&grouped.segments, created, &grouped.deletions, &before)?;
        let built = parts
            .into_iter()
            .filter_map(|part| {
                let keys = part.keys;
                part.segment.map(|(contents, _)| Held { contents, keys })
            })
            .collect();
        self.land(published, built, at)
    }

    /// Writes the documents into the store as one batch, keyed.
    fn write(&mut self, documents: &[(&[u8], &str)]) -> u64 {
        let prepared = self.prepare(documents);
        self.commit(prepared, 1_700_000_001, 1).expect("committed")
    }

    /// Builds a batch against the store as it stands and stops short of committing
    /// it, which is what a writer waiting for a group holds.
    fn prepare(&self, documents: &[(&[u8], &str)]) -> Prepared {
        let view = self.view();
        let mut batch = Batch::over(&view).expect("a batch");
        for (key, text) in documents {
            assert!(batch.has_room(&Analyzer::new().analyze(text)));
            batch.add_keyed(key, text).expect("a document");
        }
        batch.finish().expect("prepared")
    }

    fn delete(&mut self, at: usize, deleted: &Bitmap) {
        let before = self.before(&[(at, deleted.clone())]);
        let (manifest, set) = self
            .store
            .delete(at, deleted, before[0])
            .expect("it can be deleted");
        put(&mut self.bytes, set.segment.tombstones_offset, &set.bytes);
        self.store.segments = set.end;
        let next = self.store.commit(manifest, 2).expect("committed");
        self.store.committed(next);
    }

    /// How many live documents of a view hold a word.
    fn count_in(&self, view: &View<'_>, word: &str) -> u64 {
        let mut found = 0;
        for at in 0..view.len() {
            let deleted = view.deleted(at).expect("the deletions decode");
            let postings = self.segments[at].contents.postings(word.as_bytes());
            for (doc, _) in postings.into_iter().flatten() {
                if !deleted.as_ref().is_some_and(|set| set.contains(*doc)) {
                    found += 1;
                }
            }
        }
        found
    }

    fn count(&self, word: &str) -> u64 {
        self.count_in(&self.view(), word)
    }

    fn reopened(self) -> Self {
        let store = Store::open(
            self.store.superblock,
            self.store.manifest,
            self.store.slot,
            self.bytes.len() as u64,
        )
        .expect("a store");
        Self { store, ..self }
    }

    /// Appends a record to the log, or says that it is full.
    fn append(&mut self, kind: u32, payload: &[u8]) -> Result<(), Error> {
        append(&mut self.store, &mut self.bytes, kind, payload)
    }

    /// Fills a logged batch and hands it back with the store as the log left it.
    fn logged(&mut self, documents: &[(&[u8], &str)]) -> (Prepared, u64) {
        let bytes = self.bytes.clone();
        let view = self.store.view(&bytes, 0).expect("a view");
        let tables = (0..view.len()).map(|at| view.bytes(at)).collect();
        let view = view.with_tables(tables);
        let mut batch = Logged::over(&view).expect("a batch");
        for (key, text) in documents {
            batch.add_keyed(key, text).expect("added");
            let payload = written(Some(key), text, &[]);
            let appended = append(&mut self.store, &mut self.bytes, KIND, &payload);
            batch.appended.note(payload.len(), appended).expect("noted");
        }
        let pending = batch.finish(&self.store).expect("finished");
        (pending.prepared, pending.through)
    }

    /// Fills a logged batch and drops it, which is the machine stopping with a
    /// batch half full.
    fn stopped(&mut self, documents: &[(&[u8], &str)]) {
        self.logged(documents);
    }

    /// What the log holds, oldest first, and where a recovery leaves it.
    fn recover(&mut self) -> Vec<(u32, u64, Vec<u8>)> {
        let mut found = Vec::new();
        let mut walk = Walk::new(&self.store.superblock, &self.store.manifest, HEADER as u64);
        while let Aim::Read { at, len } = walk.aim() {
            let window = &self.bytes[at as usize..(at + len) as usize];
            while let Look::Record { start, end } = walk.look(window).expect("looked") {
                let record = decoded(&window[start as usize..end as usize], walk.position());
                let seen = record.as_ref().map(|(kind, sequence, payload)| Seen {
                    pad: *kind == PAD,
                    sequence: *sequence,
                    payload: payload.len() as u64,
                });
                if walk.seen(end - start, seen) {
                    let (kind, _, payload) = record.expect("a record to apply");
                    found.push((kind, walk.position(), payload));
                }
            }
        }
        self.store.recovered(&walk.finish()).expect("positioned");
        found
    }

    /// The keys of the records in the log.
    fn replayable(&mut self) -> Vec<Vec<u8>> {
        self.recover()
            .iter()
            .map(|(kind, _, payload)| {
                assert_eq!(*kind, KIND, "a record of another kind");
                read(payload).key.expect("a keyed document")
            })
            .collect()
    }

    /// Puts back what the log holds.
    fn replay(&mut self, created: u64, at: u64) -> Result<Replayed, Error> {
        let found = self.recover();
        let walked = kura_core::file::walk::Walked {
            records: found.len() as u64,
            bytes: found.iter().map(|(_, _, payload)| payload.len() as u64).sum(),
            position: self.store.log.tail,
            sequence: self.store.log.sequence,
        };
        let bytes = self.bytes.clone();
        let view = self.store.view(&bytes, 0).expect("a view");
        let tables = (0..view.len()).map(|at| view.bytes(at)).collect();
        let view = view.with_tables(tables);
        let mut replay = Replay::over(&view, KIND).expect("a replay");
        for (kind, position, payload) in found {
            let held = if kind == KIND {
                Ok(read(&payload))
            } else {
                Err(Error::BadMagic)
            };
            replay.apply(kind, position, held);
        }
        let through = self.store.log.tail;
        match replay.finish(&walked)? {
            None => Ok(Replayed::default()),
            Some((prepared, replayed)) => {
                self.store.truncate_log(through)?;
                let epoch = self.commit(prepared, created, at)?;
                Ok(Replayed {
                    epoch: Some(epoch),
                    ..replayed
                })
            }
        }
    }
}

/// The bytes of a record, with a sum over them at the end.
fn encoded(kind: u32, sequence: u64, payload: &[u8], span: u64, at: u64) -> Vec<u8> {
    let mut bytes = Vec::new();
    bytes.extend_from_slice(&(span as u32).to_le_bytes());
    bytes.extend_from_slice(&kind.to_le_bytes());
    bytes.extend_from_slice(&sequence.to_le_bytes());
    bytes.extend_from_slice(&at.to_le_bytes());
    bytes.extend_from_slice(payload);
    let sum = kura_core::checksum::crc32(&bytes);
    bytes.extend_from_slice(&sum.to_le_bytes());
    bytes
}

fn decoded(bytes: &[u8], at: u64) -> Option<(u32, u64, Vec<u8>)> {
    if bytes.len() < HEADER {
        return None;
    }
    let word = |from: usize| u32::from_le_bytes(bytes[from..from + 4].try_into().unwrap());
    let long = |from: usize| u64::from_le_bytes(bytes[from..from + 8].try_into().unwrap());
    let kind = word(4);
    let end = if kind == PAD { 24 } else { bytes.len() - 4 };
    if kura_core::checksum::crc32(&bytes[..end]) != word(end) || long(16) != at {
        return None;
    }
    Some((kind, long(8), bytes[24..end].to_vec()))
}

fn append(store: &mut Store, bytes: &mut Vec<u8>, kind: u32, payload: &[u8]) -> Result<(), Error> {
    let Log {
        head,
        mut tail,
        sequence,
    } = store.log;
    let len = store.superblock.wal_len;
    let base = store.superblock.wal_offset;
    let span = (HEADER + payload.len()) as u64;
    let lap = len - tail % len;
    let mut pad = None;
    if lap < span {
        pad = (lap >= HEADER as u64).then_some(tail);
        tail += lap;
    }
    let Ok(log) = Log::new(len, head, tail + span, sequence + 1) else {
        return Err(Error::LogFull {
            needed: span,
            free: head + len - store.log.tail,
        });
    };
    if let Some(at) = pad {
        put(bytes, base + at % len, &encoded(PAD, sequence, &[], lap, at));
    }
    put(bytes, base + tail % len, &encoded(kind, sequence, payload, span, tail));
    store.log = log;
    Ok(())
}

#[test]
fn a_document_under_a_key_the_store_already_holds_replaces_it() {
    let mut disk = Disk::empty();
    disk.write(&[(b"a", "the first quarter ledger")]);
    disk.write(&[(b"a", "the second quarter ledger")]);

    assert_eq!(disk.count("ledger"), 1);
    assert_eq!(disk.count("second"), 1);
    assert_eq!(disk.count("first"), 0);
    assert_eq!(disk.store.manifest().live, 1);
    assert_eq!(disk.store.manifest().total, 2);
}

#[test]
fn a_key_the_store_does_not_hold_is_simply_added() {
    let mut disk = Disk::empty();
    disk.write(&[(b"a", "the first ledger")]);
    disk.write(&[(b"b", "the second ledger")]);

    assert_eq!(disk.count("ledger"), 2);
    assert_eq!(disk.store.manifest().live, 2);
}

#[test]
fn a_batch_that_writes_the_same_key_twice_leaves_the_later_document() {
    let mut disk = Disk::empty();
    let view = disk.view();
    let mut batch = Batch::over(&view).expect("a batch");
    batch.add_keyed(b"a", "the first ledger").expect("added");
    batch.add_keyed(b"a", "the second ledger").expect("added");
    batch.add_keyed(b"a", "the third ledger").expect("added");
    assert_eq!(batch.len(), 3);
    assert_eq!(batch.replacements(), 2);
    let prepared = batch.finish().expect("prepared");
    disk.commit(prepared, 1, 1).expect("committed");

    assert_eq!(disk.count("ledger"), 1);
    assert_eq!(disk.count("third"), 1);
    assert_eq!(disk.count("first"), 0);
    assert_eq!(disk.count("second"), 0);
    assert_eq!(disk.store.manifest().live, 1);
}

#[test]
fn a_key_the_store_holds_and_the_batch_writes_twice_replaces_two_documents() {
    // The copy in the store and the earlier copy in the batch, which is two
    // documents and not three. Counting the store's copy once a document would say
    // a commit deletes more than it deletes, and the count is what a run reports as
    // replaced.
    let mut disk = Disk::empty();
    disk.write(&[(b"a", "the first ledger")]);

    let view = disk.view();
    let mut batch = Batch::over(&view).expect("a batch");
    batch.add_keyed(b"a", "the second ledger").expect("added");
    batch.add_keyed(b"a", "the third ledger").expect("added");
    assert_eq!(batch.len(), 2);
    assert_eq!(batch.replacements(), 2);
    let prepared = batch.finish().expect("prepared");
    disk.commit(prepared, 1, 1).expect("committed");

    assert_eq!(disk.count("ledger"), 1);
    assert_eq!(disk.count("third"), 1);
    assert_eq!(disk.store.manifest().live, 1);
    assert_eq!(disk.store.manifest().total, 3);
}

#[test]
fn a_batch_replaces_documents_in_several_segments_in_one_commit() {
    let mut disk = Disk::empty();
    disk.write(&[(b"a", "the first ledger")]);
    disk.write(&[(b"b", "the second ledger")]);
    disk.write(&[(b"c", "the third ledger")]);
    let epoch = disk.store.manifest().epoch;

    disk.write(&[(b"a", "the fourth ledger"), (b"c", "the fifth ledger")]);
    assert_eq!(disk.store.manifest().epoch, epoch + 1);
    assert_eq!(disk.count("ledger"), 3);
    assert_eq!(disk.count("fourth"), 1);
    assert_eq!(disk.count("fifth"), 1);
    assert_eq!(disk.count("second"), 1);
    assert_eq!(disk.count("first"), 0);
    assert_eq!(disk.count("third"), 0);
}

#[test]
fn a_document_with_no_key_replaces_nothing() {
    let mut disk = Disk::empty();
    let view = disk.view();
    let mut batch = Batch::over(&view).expect("a batch");
    batch.add("the first ledger").expect("added");
    batch.add("the first ledger").expect("added");
    assert_eq!(batch.replacements(), 0);
    let prepared = batch.finish().expect("prepared");
    disk.commit(prepared, 1, 1).expect("committed");

    assert_eq!(disk.count("ledger"), 2);
}

#[test]
fn what_a_batch_replaced_is_still_replaced_when_the_store_is_opened_again() {
    let mut disk = Disk::empty();
    disk.write(&[(b"a", "the first ledger")]);
    disk.write(&[(b"a", "the second ledger")]);

    let disk = disk.reopened();
    assert_eq!(disk.store.manifest().live, 1);
    assert_eq!(disk.count("second"), 1);
    assert_eq!(disk.count("first"), 0);
}

#[test]
fn a_batch_that_is_dropped_leaves_the_store_alone() {
    let mut disk = Disk::empty();
    disk.write(&[(b"a", "the first ledger")]);
    let epoch = disk.store.manifest().epoch;

    {
        let view = disk.view();
        let mut batch = Batch::over(&view).expect("a batch");
        batch.add_keyed(b"a", "the second ledger").expect("added");
        assert_eq!(batch.replacements(), 1);
    }

    assert_eq!(disk.store.manifest().epoch, epoch);
    assert_eq!(disk.count("first"), 1);
    assert_eq!(disk.count("second"), 0);
}

#[test]
fn a_batch_built_on_a_view_the_store_has_moved_past_is_refused() {
    // Two batches replacing the same document. The second one worked out what to
    // delete before the first one committed, and its set says nothing about what
    // the first one deleted, so committing it would put that document back.
    let mut disk = Disk::empty();
    disk.write(&[(b"a", "the first ledger")]);

    let prepared = disk.prepare(&[(b"a", "the second ledger")]);
    disk.write(&[(b"a", "the third ledger")]);
    let outcome = disk.commit(prepared, 1, 1);
    assert_eq!(
        outcome,
        Err(Error::StaleView {
            read: 2,
            committed: 3
        })
    );
    assert_eq!(disk.count("ledger"), 1);
    assert_eq!(disk.count("third"), 1);
    assert_eq!(disk.count("second"), 0);
}

#[test]
fn a_replacement_leaves_what_was_already_deleted_from_that_segment_deleted() {
    // The set of deletions a batch commits is the whole answer for its segment, so
    // it has to carry what the segment already hid. Getting this wrong brings a
    // deleted document back, which is the failure this whole shape exists to avoid.
    let mut disk = Disk::empty();
    disk.write(&[
        (b"a", "the first ledger"),
        (b"b", "the second ledger"),
        (b"c", "the third ledger"),
    ]);
    let doc = {
        let view = disk.view();
        let lookup = view.lookup().expect("a lookup");
        lookup.document(b"b").expect("a hit").1
    };
    disk.delete(0, &Bitmap::from_sorted(&[doc]));
    assert_eq!(disk.count("ledger"), 2);

    disk.write(&[(b"a", "the fourth ledger")]);
    assert_eq!(disk.count("ledger"), 2);
    assert_eq!(disk.count("second"), 0);
    assert_eq!(disk.count("fourth"), 1);
    assert_eq!(disk.count("third"), 1);
    assert_eq!(disk.store.manifest().live, 2);
}

#[test]
fn a_batch_of_nothing_commits_nothing_but_still_commits() {
    let mut disk = Disk::empty();
    let epoch = disk.store.manifest().epoch;
    let view = disk.view();
    let batch = Batch::over(&view).expect("a batch");
    assert!(batch.is_empty());
    let prepared = batch.finish().expect("prepared");
    assert!(prepared.segment.is_none());
    assert!(prepared.deletions.is_empty());
    disk.commit(prepared, 1, 1).expect("committed");

    assert_eq!(disk.store.manifest().epoch, epoch + 1);
    assert_eq!(disk.store.manifest().segments.len(), 0);
}

#[test]
fn a_view_taken_before_a_replacement_still_answers_with_the_old_document() {
    let mut disk = Disk::empty();
    disk.write(&[(b"a", "the first ledger")]);
    let was = Store::open(
        disk.store.superblock,
        disk.store.manifest.copy(),
        disk.store.slot,
        disk.bytes.len() as u64,
    )
    .expect("a store");

    disk.write(&[(b"a", "the second ledger")]);

    let before = was.view(&disk.bytes, 0).expect("a view");
    assert_eq!(disk.count_in(&before, "ledger"), 1);
    assert_eq!(disk.count_in(&before, "first"), 1);
    assert_eq!(disk.count("second"), 1);
    assert_eq!(disk.count("first"), 0);
}

/// The documents a logged batch is fed in these tests.
const CORPUS: [(&[u8], &str); 4] = [
    (b"a", "the first quarter ledger"),
    (b"b", "the second quarter ledger"),
    (b"c", "notes on the ledger and the quarter it covers"),
    (b"d", "nothing to do with any of the others"),
];

#[test]
fn what_a_logged_batch_takes_is_in_the_log_before_it_commits() {
    let mut disk = Disk::empty();
    let before = disk.store.manifest().epoch;
    let bytes = disk.bytes.clone();
    let view = disk.store.view(&bytes, 0).expect("a view");
    let mut batch = Logged::over(&view).expect("a batch");
    for (key, text) in CORPUS {
        batch.add_keyed(key, text).expect("added");
        let payload = written(Some(key), text, &[]);
        let appended = disk.append(KIND, &payload);
        batch.appended.note(payload.len(), appended).expect("noted");
    }
    assert_eq!(batch.records(), 4);
    assert_eq!(batch.unlogged(), 0);
    assert!(batch.logged() > 0);
    assert_eq!(batch.len(), 4);
    assert!(!batch.is_empty());
    assert!(!batch.is_full());
    // Dropped rather than committed, which is the machine stopping with a batch
    // half full.
    drop(batch);

    assert_eq!(disk.store.manifest().epoch, before, "nothing was committed");
    assert_eq!(disk.count("ledger"), 0, "and nothing is searchable");
    assert_eq!(disk.replayable(), vec![b"a", b"b", b"c", b"d"]);
}

#[test]
fn a_commit_leaves_the_log_with_nothing_to_replay() {
    let mut disk = Disk::empty();
    let (prepared, through) = disk.logged(&CORPUS);
    disk.store.truncate_log(through).expect("freed");
    disk.commit(prepared, 1_700_000_001, 1).expect("committed");

    assert_eq!(disk.count("ledger"), 3);
    assert_eq!(disk.store.manifest().live, 4);
    assert!(disk.replayable().is_empty(), "the log was freed");
    // And the freed position is in the manifest rather than only in memory, which
    // is what stops a reopened store from applying the batch again.
    let disk = disk.reopened();
    let manifest = disk.store.manifest();
    assert_eq!(manifest.wal_head, manifest.wal_tail);
}

#[test]
fn a_logged_batch_writes_the_segment_an_ordinary_batch_writes() {
    // The log is not allowed to change what is indexed.
    let mut one = Disk::empty();
    one.write(&CORPUS);
    let mut two = Disk::empty();
    let (prepared, through) = two.logged(&CORPUS);
    two.store.truncate_log(through).expect("freed");
    two.commit(prepared, 1_700_000_001, 1).expect("committed");

    same(&one, &two);
}

/// The first segments of two stores are the same one.
fn same(one: &Disk, two: &Disk) {
    assert_eq!(one.view().bytes(0), two.view().bytes(0));
    let left = &one.segments[0].contents;
    let right = &two.segments[0].contents;
    assert_eq!(left.norms, right.norms);
    assert_eq!(left.entries.len(), right.entries.len());
    for (a, b) in left.entries.iter().zip(&right.entries) {
        assert_eq!(a.term, b.term);
        assert_eq!(a.postings, b.postings);
    }
}

#[test]
fn a_batch_the_log_has_no_room_for_says_it_is_full() {
    // A ring of one page, which a handful of documents fills.
    let mut disk = Disk::with_log(4096);
    let bytes = disk.bytes.clone();
    let view = disk.store.view(&bytes, 0).expect("a view");
    let mut batch = Logged::over(&view).expect("a batch");
    let mut added = 0;
    while !batch.is_full() && added < 500 {
        let key = format!("record-{added:04}");
        let text = "the quarter ledger and its notes";
        batch
            .add_keyed(key.as_bytes(), text)
            .expect("a document the log has no room for still goes in");
        let payload = written(Some(key.as_bytes()), text, &[]);
        let appended = disk.append(KIND, &payload);
        batch.appended.note(payload.len(), appended).expect("noted");
        added += 1;
    }

    assert!(
        batch.is_full(),
        "the log filled and the batch never said so"
    );
    assert_eq!(batch.unlogged(), 1, "it should stop at the first refusal");
    assert_eq!(batch.len(), added, "every document is in the segment");
    let pending = batch.finish(&disk.store).expect("finished");
    assert_eq!(pending.documents() as usize, added);
    disk.store.truncate_log(pending.through).expect("freed");
    disk.commit(pending.prepared, 1_700_000_001, 1).expect("committed");

    // The commit is what makes them durable, and it holds all of them including the
    // one the log had no room for.
    assert_eq!(disk.store.manifest().live, added as u64);
    assert_eq!(disk.count("ledger"), added as u64);
}

#[test]
fn an_append_that_failed_otherwise_is_reported() {
    let disk = Disk::empty();
    let view = disk.view();
    let mut batch = Logged::over(&view).expect("a batch");
    batch.add("the ledger").expect("added");
    let noted = batch.appended.note(9, Err(Error::Overflow));
    assert_eq!(noted, Err(Error::Overflow));
    assert_eq!(batch.records(), 0);
    assert_eq!(batch.unlogged(), 0);
    assert_eq!(batch.logged(), 0);
}

#[test]
fn a_logged_batch_replaces_what_the_store_holds_under_the_same_key() {
    let mut disk = Disk::empty();
    disk.write(&[(b"a", "the first quarter ledger")]);

    let bytes = disk.bytes.clone();
    let view = disk.store.view(&bytes, 0).expect("a view");
    let tables = vec![view.bytes(0)];
    let view = view.with_tables(tables);
    let mut batch = Logged::over(&view).expect("a batch");
    batch
        .add_keyed(b"a", "the second quarter ledger")
        .expect("added");
    assert_eq!(batch.replacements(), 1);
    let pending = batch.finish(&disk.store).expect("finished");
    disk.commit(pending.prepared, 1_700_000_002, 2).expect("committed");

    assert_eq!(disk.count("ledger"), 1);
    assert_eq!(disk.count("second"), 1);
    assert_eq!(disk.count("first"), 0);
}

#[test]
fn a_logged_document_keeps_the_fields_it_was_given() {
    let mut disk = Disk::empty();
    let given: [(&str, &[u8]); 1] = [("path", b"docs/a.md")];
    {
        let view = disk.view();
        let mut batch = Logged::over(&view).expect("a batch");
        batch
            .add_keyed_with_fields(b"a", "the quarter ledger", fields(&given))
            .expect("added");
        batch
            .add_with_fields("another", fields(&given))
            .expect("added");
        let pending = batch.finish(&disk.store).expect("finished");
        let (contents, docs) = pending.prepared.segment.expect("a segment");
        assert_eq!(docs, 2);
        let stored = contents.fields.expect("stored");
        assert_eq!(stored[0][0].name, "path");
        assert_eq!(stored[1][0].value, b"docs/a.md");
    }
    let payload = written(Some(b"a"), "the quarter ledger", &given);
    disk.append(KIND, &payload).expect("appended");

    // Out of the log rather than out of the segment, because the segment is the
    // part that was not written.
    let mut seen = Vec::new();
    for (_, _, payload) in disk.recover() {
        for field in read(&payload).fields {
            seen.push((field.name, field.value));
        }
    }
    assert_eq!(seen, vec![("path".to_string(), b"docs/a.md".to_vec())]);
}

#[test]
fn a_store_that_stopped_comes_back_with_the_documents_its_log_holds() {
    let mut disk = Disk::empty();
    disk.stopped(&CORPUS);

    let mut disk = disk.reopened();
    assert_eq!(disk.count("ledger"), 0, "before the replay, nothing");
    let put_back = disk.replay(1_700_000_001, 1).expect("the replay finishes");

    assert_eq!(put_back.records, 4);
    assert_eq!(put_back.documents, 4);
    assert_eq!(put_back.replacements, 0);
    assert!(put_back.bytes > 0);
    assert!(
        put_back.epoch.is_some(),
        "a replay that put documents back committed them"
    );
    assert_eq!(disk.store.manifest().live, 4);
    assert_eq!(disk.count("ledger"), 3);
}

#[test]
fn a_replay_leaves_a_log_with_nothing_left_to_replay() {
    let mut disk = Disk::empty();
    disk.stopped(&CORPUS);

    let mut disk = disk.reopened();
    disk.replay(1_700_000_001, 1).expect("the replay finishes");

    // Reopened rather than replayed again in place, because the freed head has to
    // be in the manifest and not only in memory. A second replay that found the
    // same records would put every document in twice.
    let mut disk = disk.reopened();
    let again = disk.replay(1_700_000_002, 2).expect("the replay finishes");
    assert!(again.is_empty(), "the log was freed by the first replay");
    assert_eq!(again.epoch, None, "and nothing was committed for it");
    assert_eq!(disk.store.manifest().live, 4);
    assert_eq!(disk.count("ledger"), 3);
}

#[test]
fn a_replay_of_a_store_that_was_closed_cleanly_does_nothing() {
    let mut disk = Disk::empty();
    disk.write(&CORPUS);
    let before = disk.store.manifest().epoch;

    let mut disk = disk.reopened();
    let put_back = disk.replay(1_700_000_002, 2).expect("the replay finishes");
    assert!(put_back.is_empty());
    assert_eq!(
        disk.store.manifest().epoch,
        before,
        "a replay with nothing to do commits nothing"
    );
}

#[test]
fn a_replayed_document_replaces_what_the_store_holds_under_its_key() {
    let mut disk = Disk::empty();
    disk.write(&[(b"a", "the first quarter ledger")]);
    disk.stopped(&[(b"a", "the second quarter ledger")]);

    let mut disk = disk.reopened();
    let put_back = disk.replay(1_700_000_002, 2).expect("the replay finishes");

    assert_eq!(put_back.documents, 1);
    assert_eq!(put_back.replacements, 1, "the older copy went with it");
    assert_eq!(disk.count("ledger"), 1);
    assert_eq!(disk.count("second"), 1);
    assert_eq!(disk.count("first"), 0);
}

#[test]
fn a_replay_writes_the_segment_the_batch_would_have_committed() {
    // The claim the whole thing rests on. A store that was interrupted and replayed
    // has to be the store that committed, or the log is a different index that
    // happens to hold the same documents.
    let mut one = Disk::empty();
    let (prepared, through) = one.logged(&CORPUS);
    one.store.truncate_log(through).expect("freed");
    one.commit(prepared, 1_700_000_001, 1).expect("committed");

    let mut two = Disk::empty();
    two.stopped(&CORPUS);
    let mut two = two.reopened();
    two.replay(1_700_000_001, 1).expect("the replay finishes");

    same(&one, &two);
}

#[test]
fn a_record_this_build_cannot_apply_stops_the_replay_rather_than_being_skipped() {
    let mut disk = Disk::empty();
    let before = disk.store.manifest().epoch;
    disk.append(4242, b"a record from a build that came later")
        .expect("appended");

    let mut disk = disk.reopened();
    let refused = disk.replay(1_700_000_001, 1);
    assert!(
        matches!(refused, Err(Error::UnknownRecord { kind: 4242, .. })),
        "a replay that skipped it would lose a write the store promised"
    );
    assert_eq!(
        disk.store.manifest().epoch,
        before,
        "and it leaves the store where it was"
    );
}

#[test]
fn the_first_trouble_of_a_replay_is_the_one_it_reports() {
    let disk = Disk::empty();
    let view = disk.view();
    let mut replay = Replay::over(&view, KIND).expect("a replay");
    assert!(replay.has_room(&vec![b"ledger".to_vec()]));
    replay.apply(KIND, 1, Ok(read(&written(None, "the ledger", &[]))));
    replay.apply(KIND, 2, Err(Error::Overflow));
    replay.apply(9, 3, Err(Error::BadMagic));
    let walked = kura_core::file::walk::Walked {
        records: 3,
        ..kura_core::file::walk::Walked::default()
    };
    assert_eq!(replay.finish(&walked).err(), Some(Error::Overflow));
}

#[test]
fn a_log_torn_at_any_page_boundary_gives_back_what_was_promised() {
    // The fault matrix. Every 4 KiB boundary in the window that was written since
    // the last commit is a place a machine can stop, so the store is torn at each
    // of them in turn and opened. What a commit returned for is there every time,
    // and what was only logged comes back as far as the tear and no further.
    let keys: Vec<String> = (0..200).map(|n| format!("pending-{n:04}")).collect();
    let pending: Vec<(&[u8], &str)> = keys
        .iter()
        .map(|key| (key.as_bytes(), "a pending quarter ledger entry"))
        .collect();
    let filled = || {
        let mut disk = Disk::with_log(1 << 20);
        disk.write(&[(b"audited", "the audited quarter ledger")]);
        disk.stopped(&pending);
        disk
    };
    let source = filled();
    let base = source.store.superblock().wal_offset;
    let head = source.store.manifest().wal_head;
    let tail = source.store.log().tail;
    assert!(
        tail >= head + 3 * 4096,
        "the window is {} bytes, which is not enough boundaries to be a matrix",
        tail - head
    );

    let mut cuts: Vec<u64> = (head..tail).step_by(4096).collect();
    cuts.push(tail);
    let mut before = 0;
    for cut in cuts {
        let mut disk = filled();
        for at in cut..tail {
            disk.bytes[(base + at) as usize] = 0;
        }
        let mut disk = disk.reopened();
        let put_back = disk.replay(1_700_000_002, 2).expect("the replay finishes");
        let recovered = put_back.documents as usize;

        assert_eq!(
            disk.count("audited"),
            1,
            "the committed document survived a tear at {cut}"
        );
        assert!(
            recovered <= keys.len(),
            "a tear at {cut} put back {recovered} documents out of {}",
            keys.len()
        );
        assert!(
            recovered >= before,
            "a tear at {cut} put back {recovered} where a tear before it put back {before}"
        );
        // A prefix and not a subset. The records are in the log in the order they
        // were written, so a tear takes the end of that order off and cannot take a
        // document out of the middle.
        let view = disk.view();
        for (at, key) in keys.iter().enumerate() {
            let found = view
                .document(key.as_bytes())
                .expect("the key index reads")
                .is_some();
            assert_eq!(
                found,
                at < recovered,
                "document {at} after a tear at {cut} that put back {recovered}"
            );
        }
        before = recovered;
    }
    assert_eq!(before, keys.len(), "an untorn log gives everything back");
}

#[test]
fn batches_committed_as_a_group_are_all_in_the_store_at_the_same_epoch() {
    let mut disk = Disk::empty();
    let was = disk.store.manifest().epoch;
    let group = vec![
        disk.prepare(&[(b"a", "the first quarter ledger")]),
        disk.prepare(&[(b"b", "the second quarter ledger")]),
        disk.prepare(&[(b"c", "the third quarter ledger")]),
    ];
    let epoch = disk.group(group, 1_700_000_001, 1).expect("committed");

    assert_eq!(epoch, was + 1, "a group is one commit");
    assert_eq!(disk.count("ledger"), 3);
    assert_eq!(disk.store.manifest().segments.len(), 3);
    assert_eq!(disk.store.manifest().live, 3);
}

#[test]
fn a_group_costs_the_syncs_one_commit_costs() {
    let mut disk = Disk::empty();
    let group: Vec<Prepared> = (0..8u8)
        .map(|n| disk.prepare(&[(&[n], "the quarter ledger")]))
        .collect();

    let before = disk.syncs;
    disk.group(group, 1_700_000_001, 1).expect("committed");
    let group_cost = disk.syncs - before;

    let before = disk.syncs;
    disk.write(&[(b"z", "one more ledger")]);
    let one_cost = disk.syncs - before;

    assert_eq!(one_cost, 2, "a commit is the data and then the manifest");
    assert_eq!(
        group_cost, one_cost,
        "eight commits in a group wait for the drive as often as one does"
    );
    assert_eq!(disk.count("ledger"), 9);
}

#[test]
fn a_key_two_batches_of_a_group_wrote_answers_with_the_later_one() {
    let mut disk = Disk::empty();
    let group = vec![
        disk.prepare(&[(b"a", "the first quarter ledger")]),
        disk.prepare(&[(b"a", "the second quarter ledger")]),
    ];
    disk.group(group, 1_700_000_001, 1).expect("committed");

    assert_eq!(disk.count("ledger"), 1, "one key is one document");
    assert_eq!(disk.count("second"), 1);
    assert_eq!(disk.count("first"), 0);
    assert_eq!(disk.store.manifest().live, 1);
    assert_eq!(disk.store.manifest().total, 2);
    assert_eq!(
        disk.view()
            .document(b"a")
            .expect("the key index reads")
            .map(|(at, _)| at),
        Some(1),
        "the key answers with the later batch"
    );
}

#[test]
fn two_batches_of_a_group_replacing_documents_in_one_segment_both_take_effect() {
    let mut disk = Disk::empty();
    disk.write(&[
        (b"a", "the first quarter ledger"),
        (b"b", "the second quarter ledger"),
    ]);
    let group = vec![
        disk.prepare(&[(b"a", "the first quarter report")]),
        disk.prepare(&[(b"b", "the second quarter report")]),
    ];
    disk.group(group, 1_700_000_002, 2).expect("committed");

    assert_eq!(disk.count("report"), 2);
    assert_eq!(disk.count("ledger"), 0, "both replacements are deleted");
    assert_eq!(disk.store.manifest().live, 2);
    assert_eq!(disk.store.manifest().total, 4);
}

#[test]
fn a_batch_prepared_before_a_commit_takes_the_whole_group_with_it() {
    let mut disk = Disk::empty();
    let stale = disk.prepare(&[(b"a", "the first quarter ledger")]);
    disk.write(&[(b"b", "the second quarter ledger")]);
    let fresh = disk.prepare(&[(b"c", "the third quarter ledger")]);

    let epoch = disk.store.manifest().epoch;
    let refused = disk.group(vec![stale, fresh], 1_700_000_002, 2);
    assert!(
        matches!(refused, Err(Error::StaleView { .. })),
        "a batch that read a store that has moved on is refused, and got {refused:?}"
    );
    assert_eq!(disk.store.manifest().epoch, epoch, "nothing was committed");
    assert_eq!(disk.count("ledger"), 1);
}

#[test]
fn a_batch_that_wrote_its_own_key_twice_keeps_its_own_answer_in_a_group() {
    let mut disk = Disk::empty();
    let group = vec![
        disk.prepare(&[(b"a", "the first quarter ledger")]),
        disk.prepare(&[
            (b"b", "the second quarter ledger"),
            (b"b", "the third quarter ledger"),
        ]),
    ];
    disk.group(group, 1_700_000_001, 1).expect("committed");

    assert_eq!(disk.count("ledger"), 2);
    assert_eq!(disk.count("second"), 0, "the copy it replaced itself");
    assert_eq!(disk.count("third"), 1);
    assert_eq!(disk.count("first"), 1);
    assert_eq!(disk.store.manifest().live, 2);
}

#[test]
fn a_group_of_nothing_leaves_the_store_where_it_was() {
    let mut disk = Disk::empty();
    disk.write(&[(b"a", "the first quarter ledger")]);
    let segments = disk.store.manifest().segments.len();
    let epoch = disk.store.manifest().epoch;

    disk.group(Vec::new(), 1_700_000_002, 2).expect("committed");

    assert_eq!(disk.store.manifest().segments.len(), segments);
    assert_eq!(disk.store.manifest().epoch, epoch + 1, "still a commit");
    assert_eq!(disk.count("ledger"), 1);
}

#[test]
fn a_document_that_is_offered_is_taken_where_there_is_room_for_it() {
    let mut disk = Disk::empty();
    disk.write(&[(b"a", "the first ledger")]);
    let view = disk.view();
    let mut batch = Batch::over(&view).expect("a batch");
    let given: [(&str, &[u8]); 1] = [("path", b"docs/a.md")];
    assert_eq!(batch.offer(None, "one", Vec::new()), Ok(Some(0)));
    assert_eq!(batch.offer(None, "two", fields(&given)), Ok(Some(1)));
    assert_eq!(batch.offer(Some(b"a"), "three", Vec::new()), Ok(Some(2)));
    assert_eq!(batch.offer(Some(b"a"), "four", fields(&given)), Ok(Some(3)));
    assert_eq!(batch.replacements(), 2);
    let prepared = batch.finish().expect("prepared");
    assert_eq!(prepared.deletions.len(), 2);
    assert_eq!(prepared.deletions[0].1, Bitmap::from_sorted(&[0]));
    assert_eq!(prepared.deletions[1].1, Bitmap::from_sorted(&[2]));
    assert_eq!(prepared.keys, [(b"a".to_vec(), 3)]);

    let mut logged = Logged::over(&view).expect("a batch");
    assert!(logged.has_room(&vec![b"one".to_vec()]));
    assert_eq!(logged.offer(None, "one", Vec::new()), Ok(Some(0)));
    assert_eq!(logged.offer(None, "two", fields(&given)), Ok(Some(1)));
    assert_eq!(logged.offer(Some(b"a"), "three", Vec::new()), Ok(Some(2)));
    assert_eq!(logged.offer(Some(b"a"), "four", fields(&given)), Ok(Some(3)));
    assert_eq!(logged.len(), 4);
    assert_eq!(logged.replacements(), 2);
}

#[test]
fn a_batch_that_names_a_segment_it_did_not_build_is_refused_in_a_group() {
    let disk = Disk::empty();
    let part = Prepared {
        segment: None,
        deletions: vec![(0, Bitmap::from_sorted(&[0]))],
        keys: Vec::new(),
        epoch: 1,
    };
    let refused = commit_all(&disk.store, &vec![part], &vec![0]);
    assert_eq!(refused.err(), Some(Error::MissingSection { kind: 0 }));
}

#[test]
fn a_pending_batch_frees_the_log_it_wrote_and_no_more() {
    let mut disk = Disk::empty();
    let bytes = disk.bytes.clone();
    let view = disk.store.view(&bytes, 0).expect("a view");
    let mut batch = Logged::over(&view).expect("a batch");
    batch.add_keyed(b"a", "the ledger").expect("added");
    let payload = written(Some(b"a"), "the ledger", &[]);
    let appended = disk.append(KIND, &payload);
    batch.appended.note(payload.len(), appended).expect("noted");
    let pending = batch.finish(&disk.store).expect("finished");
    let through = disk.store.log().tail;
    // Something else reaches the log before the commit.
    disk.append(KIND, &payload).expect("appended");

    let len = laid_out(&pending.prepared.keys).len() as u64;
    let published = pending
        .commit(&mut disk.store, len, 1, &Vec::new())
        .expect("published");
    assert_eq!(disk.store.log().head, through);
    assert!(disk.store.log().tail > through);
    let next = disk.store.commit(published.manifest, 2).expect("committed");
    assert_eq!(next.wal_head, through);

    let error = Logged::over(&disk.view())
        .expect("a batch")
        .finish(&Store::create(disk.store.superblock, 1))
        .expect("finished")
        .commit(&mut disk.store, 0, 1, &Vec::new())
        .err();
    assert_eq!(
        error,
        Some(Error::BadPositions {
            head: 0,
            tail: disk.store.log().tail
        })
    );
}

/// The document that each key names.
fn resolved(disk: &Disk, keys: &[&[u8]]) -> Vec<Option<(usize, DocId)>> {
    let view = disk.view();
    keys.iter()
        .map(|key| view.document(key).expect("the key index reads"))
        .collect()
}

#[test]
fn a_group_makes_the_store_its_batches_make_one_at_a_time() {
    let batches: [&[(&[u8], &str)]; 3] = [
        &[(b"a", "the first ledger"), (b"b", "the second ledger")],
        &[(b"b", "the second report"), (b"k", "a new report")],
        &[(b"k", "a newer report"), (b"a", "the first report")],
    ];
    let start: [(&[u8], &str); 2] = [(b"a", "an old ledger"), (b"z", "a kept ledger")];

    let mut grouped = Disk::empty();
    grouped.write(&start);
    let parts = batches.iter().map(|batch| grouped.prepare(batch)).collect();
    grouped.group(parts, 1_700_000_001, 1).expect("committed");
    let mut turns = Disk::empty();
    turns.write(&start);
    for batch in batches {
        turns.write(batch);
    }

    let keys: [&[u8]; 5] = [b"a", b"b", b"k", b"z", b"none"];
    assert_eq!(resolved(&grouped, &keys), resolved(&turns, &keys));
    let expected = [Some((3, 1)), Some((2, 0)), Some((3, 0)), Some((0, 1)), None];
    assert_eq!(resolved(&grouped, &keys), expected);
    for word in ["ledger", "report", "first", "second", "old", "kept", "newer"] {
        assert_eq!(grouped.count(word), turns.count(word), "{word}");
    }
    assert_eq!(grouped.store.manifest().live, turns.store.manifest().live);
    assert_eq!(grouped.store.manifest().total, turns.store.manifest().total);
    let (one, other) = (grouped.view(), turns.view());
    for at in 0..one.len() {
        let hidden = one.deleted(at).expect("the deletions decode");
        assert_eq!(hidden, other.deleted(at).expect("the deletions decode"));
    }
}

#[test]
fn the_copy_a_group_leaves_a_key_naming_is_not_deleted() {
    let mut disk = Disk::empty();
    disk.write(&[(b"a", "the first ledger")]);
    let group = vec![
        disk.prepare(&[(b"a", "the second ledger"), (b"a", "the third ledger")]),
        disk.prepare(&[(b"a", "the fourth ledger"), (b"a", "the last ledger")]),
    ];
    disk.group(group, 1_700_000_001, 1).expect("committed");
    assert_eq!(resolved(&disk, &[b"a"]), [Some((2, 1))]);
    let view = disk.view();
    let hidden = |at: usize| view.deleted(at).expect("decodes").map(|set| set.to_vec());
    assert_eq!(hidden(0), Some(vec![0]));
    assert_eq!(hidden(1), Some(vec![0, 1]));
    assert_eq!(hidden(2), Some(vec![0]));
}

#[test]
fn a_batch_still_has_room_after_a_document() {
    let disk = Disk::empty();
    let view = disk.view();
    let mut batch = Batch::over(&view).expect("a batch");
    let terms = Analyzer::new().analyze("one two three");
    for doc in 0..50 {
        assert!(batch.has_room(&terms));
        assert_eq!(batch.add("one two three"), Ok(doc));
    }
    assert!(batch.has_room(&terms));
}

#[test]
fn the_bytes_of_the_keys_of_a_batch_are_counted() {
    let disk = Disk::empty();
    let view = disk.view();
    let mut batch = Batch::over(&view).expect("a batch");
    assert_eq!(batch.key_bytes(), 0);
    batch.add("a document under no key").expect("added");
    assert_eq!(batch.key_bytes(), 0);
    batch.add_keyed(b"abc", "one").expect("added");
    batch.add_keyed(b"de", "two").expect("added");
    assert_eq!(batch.key_bytes(), 5);
}

#[test]
fn a_batch_that_stores_nothing_builds_no_fields() {
    let disk = Disk::empty();
    let view = disk.view();
    let mut batch = Batch::over(&view).expect("a batch");
    batch.add("one").expect("added");
    let (contents, _) = batch.finish().expect("prepared").segment.expect("a segment");
    assert!(contents.fields.is_none());

    let mut batch = Batch::over(&view).expect("a batch");
    batch.add("one").expect("added");
    batch.add_with_fields("two", fields(&[("n", b"2")])).expect("added");
    let (contents, _) = batch.finish().expect("prepared").segment.expect("a segment");
    assert_eq!(contents.fields.map(|held| held.len()), Some(2));
}

//! The rules of a store, over a file that is a vector.
use kura_core::bitmap::Bitmap;
use kura_core::compact::{merge, Indexed, Moved};
use kura_core::durability::Reach;
use kura_core::file::publish::{gather, Compacted, Opened};
use kura_core::file::view::View;
use kura_core::file::walk::Walked;
use kura_core::file::{committed_deletions, Fold, Log, Store};
use kura_core::index::{Field, Writer};
use kura_core::keys;
use kura_core::manifest::{Manifest, Segment, Slot, Superblock, PAGE};
use kura_core::segment;
use kura_core::{DocId, Error};

/// Where the first manifest slot is, which is before the segment region.
const SLOT_A_OFFSET: u64 = 4096;

/// A store identifier that is recognisable in a hex dump.
const STORE: u128 = 0x0123_4567_89ab_cdef_fedc_ba98_7654_3210;

const SUPERBLOCK: Superblock = Superblock {
    store: STORE,
    created: 1_700_000_000,
    wal_offset: 4 * 4096,
    wal_len: 29 * 4096,
    segments_offset: 33 * 4096,
};

/// A document, by its key and its text.
type Document = (Vec<u8>, String);

/// A store with the bytes of its file, and the documents each segment was built
/// from.
struct Disk {
    store: Store,
    bytes: Vec<u8>,
    segments: Vec<Vec<Document>>,
    /// How often the drive was asked for something.
    syncs: u64,
}

/// The key table of some documents, or nothing if none has a key.
fn table(documents: &[Document]) -> Option<Vec<u8>> {
    let mut keyed: Vec<(&[u8], DocId)> = documents
        .iter()
        .enumerate()
        .filter(|(_, document)| !document.0.is_empty())
        .map(|(doc, document)| (&document.0[..], doc as DocId))
        .collect();
    if keyed.is_empty() {
        return None;
    }
    keyed.sort();
    let mut writer = keys::Writer::new();
    for (key, doc) in keyed {
        writer.push(key, doc).expect("a key");
    }
    Some(writer.finish().expect("a table"))
}

/// The bytes a segment of some documents is written as: its key table, and a byte
/// for each document.
fn laid_out(documents: &[Document]) -> Vec<u8> {
    let mut bytes = table(documents).unwrap_or_default();
    bytes.resize(bytes.len() + documents.len(), 0x5a);
    bytes
}

fn plain(count: usize) -> Vec<Document> {
    (0..count).map(|n| (Vec::new(), format!("audit text{n}"))).collect()
}

fn key(n: usize) -> Vec<u8> {
    format!("record-{n:04}").into_bytes()
}

impl Disk {
    fn empty() -> Self {
        Self {
            store: Store::create(SUPERBLOCK, 1_700_000_000),
            bytes: vec![0; SUPERBLOCK.segments_offset as usize],
            segments: Vec::new(),
            syncs: 0,
        }
    }

    /// A store of segments of that many documents each.
    fn stored(parts: &[usize]) -> Self {
        let mut disk = Self::empty();
        let segments: Vec<Vec<Document>> = parts.iter().map(|&n| plain(n)).collect();
        disk.publish_all(segments, &[]).expect("published");
        disk
    }

    /// The same, with a key on every document.
    fn keyed(parts: &[usize]) -> Self {
        let mut disk = Self::empty();
        let mut next = 0;
        let segments = parts
            .iter()
            .map(|&n| {
                let from = next;
                next += n;
                (from..next).map(|n| (key(n), format!("audit text{n}"))).collect()
            })
            .collect();
        disk.publish_all(segments, &[]).expect("published");
        disk
    }

    fn put(&mut self, offset: u64, bytes: &[u8]) {
        let end = offset as usize + bytes.len();
        if self.bytes.len() < end {
            self.bytes.resize(end, 0);
        }
        self.bytes[offset as usize..end].copy_from_slice(bytes);
    }

    /// How many documents a segment hides now.
    fn hidden(&self, at: usize) -> u64 {
        let Some(segment) = self.store.manifest.segments.get(at) else {
            return 0;
        };
        let start = segment.tombstones_offset as usize;
        let end = start + segment.tombstones_len as usize;
        committed_deletions(segment, &self.bytes[start..end]).expect("the deletions decode")
    }

    fn commit(&mut self, manifest: Manifest, written: u64) -> Result<u64, Error> {
        let next = self.store.commit(manifest, written)?;
        self.syncs += 1;
        Ok(self.store.committed(next))
    }

    fn publish_all(
        &mut self,
        documents: Vec<Vec<Document>>,
        deletions: &[(usize, Bitmap)],
    ) -> Result<u64, Error> {
        let laid: Vec<Vec<u8>> = documents.iter().map(|d| laid_out(d)).collect();
        let segments: Vec<(u32, u64)> = documents
            .iter()
            .zip(&laid)
            .map(|(d, bytes)| (d.len() as u32, bytes.len() as u64))
            .collect();
        let before: Vec<u64> = deletions.iter().map(|&(at, _)| self.hidden(at)).collect();
        let published =
            self.store
                .publish_all(&segments, 1_700_000_100, &deletions.to_vec(), &before)?;
        let first = self.store.manifest.segments.len();
        for (n, bytes) in laid.iter().enumerate() {
            self.put(published.manifest.segments[first + n].offset, bytes);
        }
        for set in &published.tombstones {
            self.put(set.segment.tombstones_offset, &set.bytes);
        }
        self.store.segments = published.end;
        self.syncs += u64::from(published.wrote);
        self.segments.extend(documents);
        self.commit(published.manifest, 7)
    }

    fn publish(
        &mut self,
        documents: Option<Vec<Document>>,
        deletions: &[(usize, Bitmap)],
    ) -> Result<u64, Error> {
        self.publish_all(documents.into_iter().collect(), deletions)
    }

    fn delete(&mut self, at: usize, deleted: &Bitmap, written: u64) -> Result<u64, Error> {
        let (manifest, set) = self.store.delete(at, deleted, self.hidden(at))?;
        if !set.bytes.is_empty() {
            self.put(set.segment.tombstones_offset, &set.bytes);
        }
        self.store.segments = set.end;
        self.commit(manifest, written)
    }

    fn view(&self) -> Result<View<'_>, Error> {
        let view = self.store.view(&self.bytes, 0)?;
        let tables = (0..view.len())
            .map(|at| {
                let documents = &self.segments[at];
                let has = documents.iter().any(|document| !document.0.is_empty());
                if has {
                    view.bytes(at)
                } else {
                    None
                }
            })
            .collect();
        Ok(view.with_tables(tables))
    }

    /// How many documents are not deleted, counted segment by segment.
    fn counted(&self) -> u64 {
        let view = self.view().expect("a view");
        (0..view.len())
            .map(|at| {
                let hidden = view
                    .deleted(at)
                    .expect("the deletions decode")
                    .map_or(0, |set| set.len() as u64);
                u64::from(view.described()[at].docs) - hidden
            })
            .sum()
    }

    /// The same store opened from nothing but what was written down.
    fn reopened(self) -> Self {
        let store = Store::open(
            self.store.superblock,
            self.store.manifest,
            self.store.slot,
            self.bytes.len() as u64,
        )
        .expect("a store");
        Self { store, ..self }
    }

    /// Every key that answers, with the key that the document it answers with was
    /// stored under.
    fn resolutions(&self, count: usize) -> Vec<(Vec<u8>, Vec<u8>)> {
        let view = self.view().expect("a view");
        (0..count)
            .filter_map(|n| {
                let (at, doc) = view.document(&key(n)).expect("a lookup")?;
                Some((key(n), self.segments[at][doc as usize].0.clone()))
            })
            .collect()
    }

    fn compact(&mut self, start: usize, end: usize) -> Result<Compacted, Error> {
        self.compact_at(start, end, 1, 2)
    }

    /// Folds a run of segments into one. The documents of it are those that the
    /// fields of the merged segment hold.
    fn compact_at(
        &mut self,
        start: usize,
        end: usize,
        created: u64,
        written: u64,
    ) -> Result<Compacted, Error> {
        self.store.check_run(start, end)?;
        let view = self.view()?;
        let mut opened = Vec::new();
        for at in start..end {
            let mut writer = Writer::new();
            let mut keys = Vec::new();
            for (doc, (key, text)) in self.segments[at].iter().enumerate() {
                let stored = [("id", key.clone()), ("text", text.clone().into_bytes())];
                writer.add_with_fields(
                    text,
                    stored
                        .into_iter()
                        .map(|(name, value)| Field {
                            name: name.to_string(),
                            value,
                        })
                        .collect(),
                )?;
                if !key.is_empty() {
                    keys.push((key.clone(), doc as DocId));
                }
            }
            keys.sort();
            let contents = writer.finish()?;
            let index = Indexed {
                lengths: self.segments[at].iter().map(|_| 2).collect(),
                entries: contents.entries,
                fields: contents.fields,
                keys: if keys.is_empty() { None } else { Some(keys) },
            };
            let none = segment::Segment {
                sections: Vec::new(),
            };
            opened.push(Opened {
                segment: Ok(none),
                index: Ok(index),
            });
        }
        let sources = gather(&view, start, opened)?;
        let merged = merge(&sources)?;
        let survived: Vec<Document> = merged
            .contents
            .fields
            .iter()
            .flatten()
            .map(|stored| {
                let text = String::from_utf8(stored[1].value.clone()).expect("text");
                (stored[0].value.clone(), text)
            })
            .collect();
        let laid = laid_out(&survived);
        let prefixes = (0..=self.store.manifest.segments.len() as u64).collect();
        let folding =
            self.store
                .compact(start, end, merged, laid.len() as u64, created, prefixes)?;
        if let Some(segment) = folding.replacement {
            self.put(segment.offset, &laid);
            self.segments.splice(start..end, [survived]);
        } else {
            self.segments.splice(start..end, []);
        }
        self.store.segments = folding.end;
        let epoch = self.commit(folding.manifest, written)?;
        self.store.folded = Some(folding.fold);
        Ok(Compacted {
            epoch,
            ..folding.report
        })
    }
}

fn segment(n: u64) -> Segment {
    Segment {
        offset: 135_168 + n * 4096,
        len: 4096,
        docs: 100,
        created: 1_700_000_000 + n,
        ..Segment::default()
    }
}

#[test]
fn a_commit_alternates_slots_and_moves_the_epoch_forward() {
    let mut disk = Disk::empty();
    let mut expected = [Slot::B, Slot::A].into_iter().cycle();
    for n in 1..=8u64 {
        let mut manifest = disk.store.manifest.copy();
        manifest.segments.push(segment(n));
        manifest.live = n * 100;
        let epoch = disk.commit(manifest, 1_700_000_000 + n).expect("committed");
        assert_eq!(epoch, n + 1);
        assert_eq!(disk.store.slot, expected.next().expect("a slot"));
        assert_eq!(disk.store.manifest.segments.len() as u64, n);
    }
    let disk = disk.reopened();
    assert_eq!(disk.store.manifest.epoch, 9);
    assert_eq!(disk.store.manifest.segments.len(), 8);
    assert_eq!(disk.store.manifest.live, 800);
    assert_eq!(disk.store.slot, Slot::A);
}

#[test]
fn a_store_shorter_than_the_regions_it_claims_is_not_opened() {
    let error = Store::open(SUPERBLOCK, Manifest::empty(1), Slot::A, 3 * 4096).err();
    assert_eq!(
        error,
        Some(Error::Truncated {
            needed: 33 * 4096,
            available: 3 * 4096
        })
    );
}

#[test]
fn a_store_survives_more_commits_than_it_has_slots() {
    let mut disk = Disk::empty();
    for n in 1..=64u64 {
        let mut manifest = disk.store.manifest.copy();
        manifest.terms = n * 1000;
        disk.commit(manifest, n).expect("committed");
    }
    let disk = disk.reopened();
    assert_eq!(disk.store.manifest.epoch, 65);
    assert_eq!(disk.store.manifest.terms, 64_000);
}

#[test]
fn a_store_syncs_at_the_reach_that_survives_the_power_going_unless_told_otherwise() {
    assert_eq!(Disk::empty().store.durability, Reach::Platter);
}

#[test]
fn a_commit_frees_the_log_up_to_where_it_was_truncated() {
    let mut disk = Disk::empty();
    disk.store.log = Log::new(4096, 0, 600, 3).expect("a log");
    disk.store.truncate_log(200).expect("freed");
    let manifest = disk.store.manifest.copy();
    disk.commit(manifest, 2).expect("committed");
    assert_eq!(disk.store.manifest.wal_head, 200);
    assert_eq!(disk.store.manifest.wal_tail, 600);
    assert_eq!(disk.store.manifest.wal_sequence, 3);
}

#[test]
fn a_log_is_freed_only_between_its_head_and_its_tail() {
    let mut disk = Disk::empty();
    disk.store.log = Log::new(4096, 100, 600, 3).expect("a log");
    for through in [99, 601] {
        assert_eq!(
            disk.store.truncate_log(through),
            Err(Error::BadPositions {
                head: through,
                tail: 600
            })
        );
        assert_eq!(disk.store.log.head, 100);
    }
    assert_eq!(disk.store.truncate_log(600), Ok(()));
    assert_eq!(disk.store.log.head, 600);
    assert_eq!(
        Log::new(4096, 10, 4107, 0),
        Err(Error::BadPositions {
            head: 10,
            tail: 4107
        })
    );
    assert!(Log::new(4096, 10, 9, 0).is_err());
}

#[test]
fn a_walk_leaves_the_log_where_it_ended() {
    let mut disk = Disk::empty();
    let walked = Walked {
        records: 2,
        bytes: 40,
        position: 300,
        sequence: 9,
    };
    disk.store.recovered(&walked).expect("positioned");
    assert_eq!(disk.store.log(), &Log::new(4096, 0, 300, 9).expect("a log"));
    let walked = Walked {
        position: SUPERBLOCK.wal_len + 1,
        ..walked
    };
    assert_eq!(
        disk.store.recovered(&walked),
        Err(Error::BadPositions {
            head: 0,
            tail: SUPERBLOCK.wal_len + 1
        })
    );
}

#[test]
fn segments_appended_before_a_commit_do_not_land_on_top_of_each_other() {
    // All three go in before anything is committed, which is what a store with a
    // batch to flush does.
    let disk = Disk::stored(&[20, 20, 20]);
    let described = disk.store.manifest.segments.clone();
    assert_eq!(described.len(), 3);

    let page = u64::from(PAGE);
    let mut previous = SUPERBLOCK.segments_offset;
    for segment in &described {
        assert!(segment.len > 0, "{described:?}");
        assert!(segment.offset >= previous, "{described:?}");
        assert_eq!(segment.offset % page, 0, "{described:?}");
        previous = segment.offset + segment.len;
    }
    assert!(disk.store.segments >= previous);

    let view = disk.view().expect("a view");
    assert_eq!(view.len(), 3);
    for bytes in view.all() {
        assert_eq!(bytes, [0x5a; 20]);
    }

    // Reopening puts the cursor back where the committed manifest leaves it, which
    // for a store whose appends were all committed is where it already was.
    let disk = disk.reopened();
    assert_eq!(disk.store.manifest.segments, described);
    assert_eq!(disk.store.segments, previous.next_multiple_of(page));
}

#[test]
fn a_view_is_the_store_it_was_taken_from_and_not_the_one_after() {
    let mut disk = Disk::stored(&[20]);
    let before = disk.store.manifest.epoch;
    let (len, epoch) = {
        let view = disk.view().expect("a view");
        (view.len(), view.epoch())
    };
    disk.publish(Some(plain(5)), &[]).expect("published");
    assert_eq!((len, epoch), (1, before));
    assert_eq!(disk.view().expect("a view").len(), 2);
    assert_eq!(disk.view().expect("a view").epoch(), before + 1);
}

#[test]
fn an_empty_store_has_a_view_with_nothing_in_it() {
    let disk = Disk::empty();
    let view = disk.view().expect("a view");
    assert!(view.is_empty());
    assert_eq!(view.len(), 0);
    assert!(view.bytes(0).is_none());
    assert_eq!(view.all().len(), 0);
}

#[test]
fn a_manifest_naming_a_segment_that_is_not_in_the_file_is_refused() {
    let mut disk = Disk::stored(&[20]);
    let mut manifest = disk.store.manifest.copy();
    // A segment nothing ever wrote, out past the end of the file. Which is what a
    // manifest committed before the segment it names would leave.
    manifest.segments.push(Segment {
        offset: disk.store.segments,
        len: 1 << 30,
        docs: 1,
        ..Segment::default()
    });
    disk.commit(manifest, 2).expect("committed");
    let error = disk.store.view(&disk.bytes, 0).err();
    assert!(matches!(error, Some(Error::Truncated { .. })), "{error:?}");
}

#[test]
fn a_segment_that_starts_before_the_segment_region_is_refused() {
    let mut disk = Disk::stored(&[20]);
    let mut manifest = disk.store.manifest.copy();
    // Pointing at a manifest slot. Every byte of it is in the file, so the length
    // check passes and this is the one that has to catch it, and what it catches
    // is a query reading a manifest as though it were postings.
    manifest.segments.push(Segment {
        offset: SLOT_A_OFFSET,
        len: 4096,
        docs: 1,
        ..Segment::default()
    });
    disk.commit(manifest, 2).expect("committed");
    let error = disk.store.view(&disk.bytes, 0).err();
    assert!(
        matches!(error, Some(Error::SectionOutOfRange { .. })),
        "{error:?}"
    );
}

#[test]
fn a_newer_set_of_deletions_leaves_the_older_one_where_it_was() {
    let mut disk = Disk::stored(&[40]);
    disk.delete(0, &Bitmap::from_sorted(&[1]), 2).expect("deleted");
    let first = disk.view().expect("a view").tombstones(0).expect("a bitmap").to_vec();
    let at = disk.store.manifest.segments[0].tombstones_offset as usize;

    disk.delete(0, &Bitmap::from_sorted(&[1, 2, 3]), 3).expect("deleted");
    let newer = disk.view().expect("a view");

    assert_eq!(&disk.bytes[at..at + first.len()], &first[..]);
    assert_ne!(newer.tombstones(0).expect("a bitmap"), &first[..]);
    assert_eq!(Bitmap::read(&first).expect("a set"), Bitmap::from_sorted(&[1]));
    assert_eq!(
        newer.deleted(0).expect("a set").expect("some"),
        Bitmap::from_sorted(&[1, 2, 3])
    );
    assert_eq!(disk.store.manifest.live, 37);
}

#[test]
fn a_tombstone_bitmap_that_is_not_in_the_segment_region_is_refused_rather_than_read() {
    let mut disk = Disk::stored(&[20]);
    let mut manifest = disk.store.manifest.copy();
    // Pointing at a manifest slot, which is the dangerous one for a tombstone
    // bitmap the same way it is for a segment: every byte of it is in the file, so
    // it decodes into something and the something is a set of documents nobody
    // deleted.
    manifest.segments[0].tombstones_offset = SLOT_A_OFFSET;
    manifest.segments[0].tombstones_len = 16;
    manifest.segments[0].generation += 1;
    disk.commit(manifest, 2).expect("committed");

    let error = disk.store.view(&disk.bytes, 0).err();
    assert!(
        matches!(error, Some(Error::SectionOutOfRange { .. })),
        "{error:?}"
    );
}

#[test]
fn a_tombstone_bitmap_that_is_not_in_the_file_is_refused_rather_than_read() {
    let mut disk = Disk::stored(&[20]);
    let mut manifest = disk.store.manifest.copy();
    manifest.segments[0].tombstones_offset = disk.store.segments;
    manifest.segments[0].tombstones_len = 1 << 20;
    manifest.segments[0].generation += 1;
    disk.commit(manifest, 2).expect("committed");

    let error = disk.store.view(&disk.bytes, 0).err();
    assert!(matches!(error, Some(Error::Truncated { .. })), "{error:?}");
}

#[test]
fn a_commit_that_puts_the_deletions_back_to_an_older_set_is_refused() {
    let mut disk = Disk::stored(&[20]);
    disk.delete(0, &Bitmap::from_sorted(&[3]), 2).expect("deleted");
    let committed = disk.store.manifest.copy();

    // What a writer working from a manifest it read before the delete would
    // commit, and what it would do is bring the document back.
    let mut older = committed.copy();
    older.segments[0].generation -= 1;
    older.segments[0].tombstones_offset = 0;
    older.segments[0].tombstones_len = 0;
    let error = disk.commit(older, 3).err();
    assert_eq!(
        error,
        Some(Error::StaleGeneration {
            offset: committed.segments[0].offset,
            committed: 1,
            given: 0
        })
    );

    assert_eq!(disk.store.manifest.epoch, committed.epoch);
    assert_eq!(disk.store.manifest.segments, committed.segments);
    assert_eq!(disk.counted(), 19);
}

#[test]
fn a_segment_that_starts_again_at_an_offset_another_one_used_is_not_a_step_backwards() {
    // A compaction drops a segment and a later append reuses the space, so there
    // is a new segment at an old offset with no deletions and a generation of
    // zero. Matching on the footer as well as on the offset is what tells the two
    // apart.
    let mut disk = Disk::stored(&[20]);
    disk.delete(0, &Bitmap::from_sorted(&[0, 1]), 2).expect("deleted");

    let mut manifest = disk.store.manifest.copy();
    manifest.segments[0].footer ^= 1;
    manifest.segments[0].generation = 0;
    manifest.segments[0].tombstones_offset = 0;
    manifest.segments[0].tombstones_len = 0;
    disk.commit(manifest, 3).expect("committed");
    assert_eq!(disk.store.manifest.segments[0].generation, 0);
}

#[test]
fn a_delete_naming_a_document_the_segment_does_not_have_is_refused() {
    let mut disk = Disk::stored(&[20]);
    let error = disk.delete(0, &Bitmap::from_sorted(&[20]), 2).err();
    assert_eq!(
        error,
        Some(Error::NoSuchDocument {
            doc: 20,
            documents: 20
        })
    );
    assert_eq!(disk.store.manifest.live, 20);
    assert!(disk.view().expect("a view").tombstones(0).is_none());
}

#[test]
fn a_delete_of_a_segment_that_is_not_there_is_refused() {
    let mut disk = Disk::stored(&[20]);
    let error = disk.delete(3, &Bitmap::from_sorted(&[0]), 2).err();
    assert!(
        matches!(error, Some(Error::MissingSection { .. })),
        "{error:?}"
    );
}

#[test]
fn deleting_nothing_clears_the_descriptor_rather_than_writing_an_empty_set() {
    let mut disk = Disk::stored(&[20]);
    disk.delete(0, &Bitmap::from_sorted(&[0, 1, 2]), 2).expect("deleted");
    assert_eq!(disk.store.manifest.live, 17);

    disk.delete(0, &Bitmap::new(), 3).expect("deleted");
    assert_eq!(disk.store.manifest.live, 20);
    let segment = disk.store.manifest.segments[0];
    assert_eq!(segment.tombstones_offset, 0);
    assert_eq!(segment.tombstones_len, 0);
    assert_eq!(segment.first_live, 0);
    assert_eq!(segment.generation, 2);
    assert!(disk.view().expect("a view").tombstones(0).is_none());
}

#[test]
fn a_deleted_prefix_says_where_the_documents_worth_reading_begin() {
    let mut disk = Disk::stored(&[20]);
    disk.delete(0, &Bitmap::from_sorted(&[0, 1, 2, 9]), 2).expect("deleted");
    assert_eq!(disk.store.manifest.segments[0].first_live, 3);
    assert_eq!(disk.store.manifest.segments[0].generation, 1);
}

#[test]
fn the_live_count_is_what_a_search_counts_after_several_rounds_of_deletion() {
    let mut disk = Disk::stored(&[30, 30, 30]);
    assert_eq!(disk.store.manifest.live, 90);
    assert_eq!(disk.counted(), 90);

    // A set is the whole answer for its segment rather than a change to it, so
    // each round hands over what it had with one more in it.
    let mut gone = [Bitmap::new(), Bitmap::new(), Bitmap::new()];
    let mut written = 2;
    for round in 0..4 {
        for (at, set) in gone.iter_mut().enumerate() {
            let doc = u32::try_from(round * 3 + at).expect("a small document number");
            set.insert(doc);
            disk.delete(at, set, written).expect("deleted");
            written += 1;
            assert_eq!(
                disk.counted(),
                disk.store.manifest.live,
                "round {round} of segment {at}"
            );
        }
    }
    assert_eq!(disk.store.manifest.live, 78);

    // And the same store opened from nothing but the file agrees, which is the
    // part that says the sets were written down rather than remembered.
    let disk = disk.reopened();
    assert_eq!(disk.store.manifest.live, 78);
    assert_eq!(disk.counted(), 78);
}

#[test]
fn a_key_finds_the_document_it_was_written_under() {
    let disk = Disk::keyed(&[10, 10, 10]);
    let view = disk.view().expect("a view");
    // First of the first segment, last of the last, and one in the middle, by the
    // segment they are in and their place inside it.
    assert_eq!(view.document(&key(0)).expect("looked up"), Some((0, 0)));
    assert_eq!(view.document(&key(14)).expect("looked up"), Some((1, 4)));
    assert_eq!(view.document(&key(29)).expect("looked up"), Some((2, 9)));
}

#[test]
fn a_key_nothing_in_the_store_holds_is_absent() {
    let disk = Disk::keyed(&[10, 10, 10]);
    let view = disk.view().expect("a view");
    // Past the end, before the beginning, and a prefix of a key that is there,
    // which is the one a filter is least likely to save.
    assert_eq!(view.document(&key(30)).expect("looked up"), None);
    assert_eq!(view.document(b"aaaa").expect("looked up"), None);
    assert_eq!(view.document(b"record-").expect("looked up"), None);
    assert_eq!(view.document(b"").expect("looked up"), None);
}

#[test]
fn a_key_written_again_later_answers_with_the_newer_document() {
    let mut disk = Disk::keyed(&[10]);
    assert_eq!(
        disk.view().expect("a view").document(&key(3)).expect("looked up"),
        Some((0, 3))
    );

    // The same key again in a segment of its own, which is what replacing a
    // document is before anything is compacted.
    disk.publish(Some(vec![(key(3), "audit text300".to_string())]), &[])
        .expect("published");
    let view = disk.view().expect("a view");
    assert_eq!(view.document(&key(3)).expect("looked up"), Some((1, 0)));
    // And the neighbours are where they were.
    assert_eq!(view.document(&key(2)).expect("looked up"), Some((0, 2)));
    assert_eq!(view.document(&key(4)).expect("looked up"), Some((0, 4)));
    let lookup = view.lookup().expect("the keys open");
    assert_eq!(lookup.len(), 2);
    assert_eq!(lookup.named(), 2);
    assert_eq!(lookup.document_from(&key(3), 1), Some((1, 0)));
    assert_eq!(lookup.document_from(&key(2), 1), None);
}

#[test]
fn a_key_naming_a_deleted_document_is_absent() {
    let mut disk = Disk::keyed(&[10, 10]);
    assert_eq!(
        disk.view().expect("a view").document(&key(12)).expect("looked up"),
        Some((1, 2))
    );
    disk.delete(1, &Bitmap::from_sorted(&[2]), 2).expect("deleted");
    let view = disk.view().expect("a view");
    assert_eq!(view.document(&key(12)).expect("looked up"), None);
    // Its neighbours in the same segment are untouched, so the answer is about
    // that document rather than about that segment.
    assert_eq!(view.document(&key(11)).expect("looked up"), Some((1, 1)));
    assert_eq!(view.document(&key(13)).expect("looked up"), Some((1, 3)));
}

#[test]
fn deleting_a_replacement_does_not_bring_the_document_it_replaced_back() {
    let mut disk = Disk::keyed(&[4]);
    disk.publish(Some(vec![(key(1), "audit text300".to_string())]), &[])
        .expect("published");
    assert_eq!(
        disk.view().expect("a view").document(&key(1)).expect("looked up"),
        Some((1, 0))
    );
    // Delete the newer copy. The older one is still there, still live, and still
    // under the same key, and it is not the answer: the newest segment that names
    // a key is the one that decides what that key means.
    disk.delete(1, &Bitmap::from_sorted(&[0]), 3).expect("deleted");
    let view = disk.view().expect("a view");
    assert_eq!(view.document(&key(1)).expect("looked up"), None);
    // The older copy is genuinely still there, which is what makes the answer
    // above a decision rather than an absence.
    let table = keys::Reader::new(view.bytes(0).expect("the segment")).expect("a table");
    assert_eq!(table.get(&key(1)), Some(1));
}

#[test]
fn a_store_of_segments_without_keys_answers_nothing_rather_than_failing() {
    let disk = Disk::stored(&[10, 10]);
    let view = disk.view().expect("a view");
    assert_eq!(view.document(&key(3)).expect("looked up"), None);
    // A store with nothing in it at all is the same answer, and is the case a
    // lookup meets before the first segment is written.
    let disk = Disk::empty();
    let view = disk.view().expect("a view");
    assert_eq!(view.document(&key(0)).expect("looked up"), None);
}

#[test]
fn a_segment_and_the_deletions_that_go_with_it_arrive_in_one_commit() {
    let mut disk = Disk::stored(&[10, 10]);
    let epoch = disk.store.manifest.epoch;
    disk.publish(
        Some(plain(4)),
        &[
            (0, Bitmap::from_sorted(&[0, 1])),
            (1, Bitmap::from_sorted(&[9])),
        ],
    )
    .expect("published");
    // One commit for all three, which is what makes a replacement a single event
    // rather than a window somebody can read half of.
    assert_eq!(disk.store.manifest.epoch, epoch + 1);
    assert_eq!(disk.store.manifest.segments.len(), 3);
    assert_eq!(disk.store.manifest.total, 24);
    assert_eq!(disk.store.manifest.live, 21);

    let view = disk.view().expect("a view");
    assert_eq!(view.deleted(0).expect("read").expect("a set").len(), 2);
    assert_eq!(view.deleted(1).expect("read").expect("a set").len(), 1);
    assert_eq!(view.deleted(2).expect("read"), None);
    assert_eq!(disk.counted(), 21);
}

#[test]
fn a_commit_syncs_twice_whatever_it_carries() {
    // The data before the manifest and the manifest before the call returns. What
    // a plan wrote is what has to be synced ahead of the manifest.
    let disk = Disk::stored(&[10, 10]);
    let published = disk
        .store
        .publish_all(
            &vec![(4, 40)],
            1_700_000_100,
            &vec![
                (0, Bitmap::from_sorted(&[0, 1])),
                (1, Bitmap::from_sorted(&[9])),
            ],
            &vec![0, 0],
        )
        .expect("published");
    assert!(published.wrote);

    // Nothing was added to the file, so there is nothing to order the manifest
    // after and the commit is the one sync.
    let published = disk
        .store
        .publish_all(&Vec::new(), 0, &Vec::new(), &Vec::new())
        .expect("published");
    assert!(!published.wrote);
}

#[test]
fn several_segments_arrive_in_one_commit_in_the_order_they_are_given() {
    let mut disk = Disk::stored(&[10, 10]);
    let epoch = disk.store.manifest.epoch;
    let before = disk.syncs;
    disk.publish_all(
        vec![plain(4), plain(3)],
        &[
            (0, Bitmap::from_sorted(&[0])),
            (3, Bitmap::from_sorted(&[1])),
        ],
    )
    .expect("published");

    assert_eq!(disk.syncs - before, 2, "one commit, whatever is in it");
    assert_eq!(disk.store.manifest.epoch, epoch + 1);
    assert_eq!(disk.store.manifest.segments.len(), 4);
    assert_eq!(disk.store.manifest.total, 27);
    assert_eq!(disk.store.manifest.live, 25);
    assert_eq!(disk.store.manifest.segments[2].docs, 4);
    assert_eq!(disk.store.manifest.segments[3].docs, 3);

    let view = disk.view().expect("a view");
    assert_eq!(view.deleted(0).expect("read").expect("a set").len(), 1);
    assert_eq!(view.deleted(2).expect("read"), None);
    assert_eq!(view.deleted(3).expect("read").expect("a set").len(), 1);
    assert_eq!(disk.counted(), 25);
}

#[test]
fn deletions_alone_are_a_publish_without_a_segment() {
    let mut disk = Disk::stored(&[10, 10]);
    disk.publish(
        None,
        &[
            (0, Bitmap::from_sorted(&[3])),
            (1, Bitmap::from_sorted(&[4])),
        ],
    )
    .expect("published");
    assert_eq!(disk.store.manifest.segments.len(), 2);
    assert_eq!(disk.store.manifest.live, 18);
    assert_eq!(disk.counted(), 18);
}

#[test]
fn a_publish_naming_one_segment_twice_is_refused() {
    // Two sets for one segment is a caller that has not decided what is deleted,
    // and taking the later one would lose the other quietly.
    let mut disk = Disk::stored(&[10, 10]);
    let epoch = disk.store.manifest.epoch;
    let outcome = disk.publish(
        None,
        &[
            (1, Bitmap::from_sorted(&[1])),
            (1, Bitmap::from_sorted(&[2])),
        ],
    );
    assert_eq!(outcome, Err(Error::RepeatedSegment { at: 1 }));
    assert_eq!(disk.store.manifest.epoch, epoch);
    assert_eq!(disk.store.manifest.live, 20);
}

#[test]
fn a_publish_can_delete_from_the_segment_it_is_adding() {
    // A batch that wrote the same key twice has both copies in the segment being
    // written, and the one that lost has to stop answering queries at the moment
    // the segment appears.
    let mut disk = Disk::stored(&[10]);
    disk.publish(Some(plain(4)), &[(1, Bitmap::from_sorted(&[0, 2]))])
        .expect("published");
    assert_eq!(disk.store.manifest.segments.len(), 2);
    assert_eq!(disk.store.manifest.total, 14);
    assert_eq!(disk.store.manifest.live, 12);
    assert_eq!(disk.counted(), 12);

    let view = disk.view().expect("a view");
    assert_eq!(view.deleted(0).expect("read"), None);
    assert_eq!(view.deleted(1).expect("read").expect("a set").len(), 2);
}

#[test]
fn only_the_segment_a_publish_adds_can_be_named_past_the_end() {
    let mut disk = Disk::stored(&[10]);
    let outcome = disk.publish(Some(plain(4)), &[(2, Bitmap::from_sorted(&[0]))]);
    assert_eq!(outcome, Err(Error::MissingSection { kind: 0 }));
    assert_eq!(disk.store.manifest.segments.len(), 1);
}

#[test]
fn a_publish_naming_a_segment_that_is_not_there_is_refused() {
    let mut disk = Disk::stored(&[10]);
    let outcome = disk.publish(None, &[(4, Bitmap::from_sorted(&[0]))]);
    assert_eq!(outcome, Err(Error::MissingSection { kind: 0 }));
    assert_eq!(disk.store.manifest.live, 10);
}

#[test]
fn a_publish_whose_deletions_do_not_fit_their_segment_commits_nothing() {
    let mut disk = Disk::stored(&[10]);
    let epoch = disk.store.manifest.epoch;
    let outcome = disk.publish(Some(plain(4)), &[(0, Bitmap::from_sorted(&[40]))]);
    assert_eq!(
        outcome,
        Err(Error::NoSuchDocument {
            doc: 40,
            documents: 10
        })
    );
    assert_eq!(disk.store.manifest.epoch, epoch);
    assert_eq!(disk.store.manifest.segments.len(), 1);
    assert_eq!(disk.store.manifest.live, 10);
    let disk = disk.reopened();
    assert_eq!(disk.store.manifest.segments.len(), 1);
    assert_eq!(disk.counted(), 10);
}

#[test]
fn a_published_batch_is_still_there_when_the_store_is_opened_again() {
    let mut disk = Disk::stored(&[10, 10]);
    disk.publish(Some(plain(4)), &[(0, Bitmap::from_sorted(&[0, 1, 2]))])
        .expect("published");

    let disk = disk.reopened();
    assert_eq!(disk.store.manifest.segments.len(), 3);
    assert_eq!(disk.store.manifest.live, 21);
    assert_eq!(disk.counted(), 21);
    let view = disk.view().expect("a view");
    assert_eq!(view.deleted(0).expect("read").expect("a set").len(), 3);
}

#[test]
fn a_segment_appended_after_a_reopen_goes_past_the_deletions_that_were_there() {
    // The deletions of a commit are appended after the last segment, so a store
    // that works out where to append from the segments alone puts its next segment
    // on top of them.
    let mut disk = Disk::stored(&[10, 10]);
    disk.publish(None, &[(0, Bitmap::from_sorted(&[0, 1, 2]))])
        .expect("published");
    let deletions = disk.store.manifest.segments[0].tombstones_offset;
    assert!(deletions > 0);

    let mut disk = disk.reopened();
    disk.publish(Some(plain(4)), &[]).expect("published");
    let added = disk.store.manifest.segments[2];
    assert!(
        added.offset >= deletions + 4,
        "the segment went in at {} and the deletions are at {deletions}",
        added.offset
    );

    let view = disk.view().expect("a view");
    assert_eq!(view.deleted(0).expect("read").expect("a set").len(), 3);
    assert_eq!(view.described()[0].docs, 10);
    assert_eq!(disk.store.manifest.live, 21);
}

#[test]
fn publishing_deletions_twice_leaves_the_second_set_and_the_count_that_goes_with_it() {
    // A set is the whole answer for its segment, so a caller that wants one more
    // document gone passes the set it had with one more in it, and the live count
    // follows the difference rather than the size of what it was handed.
    let mut disk = Disk::stored(&[10]);
    disk.publish(None, &[(0, Bitmap::from_sorted(&[0, 1]))]).expect("published");
    assert_eq!(disk.store.manifest.live, 8);
    disk.publish(None, &[(0, Bitmap::from_sorted(&[0, 1, 2]))]).expect("published");
    assert_eq!(disk.store.manifest.live, 7);
    assert_eq!(disk.counted(), 7);
    let view = disk.view().expect("a view");
    assert_eq!(view.deleted(0).expect("read").expect("a set").len(), 3);
}

#[test]
fn a_compaction_keeps_every_live_document_under_the_key_it_was_written_under() {
    let mut disk = Disk::keyed(&[10, 10, 10]);
    // Out of two different segments, so the fold has to renumber across a gap in
    // each of them rather than just after the one.
    disk.delete(0, &Bitmap::from_sorted(&[3]), 2).expect("deleted");
    disk.delete(2, &Bitmap::from_sorted(&[7]), 3).expect("deleted");
    let before = disk.resolutions(30);
    assert_eq!(before.len(), 28);
    assert!(before.iter().all(|(key, held)| key == held));

    let epoch = disk.store.manifest.epoch;
    let done = disk
        .compact_at(0, 3, 1_700_000_200, 1_700_000_201)
        .expect("compacted");
    assert_eq!(done.folded, 3);
    assert_eq!(done.documents, 28);
    assert_eq!(done.dropped, 2);
    assert_eq!(done.epoch, epoch + 1);
    assert!(done.bytes > 0);
    assert!(done.stranded > done.bytes);

    assert_eq!(disk.store.manifest.segments.len(), 1);
    assert_eq!(disk.store.manifest.live, 28);
    assert_eq!(disk.store.manifest.total, 28);
    assert_eq!(disk.counted(), 28);
    assert_eq!(disk.resolutions(30), before);
    // The merged segment starts with nothing deleted, so the tombstones of the
    // segments it replaced went with them.
    let described = disk.store.manifest.segments[0];
    assert_eq!(described.tombstones_offset, 0);
    assert_eq!(described.tombstones_len, 0);
    assert_eq!(described.generation, 0);
    assert_eq!(described.first_live, 0);
    assert_eq!(described.docs, 28);
    assert_eq!(described.created, 1_700_000_200);
}

#[test]
fn a_fold_says_where_each_document_went() {
    let mut disk = Disk::keyed(&[10, 10, 10]);
    disk.delete(1, &Bitmap::from_sorted(&[0, 4]), 2).expect("deleted");
    disk.compact(0, 3).expect("compacted");
    let view = disk.view().expect("a view");
    let mut next = 0;
    for n in 0..30 {
        let found = view.document(&key(n)).expect("looked up");
        if n == 10 || n == 14 {
            assert_eq!(found, None);
        } else {
            assert_eq!(found, Some((0, next)));
            next += 1;
        }
    }
    let fold = disk.store.folded.as_ref().expect("a fold");
    assert_eq!(fold.moved.of(1, 0), None);
    assert_eq!(fold.moved.of(1, 1), Some(10));
    assert_eq!(fold.shrank(), 2);
    assert!(fold.covers(3, 3));
    assert!(!fold.covers(3, 4));
    assert!(!fold.covers(4, 4));
}

#[test]
fn a_key_whose_newest_copy_is_outside_the_run_still_answers_with_that_copy() {
    // The reason the run is a range. Segments are oldest first, a key that was
    // written twice answers with the copy in the later segment, and a fold that
    // moved an older copy past a newer one would answer with the document that was
    // replaced.
    let mut disk = Disk::keyed(&[10, 10]);
    disk.publish(Some(vec![(key(0), "audit text500".to_string())]), &[])
        .expect("published");
    assert_eq!(
        disk.view().expect("a view").document(&key(0)).expect("a lookup"),
        Some((2, 0))
    );

    disk.compact(0, 2).expect("compacted");
    let view = disk.view().expect("a view");
    assert_eq!(view.len(), 2);
    // The newest copy is where it always was, one segment later than the merged
    // one, and it is still what the key answers with.
    assert_eq!(view.document(&key(0)).expect("a lookup"), Some((1, 0)));
    assert_eq!(view.document(&key(9)).expect("a lookup"), Some((0, 9)));
}

#[test]
fn a_run_that_is_empty_or_runs_past_the_segments_there_are_is_refused() {
    let mut disk = Disk::stored(&[10, 10]);
    for (start, end) in [(0, 0), (1, 1), (0, 3), (2, 2)] {
        let error = disk.compact(start, end).err();
        assert!(
            matches!(error, Some(Error::MissingSection { .. })),
            "{error:?}"
        );
    }
    assert_eq!(disk.store.manifest.segments.len(), 2);
    assert_eq!(disk.store.manifest.epoch, 2);
}

#[test]
fn a_store_that_stopped_after_a_compaction_comes_back_compacted() {
    let mut disk = Disk::keyed(&[10, 10, 10]);
    let done = disk.compact(0, 3).expect("compacted");
    let mut disk = disk.reopened();
    assert_eq!(disk.store.manifest.segments.len(), 1);
    assert_eq!(disk.store.manifest.epoch, done.epoch);
    assert_eq!(disk.counted(), 30);
    // The segments the fold replaced are not named any more, so the next append
    // has to go past the merged segment and not over it.
    disk.publish(Some(vec![(key(100), "audit text600".to_string())]), &[])
        .expect("published");
    assert_eq!(disk.counted(), 31);
    let disk = disk.reopened();
    assert_eq!(disk.counted(), 31);
    assert_eq!(
        disk.view().expect("a view").document(&key(0)).expect("a lookup"),
        Some((0, 0))
    );
}

#[test]
fn a_run_where_everything_was_deleted_goes_away_without_a_replacement() {
    let mut disk = Disk::keyed(&[4, 6]);
    disk.delete(0, &Bitmap::from_sorted(&[0, 1, 2, 3]), 2).expect("deleted");
    let done = disk.compact(0, 1).expect("compacted");
    assert_eq!(done.folded, 1);
    assert_eq!(done.documents, 0);
    assert_eq!(done.dropped, 4);
    assert_eq!(done.bytes, 0);
    assert!(done.stranded > 0);

    assert_eq!(disk.store.manifest.segments.len(), 1);
    assert_eq!(disk.store.manifest.live, 6);
    assert_eq!(disk.store.manifest.total, 6);
    assert_eq!(disk.counted(), 6);
    disk.store.forget_fold();
    assert!(disk.store.folded.is_none());
}

#[test]
fn the_merged_segment_sits_one_level_past_the_deepest_of_its_sources() {
    let mut disk = Disk::stored(&[10, 10, 10]);
    assert!(disk.store.manifest.segments.iter().all(|s| s.level == 0));
    disk.compact(0, 2).expect("compacted");
    assert_eq!(disk.store.manifest.segments[0].level, 1);
    assert_eq!(disk.store.manifest.segments[1].level, 0);
    disk.compact(0, 2).expect("compacted again");
    assert_eq!(disk.store.manifest.segments.len(), 1);
    assert_eq!(disk.store.manifest.segments[0].level, 2);
    assert_eq!(disk.counted(), 30);
}

#[test]
fn a_fold_that_left_nothing_shrinks_by_all_of_it() {
    let fold = Fold {
        start: 1,
        end: 4,
        into: None,
        moved: Moved::default(),
        prefixes: vec![7, 8, 9],
    };
    assert_eq!(fold.shrank(), 3);
    assert!(fold.covers(2, 9));
    assert!(!fold.covers(3, 9));
}

#[test]
fn deletions_that_are_not_a_bitmap_are_an_error_rather_than_no_deletions() {
    let mut disk = Disk::stored(&[20]);
    disk.delete(0, &Bitmap::from_sorted(&[1]), 2).expect("deleted");
    let at = disk.store.manifest.segments[0].tombstones_offset as usize;
    disk.bytes[at] ^= 0xff;
    let view = disk.view().expect("a view");
    assert_eq!(view.deleted(0), Err(Error::BadMagic));
    assert_eq!(view.lookup().err(), Some(Error::BadMagic));
}

#[test]
fn a_new_store_opens_at_what_was_written_into_it() {
    let disk = Disk::empty();
    assert_eq!(disk.store.slot(), Slot::A);
    assert_eq!(disk.store.manifest().epoch, 1);
    assert!(disk.store.manifest().segments.is_empty());
    let created = *disk.store.superblock();

    let disk = disk.reopened();
    assert_eq!(*disk.store.superblock(), created);
    assert_eq!(disk.store.superblock().store, STORE);
    assert_eq!(disk.store.manifest().epoch, 1);
    assert_eq!(disk.store.slot(), Slot::A);
    assert_eq!(disk.store.segments_end(), SUPERBLOCK.segments_offset);
}

#[test]
fn a_manifest_whose_log_positions_do_not_fit_the_log_is_not_opened() {
    let mut manifest = Manifest::empty(1);
    manifest.wal_head = 10;
    manifest.wal_tail = 9;
    let error = Store::open(SUPERBLOCK, manifest, Slot::A, 33 * 4096).err();
    assert_eq!(error, Some(Error::BadPositions { head: 10, tail: 9 }));
}

#[test]
fn the_reach_of_a_store_is_what_it_was_set_to_until_it_is_opened_again() {
    for reach in [Reach::Platter, Reach::Device, Reach::Ordered] {
        let mut disk = Disk::empty();
        disk.store.set_durability(reach);
        assert_eq!(disk.store.durability(), reach);
        let disk = disk.reopened();
        assert_eq!(disk.store.durability(), Reach::Platter);
    }
}

/// The documents of a view that hold a word and are not deleted, by the segment
/// they are in and their place in it.
fn answered(view: &View<'_>, segments: &[Vec<Document>], word: &str) -> Vec<(usize, u32)> {
    let mut found = Vec::new();
    for at in 0..view.len() {
        let deleted = view.deleted(at).expect("the deletions decode");
        for (doc, (_, text)) in segments[at].iter().enumerate() {
            let gone = deleted.as_ref().is_some_and(|set| set.contains(doc as DocId));
            if !gone && text.split(' ').any(|held| held == word) {
                found.push((at, doc as u32));
            }
        }
    }
    found
}

/// The store as it was, to be read out of the file as it is.
fn as_it_was(disk: &Disk) -> Store {
    Store::open(
        disk.store.superblock,
        disk.store.manifest.copy(),
        disk.store.slot,
        disk.bytes.len() as u64,
    )
    .expect("a store")
}

#[test]
fn a_deleted_document_is_still_gone_when_the_store_is_opened_again() {
    let mut disk = Disk::stored(&[40]);
    let before = answered(&disk.view().expect("a view"), &disk.segments, "audit");
    let (at, doc) = before[0];
    disk.delete(at, &Bitmap::from_sorted(&[doc]), 2).expect("deleted");
    assert_eq!(disk.store.manifest.live, 39);

    let disk = disk.reopened();
    assert_eq!(disk.store.manifest.live, 39);
    let after = answered(&disk.view().expect("a view"), &disk.segments, "audit");
    assert!(!after.contains(&(at, doc)), "{after:?}");
    for hit in &before[1..] {
        assert!(after.contains(hit), "{hit:?} went missing with {doc}");
    }
}

#[test]
fn a_view_taken_before_a_delete_still_answers_with_the_document() {
    let mut disk = Disk::stored(&[40]);
    let (at, doc) = answered(&disk.view().expect("a view"), &disk.segments, "audit")[0];
    let was = as_it_was(&disk);

    disk.delete(at, &Bitmap::from_sorted(&[doc]), 2).expect("deleted");
    let older = was.view(&disk.bytes, 0).expect("a view");
    let newer = disk.view().expect("a view");

    // Both alive at once, which is the whole point: the delete is a write
    // somewhere else and a manifest pointed at it, so the older view is reading
    // bytes nothing touched.
    assert_eq!(answered(&older, &disk.segments, "audit")[0], (at, doc));
    assert_ne!(answered(&newer, &disk.segments, "audit")[0], (at, doc));
    assert!(older.tombstones(at).is_none());
    assert!(newer.tombstones(at).is_some());
}

#[test]
fn a_deletion_in_one_segment_does_not_touch_what_the_others_answer_with() {
    let mut disk = Disk::stored(&[30, 30, 30]);
    let before = answered(&disk.view().expect("a view"), &disk.segments, "audit");
    disk.delete(1, &Bitmap::from_sorted(&[0, 1, 2, 3, 4]), 2).expect("deleted");

    let after = answered(&disk.view().expect("a view"), &disk.segments, "audit");
    for hit in &before {
        let deleted = hit.0 == 1 && hit.1 < 5;
        assert_eq!(!deleted, after.contains(hit), "{hit:?}");
    }
}

#[test]
fn a_view_taken_before_a_key_was_replaced_still_answers_with_the_old_one() {
    // The same snapshot rule the rest of a view follows. A lookup that walked the
    // segments the manifest has now would answer with a document the rest of the
    // view cannot read.
    let mut disk = Disk::keyed(&[4]);
    let was = as_it_was(&disk);
    disk.publish(Some(vec![(key(1), "audit text300".to_string())]), &[])
        .expect("published");

    let before = was.view(&disk.bytes, 0).expect("a view");
    let tables = vec![before.bytes(0)];
    let before = before.with_tables(tables);
    assert_eq!(before.document(&key(1)).expect("looked up"), Some((0, 1)));
    assert_eq!(
        disk.view().expect("a view").document(&key(1)).expect("looked up"),
        Some((1, 0))
    );
}

#[test]
fn a_view_taken_before_a_compaction_still_answers_out_of_what_it_named() {
    let mut disk = Disk::keyed(&[10, 10, 10]);
    let was = as_it_was(&disk);
    let segments = disk.segments.clone();
    let before = answered(&disk.view().expect("a view"), &segments, "audit");
    assert_eq!(before.len(), 30);

    disk.compact(0, 3).expect("compacted");
    // The view is the store it was taken from. Its segments are still in the file,
    // nothing overwrote them, and it goes on answering out of the three it named.
    let view = was.view(&disk.bytes, 0).expect("a view");
    assert_eq!(view.len(), 3);
    assert_eq!(answered(&view, &segments, "audit"), before);
    for at in 0..3 {
        assert_eq!(view.bytes(at), Some(&laid_out(&segments[at])[..]));
    }
    // And the store answers with the same documents out of one segment.
    let after = answered(&disk.view().expect("a view"), &disk.segments, "audit");
    assert_eq!(after.len(), 30);
    assert!(after.iter().all(|(at, _)| *at == 0));
}

#[test]
fn a_compaction_that_never_reached_the_commit_leaves_the_store_as_it_was() {
    let mut disk = Disk::keyed(&[10, 10]);
    // The bytes land and the machine goes away before the manifest that would have
    // named them.
    let laid = laid_out(&disk.segments.concat());
    let at = disk.store.segments_end();
    disk.put(at, &laid);
    let described = disk.store.write_segment(20, laid.len() as u64, 1);
    assert_eq!(described.offset, at);
    assert_eq!(disk.store.segments_end(), at + 4096);

    let disk = disk.reopened();
    assert_eq!(disk.store.manifest.segments.len(), 2);
    assert_eq!(disk.store.manifest.live, 20);
    assert_eq!(disk.store.manifest.total, 20);
    assert_eq!(disk.counted(), 20);
    assert_eq!(disk.store.segments_end(), at);
    let view = disk.view().expect("a view");
    for n in 0..20 {
        let found = view.document(&key(n)).expect("looked up");
        assert_eq!(found, Some((n / 10, (n % 10) as u32)));
    }
}

#[test]
fn a_lookup_hands_out_the_table_of_a_segment_that_has_one() {
    let mut disk = Disk::keyed(&[3]);
    disk.publish(Some(plain(2)), &[]).expect("published");
    let view = disk.view().expect("a view");
    let lookup = view.lookup().expect("the keys open");
    assert_eq!(lookup.keys(0).map(|table| table.len()), Some(3));
    assert!(lookup.keys(1).is_none());
    assert!(lookup.keys(2).is_none());
}

#[test]
fn a_publish_of_one_segment_is_the_publish_of_a_list_of_one() {
    let disk = Disk::stored(&[10]);
    let deletions = vec![(0, Bitmap::from_sorted(&[3]))];
    let one = disk
        .store
        .publish(Some((4, 40)), 9, &deletions, &vec![0])
        .expect("published");
    let listed = disk
        .store
        .publish_all(&vec![(4, 40)], 9, &deletions, &vec![0])
        .expect("published");
    assert_eq!(one.manifest.segments, listed.manifest.segments);
    assert_eq!(one.end, listed.end);
    assert_eq!(one.manifest.segments.len(), 2);
    assert_eq!(one.manifest.live, 13);
    assert_eq!(one.manifest.total, 14);

    let none = disk
        .store
        .publish(None, 9, &deletions, &vec![0])
        .expect("published");
    assert_eq!(none.manifest.segments.len(), 1);
    assert_eq!(none.manifest.live, 9);
}

#[test]
fn tombstones_are_appended_at_the_end_and_the_end_moves_past_them() {
    let mut disk = Disk::stored(&[10]);
    let segment = disk.store.manifest.segments[0];
    let end = disk.store.segments;
    let set = disk
        .store
        .append_tombstones(&segment, &Bitmap::from_sorted(&[0, 2]))
        .expect("appended");
    assert_eq!(set.segment.tombstones_offset, end);
    assert_eq!(set.segment.first_live, 1);
    assert_eq!(set.segment.generation, 1);
    assert_eq!(
        Bitmap::read(&set.bytes).expect("a bitmap"),
        Bitmap::from_sorted(&[0, 2])
    );
    assert_eq!(disk.store.segments, end + u64::from(PAGE));

    // An empty set writes nothing, and a set that does not fit moves nothing.
    let end = disk.store.segments;
    let set = disk
        .store
        .append_tombstones(&segment, &Bitmap::new())
        .expect("appended");
    assert!(set.bytes.is_empty());
    assert_eq!(disk.store.segments, end);
    let error = disk
        .store
        .append_tombstones(&segment, &Bitmap::from_sorted(&[10]))
        .err();
    assert_eq!(
        error,
        Some(Error::NoSuchDocument {
            doc: 10,
            documents: 10,
        })
    );
    assert_eq!(disk.store.segments, end);
}

/// An index of so many documents of no terms, and the sections it was read from.
fn opened(documents: usize, kinds: &[u16]) -> Opened {
    let sections = kinds
        .iter()
        .map(|&kind| segment::Section {
            kind,
            bytes: Vec::new(),
        })
        .collect();
    let index = Indexed {
        lengths: vec![0; documents],
        entries: Vec::new(),
        fields: None,
        keys: None,
    };
    Opened {
        segment: Ok(segment::Segment { sections }),
        index: Ok(index),
    }
}

#[test]
fn the_sources_of_a_merge_have_the_deletions_the_view_has_beside_each_segment() {
    let mut disk = Disk::stored(&[3, 4, 2]);
    disk.delete(1, &Bitmap::from_sorted(&[0, 3]), 2).expect("deleted");
    disk.delete(2, &Bitmap::from_sorted(&[1]), 3).expect("deleted");
    let view = disk.view().expect("a view");

    let sources = gather(&view, 1, vec![opened(4, &[]), opened(2, &[])]).expect("gathered");
    assert_eq!(sources.len(), 2);
    assert_eq!(sources[0].deleted, Bitmap::from_sorted(&[0, 3]));
    assert_eq!(sources[0].index.lengths, [0; 4]);
    assert_eq!(sources[1].deleted, Bitmap::from_sorted(&[1]));
    assert_eq!(sources[1].index.lengths, [0; 2]);

    let sources = gather(&view, 0, vec![opened(3, &[])]).expect("gathered");
    assert!(sources[0].deleted.is_empty());
    assert!(gather(&view, 0, Vec::new()).expect("gathered").is_empty());
}

#[test]
fn what_is_wrong_with_the_first_segment_of_a_run_is_what_is_reported() {
    let mut disk = Disk::stored(&[3, 4]);
    disk.delete(1, &Bitmap::from_sorted(&[0, 3]), 2).expect("deleted");
    let view = disk.view().expect("a view");
    let refused = |start, run| gather(&view, start, run).map(|sources| sources.len());

    // A section that a merge cannot carry, ahead of deletions that do not fit.
    let run = vec![opened(3, &[777]), opened(2, &[])];
    assert_eq!(refused(0, run), Err(Error::UncarriedSection { kind: 777 }));
    let run = vec![opened(3, &[]), opened(2, &[])];
    let error = Error::NoSuchDocument {
        doc: 3,
        documents: 2,
    };
    assert_eq!(refused(0, run), Err(error));
    // What is wrong with the sections comes before what they hold, and what is wrong
    // with the index after it.
    let unread = |segment| {
        let index = Err(Error::Overflow);
        vec![Opened { segment, index }]
    };
    assert_eq!(refused(0, unread(Err(Error::BadMagic))), Err(Error::BadMagic));
    let odd = opened(3, &[777]).segment;
    assert_eq!(refused(0, unread(odd)), Err(Error::UncarriedSection { kind: 777 }));
    let none = opened(3, &[]).segment;
    assert_eq!(refused(0, unread(none)), Err(Error::Overflow));
    // A segment that the view does not have.
    let run = vec![opened(4, &[]), opened(4, &[])];
    assert_eq!(refused(1, run), Err(Error::MissingSection { kind: 0 }));
}

#[test]
fn the_end_of_a_commit_is_where_its_plan_ends() {
    let disk = Disk::stored(&[10, 10]);
    let segments = vec![(4, 9000), (3, 1)];
    let deletions = vec![(0, Bitmap::from_sorted(&[0])), (1, Bitmap::new())];
    let published = disk
        .store
        .publish_all(&segments, 1, &deletions, &vec![0, 0])
        .expect("published");
    let start = disk.store.segments_end();
    assert_eq!(disk.store.end_with(&segments, &deletions), Some(published.end));
    assert_eq!(published.end, start + 3 * u64::from(PAGE) + 2 * u64::from(PAGE));
    assert_eq!(disk.store.end_with(&Vec::new(), &Vec::new()), Some(start));
    assert_eq!(disk.store.end_with(&vec![(1, u64::MAX)], &Vec::new()), None);
}

#[test]
fn only_the_tables_up_to_the_one_that_decides_are_read() {
    // The older table is out of order, and the newest segment has the key.
    let mut disk = Disk::empty();
    disk.publish_all(
        vec![
            vec![(b"a".to_vec(), "one".to_string()), (b"b".to_vec(), "two".to_string())],
            vec![(b"b".to_vec(), "three".to_string())],
        ],
        &[],
    )
    .expect("published");
    let offset = disk.store.manifest.segments[0].offset as usize;
    let table = laid_out(&disk.segments[0]);
    let at = table.len() - 2 - 2;
    assert_eq!(&table[at..at + 2], b"ab");
    disk.bytes[offset + at..offset + at + 2].copy_from_slice(b"ba");
    let view = disk.view().expect("a view");
    assert_eq!(view.document(b"b").expect("reads"), Some((1, 0)));
}

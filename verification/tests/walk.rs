//! Recovering a log, over a ring that is a vector.
use kura_core::checksum::crc32;
use kura_core::codec::{get_u32, put_u32};
use kura_core::file::walk::{Aim, Look, Seen, Walk, WINDOW};
use kura_core::file::{Log, Store};
use kura_core::manifest::{Manifest, Slot, Superblock};
use kura_core::Error;

/// A log region small enough that a test can go round it, and a whole page, because
/// everything structural in a store is page aligned.
const RING: u64 = 4096;

/// The bytes of a record that are not its payload.
const HEADER: usize = 32;

const PAD: u32 = 0;
const UPSERT: u32 = 1;
const DELETE: u32 = 2;
const COMMIT: u32 = 3;

/// A payload that says which record it came from.
fn payload(n: u64, len: usize) -> Vec<u8> {
    (0..len)
        .map(|i| u8::try_from((n + i as u64) % 251).unwrap_or_default())
        .collect()
}

/// The bytes of a record: how long it is, what it is, its sequence, where it
/// starts, its payload and a checksum over all of it.
fn encoded(kind: u32, sequence: u64, payload: &[u8], span: u64, at: u64) -> Vec<u8> {
    let mut bytes = Vec::new();
    put_u32(&mut bytes, u32::try_from(span).expect("a span"));
    put_u32(&mut bytes, kind);
    bytes.extend_from_slice(&sequence.to_le_bytes());
    bytes.extend_from_slice(&at.to_le_bytes());
    put_u32(&mut bytes, payload.len() as u32);
    bytes.extend_from_slice(payload);
    let sum = crc32(&bytes);
    put_u32(&mut bytes, sum);
    bytes
}

/// A record that was written whole at that position, or nothing.
fn decoded(bytes: &[u8], at: u64) -> Option<(u32, u64, Vec<u8>)> {
    let (_, rest) = get_u32(bytes).ok()?;
    let (kind, rest) = get_u32(rest).ok()?;
    let sequence = u64::from_le_bytes(rest.get(..8)?.try_into().ok()?);
    let position = u64::from_le_bytes(rest.get(8..16)?.try_into().ok()?);
    let (len, rest) = get_u32(&rest[16..]).ok()?;
    let payload = rest.get(..len as usize)?.to_vec();
    let (sum, _) = get_u32(&rest[payload.len()..]).ok()?;
    let covered = HEADER - 4 + payload.len();
    if position != at || crc32(&bytes[..covered]) != sum {
        return None;
    }
    Some((kind, sequence, payload))
}

/// A store with a log and the bytes of it.
struct Disk {
    store: Store,
    bytes: Vec<u8>,
}

impl Disk {
    fn with_log(len: u64) -> Self {
        let superblock = Superblock {
            store: 1,
            created: 1,
            wal_offset: 4096,
            wal_len: len,
            segments_offset: 4096 + len,
        };
        Self {
            store: Store::create(superblock, 1),
            bytes: vec![0; superblock.segments_offset as usize],
        }
    }

    fn put(&mut self, at: u64, bytes: &[u8]) {
        let at = (self.store.superblock.wal_offset + at % self.store.superblock.wal_len) as usize;
        self.bytes[at..at + bytes.len()].copy_from_slice(bytes);
    }

    /// Puts a record at the tail, wrapping where it does not fit its lap.
    fn append(&mut self, kind: u32, payload: &[u8]) -> u64 {
        let Log {
            head,
            mut tail,
            sequence,
        } = self.store.log;
        let len = self.store.superblock.wal_len;
        let span = (HEADER + payload.len()) as u64;
        let lap = len - tail % len;
        if lap < span {
            if lap >= HEADER as u64 {
                self.put(tail, &encoded(PAD, sequence, &[], lap, tail));
            }
            tail += lap;
        }
        self.put(tail, &encoded(kind, sequence, payload, span, tail));
        self.store.log = Log::new(len, head, tail + span, sequence + 1).expect("it fits");
        sequence
    }

    fn commit(&mut self) {
        let next = self
            .store
            .commit(self.store.manifest.copy(), 2)
            .expect("committed");
        self.store.committed(next);
    }

    fn reopened(self) -> Self {
        let store = Store::open(
            self.store.superblock,
            self.store.manifest,
            Slot::B,
            self.bytes.len() as u64,
        )
        .expect("a store");
        Self { store, ..self }
    }

    /// Every record in the log, as a recovery sees them.
    fn replayed(&mut self) -> Vec<(u32, u64, Vec<u8>)> {
        let mut found = Vec::new();
        let mut walk = Walk::new(&self.store.superblock, &self.store.manifest, HEADER as u64);
        while let Aim::Read { at, len } = walk.aim() {
            let Some(window) = self.bytes.get(at as usize..(at + len) as usize) else {
                assert!(walk.unread(true));
                continue;
            };
            while let Look::Record { start, end } = walk.look(window).expect("looked") {
                let record = decoded(&window[start as usize..end as usize], walk.position());
                let seen = record.as_ref().map(|(kind, sequence, payload)| Seen {
                    pad: *kind == PAD,
                    sequence: *sequence,
                    payload: payload.len() as u64,
                });
                if walk.seen(end - start, seen) {
                    found.push(record.expect("a record to apply"));
                }
            }
        }
        let walked = walk.finish();
        assert_eq!(walked.records, found.len() as u64);
        let held: usize = found.iter().map(|(_, _, payload)| payload.len()).sum();
        assert_eq!(walked.bytes, held as u64);
        self.store.recovered(&walked).expect("positioned");
        found
    }
}

#[test]
fn a_commit_writes_where_the_log_is_rather_than_what_the_caller_says() {
    let mut disk = Disk::with_log(RING);
    disk.append(UPSERT, &payload(1, 40));
    let mut manifest = disk.store.manifest.copy();
    // Numbers a caller has no business setting, and which would cost the store a
    // record each if they were taken at face value.
    manifest.wal_head = 900;
    manifest.wal_tail = 900;
    manifest.wal_sequence = 900;
    let next = disk.store.commit(manifest, 2).expect("committed");
    disk.store.committed(next);
    assert_eq!(disk.store.manifest().wal_head, 0);
    assert_eq!(disk.store.manifest().wal_tail, disk.store.log().tail);
    assert_eq!(disk.store.manifest().wal_sequence, 2);
    let mut disk = disk.reopened();
    assert_eq!(disk.replayed().len(), 1);
}

#[test]
fn a_read_that_failed_is_not_the_end_of_the_log() {
    let mut disk = Disk::with_log(RING);
    disk.append(UPSERT, &payload(1, 40));
    let mut walk = Walk::new(&disk.store.superblock, &disk.store.manifest, HEADER as u64);
    let aim = walk.aim();
    assert!(matches!(aim, Aim::Read { .. }));
    // The walk is left where it was, and the failure is the caller's to report.
    assert!(!walk.unread(false));
    assert_eq!(walk.aim(), aim);
    // A file that is shorter than the log it claims is where the log ends.
    assert!(walk.unread(true));
    assert_eq!(walk.aim(), Aim::Done);
    assert_eq!(walk.finish().records, 0);
}

#[test]
fn a_new_store_has_an_empty_log() {
    let mut disk = Disk::with_log(RING);
    assert!(disk.store.log().is_empty());
    assert_eq!(disk.store.superblock().wal_len, RING);
    assert_eq!(disk.store.log().sequence, 1);
    assert!(disk.replayed().is_empty());
    assert!(disk.store.log().is_empty());
    assert_eq!(disk.store.log().sequence, 1);
}

#[test]
fn what_is_appended_to_the_log_is_there_when_the_store_is_opened_again() {
    let mut disk = Disk::with_log(RING);
    for n in 0..8 {
        let sequence = disk.append(UPSERT, &payload(n, 40));
        assert_eq!(sequence, n + 1);
    }
    // Nothing was committed after the appends, so the manifest still says the log
    // is empty. The records are found anyway, which is the whole point: the
    // committed tail is a floor and not a fact.
    let mut disk = disk.reopened();
    assert_eq!(disk.store.manifest().wal_tail, 0);
    let found = disk.replayed();
    assert_eq!(found.len(), 8);
    for (n, (kind, sequence, bytes)) in found.iter().enumerate() {
        let n = n as u64;
        assert_eq!(*kind, UPSERT);
        assert_eq!(*sequence, n + 1);
        assert_eq!(*bytes, payload(n, 40));
    }
    assert_eq!(disk.store.log().sequence, 9);
}

#[test]
fn a_recovery_follows_the_log_round_the_ring_without_reading_the_lap_before() {
    let mut disk = Disk::with_log(RING);
    for n in 0..16 {
        disk.append(UPSERT, &payload(n, 200));
    }
    // Everything so far is in a segment, as far as this test is concerned, so the
    // log is free to move over it.
    let through = disk.store.log().tail;
    disk.store.truncate_log(through).expect("truncated");
    disk.commit();
    for n in 100..110 {
        disk.append(DELETE, &payload(n, 200));
    }
    let tail = disk.store.log().tail;
    assert!(tail > RING, "the log has gone round");

    let mut disk = disk.reopened();
    let found = disk.replayed();
    assert_eq!(
        found.len(),
        10,
        "the walk did not stop where this lap stopped"
    );
    for (n, (kind, _, bytes)) in found.iter().enumerate() {
        assert_eq!(*kind, DELETE);
        assert_eq!(*bytes, payload(100 + n as u64, 200));
    }
    assert_eq!(disk.store.log().tail, tail);
    assert_eq!(disk.store.log().sequence, 27);
}

#[test]
fn a_torn_record_is_where_the_log_ends_and_the_next_append_takes_its_place() {
    let mut disk = Disk::with_log(RING);
    disk.append(UPSERT, &payload(1, 40));
    disk.append(UPSERT, &payload(2, 40));
    let at = disk.store.log().tail;
    for n in 3..5 {
        disk.append(UPSERT, &payload(n, 40));
    }
    // A record that was being written when the machine stopped.
    let torn = (disk.store.superblock.wal_offset + at + 20) as usize;
    disk.bytes[torn] ^= 0xff;

    let mut disk = disk.reopened();
    let found = disk.replayed();
    assert_eq!(found.len(), 2);
    assert_eq!(disk.store.log().tail, at);
    assert_eq!(disk.store.log().sequence, 3);
    // And the log carries on from there, into the bytes the torn record and the one
    // after it were in.
    disk.append(COMMIT, &payload(9, 12));

    let mut disk = disk.reopened();
    let found = disk.replayed();
    assert_eq!(found.len(), 3);
    assert_eq!(found[2].0, COMMIT);
    assert_eq!(found[2].1, 3);
    assert_eq!(found[2].2, payload(9, 12));
}

#[test]
fn a_record_larger_than_a_recovery_window_is_read_on_its_own() {
    let big = (WINDOW + WINDOW / 2) as usize;
    let mut disk = Disk::with_log(8 * 1024 * 1024);
    disk.append(UPSERT, &payload(1, 64));
    disk.append(UPSERT, &payload(2, big));
    disk.append(UPSERT, &payload(3, 64));

    let mut disk = disk.reopened();
    let found = disk.replayed();
    assert_eq!(found.len(), 3);
    assert_eq!(found[1].2, payload(2, big));
    assert_eq!(found[2].2, payload(3, 64));
}

#[test]
fn a_record_of_an_earlier_lap_is_not_applied() {
    let mut disk = Disk::with_log(RING);
    for n in 0..20 {
        disk.append(UPSERT, &payload(n, 100));
    }
    let through = disk.store.log().tail;
    disk.store.truncate_log(through).expect("truncated");
    disk.commit();
    // Nothing was written after the head, and the lap before is still all there.
    let mut disk = disk.reopened();
    assert!(disk.replayed().is_empty());
    assert_eq!(disk.store.log().tail, through);
    assert_eq!(disk.store.log().sequence, 21);
}

#[test]
fn a_file_shorter_than_its_log_ends_the_walk_where_the_bytes_end() {
    let mut disk = Disk::with_log(RING);
    disk.append(UPSERT, &payload(1, 40));
    disk.bytes.truncate(4096 + 100);
    assert!(disk.replayed().is_empty());
    assert_eq!(disk.store.log().tail, 0);
    assert_eq!(disk.store.log().sequence, 1);
}

#[test]
fn a_sequence_is_never_handed_out_twice() {
    // The log was torn at its first record, and the committed sequence is a floor.
    let mut manifest = Manifest::empty(1);
    manifest.wal_sequence = 40;
    let superblock = Disk::with_log(RING).store.superblock;
    let mut walk = Walk::new(&superblock, &manifest, HEADER as u64);
    assert_eq!(walk.aim(), Aim::Read { at: 4096, len: RING });
    let window = vec![0; RING as usize];
    assert_eq!(walk.look(&window), Ok(Look::Record { start: 0, end: 0 }));
    assert!(!walk.seen(0, None));
    assert_eq!(walk.look(&window), Ok(Look::Done));
    assert_eq!(walk.aim(), Aim::Done);
    assert_eq!(walk.finish().sequence, 40);
    assert_eq!(walk.finish().records, 0);
}

#[test]
fn a_record_that_claims_more_than_its_lap_ends_the_walk() {
    let superblock = Disk::with_log(RING).store.superblock;
    let mut walk = Walk::new(&superblock, &Manifest::empty(1), HEADER as u64);
    assert_eq!(walk.aim(), Aim::Read { at: 4096, len: RING });
    let mut window = vec![0; RING as usize];
    window[..4].copy_from_slice(&5000u32.to_le_bytes());
    assert_eq!(walk.look(&window), Ok(Look::Done));
    assert_eq!(walk.aim(), Aim::Done);
}

#[test]
fn a_place_too_close_to_the_end_for_a_record_is_one_where_the_writer_wrapped() {
    let superblock = Disk::with_log(RING).store.superblock;
    let mut manifest = Manifest::empty(1);
    manifest.wal_head = RING - 8;
    let mut walk = Walk::new(&superblock, &manifest, HEADER as u64);
    assert_eq!(walk.aim(), Aim::Read { at: 4096, len: RING });
    assert_eq!(walk.position(), RING);
    let bad = Log::new(RING, 5, 4, 0);
    assert_eq!(bad, Err(Error::BadPositions { head: 5, tail: 4 }));
}

#[test]
fn a_store_without_a_log_has_nothing_to_walk() {
    let disk = Disk::with_log(0);
    let mut walk = Walk::new(&disk.store.superblock, &disk.store.manifest, HEADER as u64);
    assert_eq!(walk.aim(), Aim::Done);
    let walked = walk.finish();
    assert_eq!(walked.records, 0);
    assert_eq!(walked.position, disk.store.manifest.wal_head);
    assert_eq!(walked.sequence, disk.store.manifest.wal_sequence);
}

#[test]
fn a_log_at_the_end_of_what_positions_say_is_walked_as_far_as_they_go() {
    let mut disk = Disk::with_log(5000);
    let head = u64::MAX - 100;
    disk.store.manifest.wal_head = head;
    disk.store.manifest.wal_tail = head;
    let walked = |disk: &Disk| {
        let mut walk = Walk::new(&disk.store.superblock, &disk.store.manifest, HEADER as u64);
        while let Aim::Read { at, len } = walk.aim() {
            let window = &disk.bytes[at as usize..(at + len) as usize];
            while let Look::Record { start, end } = walk.look(window).expect("looked") {
                let record = decoded(&window[start as usize..end as usize], walk.position());
                let seen = record.map(|(_, sequence, payload)| Seen {
                    pad: false,
                    sequence,
                    payload: payload.len() as u64,
                });
                walk.seen(end - start, seen);
            }
        }
        walk.finish()
    };
    assert_eq!(walked(&disk).records, 0);
    assert_eq!(walked(&disk).position, head);
    // One record fits before the last position, and the next does not.
    disk.put(head, &encoded(UPSERT, 1, &[7], HEADER as u64 + 1, head));
    let next = head + HEADER as u64 + 1;
    disk.put(next, &encoded(UPSERT, 2, &payload(1, 60), HEADER as u64 + 60, next));
    assert_eq!(walked(&disk).records, 1);
    assert_eq!(walked(&disk).position, next);
}

#[test]
fn a_walk_from_where_one_ended_finds_nothing() {
    let mut disk = Disk::with_log(RING);
    disk.append(UPSERT, &payload(1, 40));
    disk.append(DELETE, &payload(2, 7));
    assert_eq!(disk.replayed().len(), 2);
    let end = disk.store.log().tail;
    disk.store.truncate_log(end).expect("freed");
    disk.commit();
    assert_eq!(disk.store.manifest().wal_head, end);
    let mut disk = disk.reopened();
    assert!(disk.replayed().is_empty());
    assert_eq!(disk.store.log().tail, end);
    // A record that is torn ends a walk as one that is not there does.
    let at = disk.store.log().tail;
    let mut torn = encoded(UPSERT, 3, &payload(3, 20), HEADER as u64 + 20, at);
    torn[HEADER] ^= 1;
    disk.put(at, &torn);
    assert!(disk.replayed().is_empty());
    assert!(disk.replayed().is_empty());
}

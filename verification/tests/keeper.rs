//! What a keeper counts and decides.
use kura_core::bitmap::Bitmap;
use kura_core::file::publish::Compacted;
use kura_core::file::Store;
use kura_core::keeper::{still_there, Pressure, Tally};
use kura_core::manifest::Superblock;
use kura_core::Error;

/// A store of two segments, the second of which hides two documents, and the bytes
/// of its file.
fn stored() -> (Store, Vec<u8>) {
    let superblock = Superblock {
        store: 1,
        created: 1,
        wal_offset: 0,
        wal_len: 4096,
        segments_offset: 4096,
    };
    let mut store = Store::create(superblock, 1);
    let deletions = vec![(1, Bitmap::from_sorted(&[0, 3]))];
    let published = store
        .publish_all(&vec![(5, 10), (6, 10)], 1, &deletions, &vec![0])
        .expect("published");
    let mut bytes = vec![0; published.end as usize];
    let set = &published.tombstones[0];
    let at = set.segment.tombstones_offset as usize;
    bytes[at..at + set.bytes.len()].copy_from_slice(&set.bytes);
    store.segments = published.end;
    let next = store.commit(published.manifest, 1).expect("committed");
    store.committed(next);
    (store, bytes)
}

#[test]
fn a_round_that_has_nothing_to_do_asks_for_nothing() {
    let (store, bytes) = stored();
    let view = store.view(&bytes, 0).expect("a view");
    let mut tally = Tally::default();
    assert_eq!(tally.due(&view, Pressure::Clear), Ok(None));
    assert_eq!(tally.highest, 2);
    assert_eq!(tally.behind, 0);
    assert_eq!(tally.folds, 0);
}

#[test]
fn a_round_with_a_fold_due_counts_what_each_segment_hides() {
    let (store, bytes) = stored();
    let view = store.view(&bytes, 0).expect("a view");
    let mut tally = Tally::default();
    assert_eq!(tally.due(&view, Pressure::Due), Ok(Some(vec![0, 2])));
    assert_eq!(tally.behind, 0);
    assert_eq!(tally.due(&view, Pressure::Stalled), Ok(Some(vec![0, 2])));
    assert_eq!(tally.behind, 1);
    assert_eq!(tally.highest, 2);
}

#[test]
fn deletions_that_do_not_decode_are_reported() {
    let (store, mut bytes) = stored();
    let at = store.manifest().segments[1].tombstones_offset as usize;
    bytes[at] ^= 0xff;
    let view = store.view(&bytes, 0).expect("a view");
    let mut tally = Tally::default();
    assert_eq!(tally.due(&view, Pressure::Due), Err(Error::BadMagic));
}

#[test]
fn the_most_segments_seen_at_once_is_kept() {
    let mut tally = Tally::default();
    assert!(!tally.saw(9, Pressure::Clear));
    assert!(tally.saw(4, Pressure::Due));
    assert!(tally.saw(7, Pressure::Stalled));
    assert_eq!(tally.highest, 9);
    assert_eq!(tally.behind, 1);
}

#[test]
fn a_fold_is_counted_by_what_it_replaced_and_what_came_out() {
    let mut tally = Tally::default();
    let done = Compacted {
        folded: 3,
        documents: 28,
        ..Compacted::default()
    };
    tally.folded(&done, 40);
    tally.folded(&done, 2);
    assert_eq!(tally.folds, 2);
    assert_eq!(tally.segments, 6);
    assert_eq!(tally.documents, 56);
    assert_eq!(tally.took, 42);

    tally.took = u64::MAX;
    tally.folded(&done, 2);
    assert_eq!(tally.took, 1);
}

#[test]
fn a_run_past_the_segments_there_are_is_not_there() {
    assert!(still_there(3, 3));
    assert!(!still_there(4, 3));
}

//! What a query counted.
use kura_core::explain::{Counters, Off, Tally};

/// What fraction of the postings in the lists were never unpacked.
fn skipped(counters: &Counters) -> f32 {
    let (read, postings) = counters.read();
    if postings == 0 {
        return 0.0;
    }
    1.0 - (read as f32 / postings as f32)
}

#[test]
fn a_query_that_read_nothing_skipped_everything() {
    let mut counters = Counters::default();
    counters.opened(1, 1_000, 8);
    assert!((skipped(&counters) - 1.0).abs() < 1e-6);
}

#[test]
fn a_query_that_read_everything_skipped_nothing() {
    let mut counters = Counters::default();
    counters.opened(1, 1_000, 8);
    counters.decoded(8, 1_000);
    assert!(skipped(&counters).abs() < 1e-6);
}

#[test]
fn a_block_decode_past_the_end_of_a_list_does_not_read_a_negative_fraction() {
    // The last block of a list is padded out to a whole block, so the
    // postings decoded can exceed the postings in the list. The fraction is
    // a fraction either way.
    let mut counters = Counters::default();
    counters.opened(1, 100, 1);
    counters.decoded(1, 128);
    assert!(skipped(&counters).abs() < 1e-6);
}

#[test]
fn an_empty_query_reports_nothing_rather_than_dividing_by_zero() {
    assert!(skipped(&Counters::default()).abs() < 1e-6);
}

#[test]
fn every_count_goes_where_it_belongs() {
    let mut counters = Counters::default();
    counters.opened(2, 900, 8);
    counters.scored();
    counters.scored();
    counters.hidden();
    counters.sought();
    counters.advanced();
    counters.decoded(3, 384);
    assert_eq!(
        counters,
        Counters {
            terms: 2,
            postings: 900,
            blocks: 8,
            blocks_decoded: 3,
            blocks_skipped: 5,
            postings_decoded: 384,
            documents_scored: 2,
            documents_hidden: 1,
            seeks: 1,
            advances: 1,
        }
    );
}

#[test]
fn reading_more_blocks_than_there_are_skips_none() {
    let mut counters = Counters::default();
    counters.opened(1, 100, 1);
    counters.decoded(2, 256);
    assert_eq!(counters.blocks_skipped, 0);
    assert_eq!(counters.read(), (100, 100));
}

#[test]
fn a_tally_that_keeps_nothing_keeps_nothing() {
    let mut off = Off::default();
    off.opened(1, 2, 3);
    off.scored();
    off.hidden();
    off.sought();
    off.advanced();
    off.decoded(4, 5);
    assert_eq!(off, Off);
}

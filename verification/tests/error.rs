//! What an error says.
use kura_core::Error;

#[test]
fn every_error_says_what_is_wrong() {
    let said = [
        (
            Error::Truncated {
                needed: 8,
                available: 3,
            },
            "input ended early: needed 8 bytes, 3 left",
        ),
        (Error::Overflow, "variable length integer did not terminate"),
        (Error::BadMagic, "not a kura file"),
        (
            Error::UnsupportedVersion {
                found: 9,
                expected: 2,
            },
            "format version 9 is not readable by this build, which writes 2",
        ),
        (
            Error::ChecksumMismatch {
                stored: 0xab,
                computed: 0xdead_beef,
            },
            "checksum mismatch: stored 0x000000ab, computed 0xdeadbeef",
        ),
        (
            Error::Xxh3Mismatch {
                stored: 1,
                computed: u128::MAX,
            },
            "checksum mismatch: stored 0x00000000000000000000000000000001, \
             computed 0xffffffffffffffffffffffffffffffff",
        ),
        (Error::NoManifest, "neither manifest slot is readable"),
        (
            Error::TooManySegments { count: 70_000 },
            "manifest claims 70000 segments, which is more than one slot holds",
        ),
        (
            Error::UnsupportedPageSize {
                found: 16_384,
                expected: 4096,
            },
            "page size 16384 is not the 4096 this build uses",
        ),
        (
            Error::BadRecord { length: 3 },
            "a log record cannot be 3 bytes long",
        ),
        (
            Error::UnknownRecord {
                kind: 4242,
                position: 70,
            },
            "the log holds a record of kind 4242 at 70 that this build cannot apply",
        ),
        (
            Error::LogFull {
                needed: 100,
                free: 0,
            },
            "log record needs 100 bytes and 0 are free",
        ),
        (
            Error::BadPositions {
                head: 10,
                tail: u64::MAX,
            },
            "log head 10 and tail 18446744073709551615 do not describe a ring",
        ),
        (
            Error::TooManyDocuments {
                count: 5_000_000_000,
            },
            "these segments hold 5000000000 documents between them, which is more than one \
             search can number",
        ),
        (
            Error::StaleGeneration {
                offset: 4096,
                committed: 2,
                given: 1,
            },
            "a commit puts the segment at 4096 back to tombstone generation 1 from 2",
        ),
        (
            Error::RepeatedSegment { at: 7 },
            "one commit names segment 7 twice",
        ),
        (
            Error::StaleView {
                read: 2,
                committed: 3,
            },
            "this batch was built on epoch 2 and the store is at 3",
        ),
        (
            Error::NoSuchDocument {
                doc: 20,
                documents: 20,
            },
            "a deletion names document 20 in a segment of 20 documents",
        ),
        (
            Error::DimensionMismatch { left: 3, right: 4 },
            "vectors of different lengths: 3 and 4",
        ),
        (Error::NotSorted { at: 5 }, "input is not ascending at 5"),
        (
            Error::BadCardinality {
                stated: 4,
                found: 5,
            },
            "a container of 4 members holds 5",
        ),
        (
            Error::BadOffset {
                stated: 16,
                found: 20,
            },
            "a container said it starts at 16 and starts at 20",
        ),
        (
            Error::BadPrefix {
                shared: 9,
                available: 2,
            },
            "term shares 9 bytes with a term that is only 2 long",
        ),
        (
            Error::DuplicateSection { kind: 3 },
            "section kind 3 appears more than once",
        ),
        (
            Error::TooManySections { count: 300 },
            "segment claims 300 sections, which is more than the format allows",
        ),
        (
            Error::SectionOutOfRange {
                kind: 2,
                offset: 100,
                length: 50,
            },
            "section kind 2 claims bytes 100..150 which are not in the segment",
        ),
        (
            Error::SectionOutOfRange {
                kind: 2,
                offset: u64::MAX,
                length: 50,
            },
            "section kind 2 claims bytes 18446744073709551615..18446744073709551615 which are \
             not in the segment",
        ),
        (Error::BadFooter, "this segment does not end in a footer"),
        (
            Error::BodyLengthMismatch {
                header: 9,
                footer: 10,
            },
            "the header says the body is 9 bytes and the footer says 10",
        ),
        (
            Error::SectionChecksumMismatch {
                kind: 6,
                stored: 0,
                computed: 0x1f,
            },
            "section kind 6 does not match its checksum: stored \
             0x00000000000000000000000000000000, computed 0x0000000000000000000000000000001f",
        ),
        (
            Error::BadBlock,
            "a compressed block does not decode to what it should",
        ),
        (
            Error::MissingSection { kind: 0 },
            "the segment has no section of kind 0",
        ),
        (
            Error::UncarriedSection { kind: 9 },
            "a section of kind 9 cannot be carried across",
        ),
    ];
    for (error, message) in said {
        assert_eq!(error.message(), message);
    }
}

//! The checksum on concrete bytes.
use kura_core::checksum::{crc32, tables, Crc32};

#[test]
fn matches_the_published_check_value() {
    // Every CRC-32 implementation in the world agrees on this one, which is
    // the point of it. If this fails, the parameters are wrong rather than
    // the code, and every file this build writes is unreadable by anything
    // that computes the checksum correctly.
    assert_eq!(crc32(b"123456789"), 0xCBF4_3926);
}

#[test]
fn the_empty_input_is_zero() {
    assert_eq!(crc32(b""), 0);
}

#[test]
fn feeding_in_pieces_matches_feeding_all_at_once() {
    let data: Vec<u8> = (0..1000u32).map(|i| (i % 251) as u8).collect();
    let whole = crc32(&data);

    // The splits matter. A piece shorter than
    // sixteen bytes goes down the leftover path entirely, and a split at
    // anything other than a multiple of sixteen leaves the second piece
    // starting out of step with the block the first one was walking. Both
    // have to land on the same answer as one call over the lot.
    for split in [0, 1, 7, 15, 16, 17, 31, 256, 257, 993, 999, 1000] {
        let mut hasher = Crc32::new();
        hasher.update(&data[..split]);
        hasher.update(&data[split..]);
        assert_eq!(hasher.finish(), whole, "split at {split}");
    }
}

/// One byte at a time, because the check value pins down one input and the fast
/// path has a leftover, a block boundary and four words inside a block to get
/// wrong, none of which that one input exercises.
fn a_byte_at_a_time(table: &[u32], bytes: &[u8]) -> u32 {
    let mut state = !0u32;
    for &byte in bytes {
        let index = (state ^ u32::from(byte)) & 0xff;
        state = table[index as usize] ^ (state >> 8);
    }
    !state
}

#[test]
fn the_reference_agrees_with_the_published_check_value() {
    // Otherwise the test below compares two wrong things to each other.
    assert_eq!(a_byte_at_a_time(&tables()[0], b"123456789"), 0xCBF4_3926);
}

#[test]
fn sixteen_bytes_at_a_time_agrees_with_one_at_a_time_at_every_length() {
    let data: Vec<u8> = (0..600u32)
        .map(|i| (i.wrapping_mul(37) % 253) as u8)
        .collect();
    let table = tables().swap_remove(0);
    for length in 0..data.len() {
        let slice = &data[..length];
        assert_eq!(crc32(slice), a_byte_at_a_time(&table, slice), "length {length}");
    }
}

#[test]
fn the_tables_are_the_serial_loop_run_ahead() {
    // Table n has to be what you get by pushing table n minus one through
    // one more byte of zeroes. If that ever stops holding, the fast path
    // and the leftover path disagree on inputs long enough to reach the
    // fast path and on nothing else, which is a bug that hides in exactly
    // the files too large to check by hand.
    let tables = tables();
    for (step, pair) in tables.windows(2).enumerate() {
        for (index, (&previous, &entry)) in pair[0].iter().zip(&pair[1]).enumerate() {
            let expected = (previous >> 8) ^ tables[0][(previous & 0xff) as usize];
            assert_eq!(entry, expected, "table {} entry {index}", step + 1);
        }
    }
}

#[test]
fn one_flipped_bit_changes_the_result() {
    let mut data = vec![0u8; 64];
    let clean = crc32(&data);
    for byte in 0..data.len() {
        for bit in 0..8 {
            data[byte] ^= 1 << bit;
            assert_ne!(crc32(&data), clean, "byte {byte} bit {bit}");
            data[byte] ^= 1 << bit;
        }
    }
}

#[test]
fn trailing_zeroes_are_not_invisible() {
    // A checksum that misses appended zeroes is a checksum that misses a
    // truncated write padded back out to length, which is exactly the
    // corruption a power cut produces.
    assert_ne!(crc32(b"kura"), crc32(b"kura\0"));
    assert_ne!(crc32(b"kura\0"), crc32(b"kura\0\0"));
}

//! Document lengths in one byte.
use kura_core::length::{of, round, ESCAPE, EXACT, LONGEST};

#[test]
fn a_short_document_keeps_its_length_to_the_word() {
    for length in 0..EXACT {
        assert_eq!(of(round(length)), length, "at {length}");
    }
}

#[test]
fn rounding_a_length_never_shortens_it() {
    // Every length up to a hundred thousand, then the powers of two and
    // their neighbours out to the top, which is where the carry from a full
    // mantissa into the next exponent lives, and then the far end, where
    // the escape is the only honest answer.
    for length in 0..100_000u32 {
        let back = of(round(length));
        assert!(back >= length, "{length} came back as {back}");
    }
    for bit in 5..32u32 {
        for length in [(1u32 << bit) - 1, 1u32 << bit, (1u32 << bit) + 1] {
            let back = of(round(length));
            assert!(back >= length, "{length} came back as {back}");
        }
    }
    for length in [LONGEST, LONGEST + 1, u32::MAX - 1, u32::MAX] {
        let back = of(round(length));
        assert!(back >= length, "{length} came back as {back}");
    }
}

#[test]
fn rounding_a_length_never_adds_more_than_a_sixteenth() {
    for length in EXACT..200_000u32 {
        let back = of(round(length));
        assert!(
            back <= length + length / 16 + 1,
            "{length} came back as {back}"
        );
    }
}

#[test]
fn the_codes_read_back_in_the_order_they_were_written() {
    // The walk that reads these compares them to each other in places, so a
    // larger code has to mean a longer document with no exceptions.
    let mut last = 0;
    for code in 0..=u8::MAX {
        let length = of(code);
        assert!(
            code == 0 || length > last,
            "code {code} is {length} after {last}"
        );
        last = length;
    }
}

#[test]
fn a_document_longer_than_the_top_code_escapes_rather_than_clamps() {
    // The bug this exists to stop is the clamp. A length that came back as
    // LONGEST would be a length rounded down, and a length rounded down is
    // a score rounded up, on the very documents the length norm is there to
    // hold back.
    assert_eq!(round(LONGEST), 254);
    assert_eq!(of(254), LONGEST);
    assert_eq!(round(LONGEST + 1), ESCAPE);
    assert_eq!(round(u32::MAX), ESCAPE);
    assert_eq!(of(ESCAPE), u32::MAX);
}

#[test]
fn every_code_is_the_code_its_own_length_rounds_to() {
    // A round trip the other way round, which is what says the two
    // functions are inverses rather than merely close.
    for code in 0..=u8::MAX {
        assert_eq!(round(of(code)), code, "at code {code}");
    }
    // And every code below the escape is a length, so none of them is the
    // escape by accident.
    for code in 0..u8::MAX {
        assert!(of(code) <= LONGEST, "code {code} is past the top length");
    }
}

//! The integer codecs on concrete values.
use kura_core::codec::{
    get_ivarint, get_u16, get_u32, get_u64, get_uvarint, put_ivarint, put_u16, put_u32, put_u64,
    put_uvarint, split_at, zigzag_decode, zigzag_encode, MAX_VARINT_LEN64,
};
use kura_core::Error;

#[test]
fn round_trips_every_boundary() {
    // One value on each side of every byte width boundary, which is where a
    // shift is most likely to be off by one.
    let mut values = vec![0u64, 1, 127, 128, u64::MAX, u64::MAX - 1];
    for shift in 0..64 {
        values.push(1u64 << shift);
    }

    for value in values {
        let mut buf = Vec::new();
        let written = put_uvarint(&mut buf, value);
        assert_eq!(written, buf.len());
        assert!(written <= MAX_VARINT_LEN64);

        let (decoded, rest) = get_uvarint(&buf).expect("decode");
        assert_eq!(decoded, value, "value {value}");
        assert!(rest.is_empty());
    }
}

#[test]
fn small_values_cost_one_byte() {
    for value in 0..128u64 {
        let mut buf = Vec::new();
        assert_eq!(put_uvarint(&mut buf, value), 1);
    }
}

#[test]
fn signed_values_near_zero_stay_small() {
    for value in -63..=63i64 {
        let mut buf = Vec::new();
        assert_eq!(put_ivarint(&mut buf, value), 1, "value {value}");
        let (decoded, _) = get_ivarint(&buf).expect("decode");
        assert_eq!(decoded, value);
    }
}

#[test]
fn signed_round_trips_the_extremes() {
    for value in [i64::MIN, i64::MIN + 1, -1, 0, 1, i64::MAX - 1, i64::MAX] {
        let mut buf = Vec::new();
        put_ivarint(&mut buf, value);
        let (decoded, _) = get_ivarint(&buf).expect("decode");
        assert_eq!(decoded, value);
    }
}

#[test]
fn truncated_input_is_an_error_not_a_panic() {
    let mut buf = Vec::new();
    put_uvarint(&mut buf, u64::MAX);
    for len in 0..buf.len() {
        let err = get_uvarint(&buf[..len]).expect_err("short input should fail");
        assert!(matches!(err, Error::Truncated { .. }), "len {len}: {err:?}");
    }
}

#[test]
fn a_value_that_never_terminates_is_rejected() {
    let never_ends = [0xffu8; 16];
    assert_eq!(get_uvarint(&never_ends), Err(Error::Overflow));
}

#[test]
fn an_overlong_encoding_is_rejected() {
    // Ten bytes where the last carries more than the single bit a u64 has
    // left. Accepting this would give two encodings for one value, and a
    // format with two encodings for one value has a canonicalisation bug
    // waiting in it.
    let mut overlong = [0x80u8; 10];
    overlong[9] = 0x02;
    assert_eq!(get_uvarint(&overlong), Err(Error::Overflow));
}

#[test]
fn decoding_leaves_the_rest_of_the_input_alone() {
    let mut buf = Vec::new();
    put_uvarint(&mut buf, 300);
    buf.extend_from_slice(b"tail");

    let (value, rest) = get_uvarint(&buf).expect("decode");
    assert_eq!(value, 300);
    assert_eq!(rest, b"tail");
}

#[test]
fn u32_round_trips_and_reports_truncation() {
    let mut buf = Vec::new();
    put_u32(&mut buf, 0xdead_beef);
    let (value, rest) = get_u32(&buf).expect("decode");
    assert_eq!(value, 0xdead_beef);
    assert!(rest.is_empty());

    assert!(matches!(
        get_u32(&buf[..3]),
        Err(Error::Truncated {
            needed: 4,
            available: 3
        })
    ));
}

#[test]
fn a_fixed_width_integer_is_its_bytes_smallest_first() {
    let mut buf = Vec::new();
    put_u16(&mut buf, 0x0102);
    put_u32(&mut buf, 0x0304_0506);
    put_u64(&mut buf, 0x0708_090a_0b0c_0d0e);
    assert_eq!(
        buf,
        [2, 1, 6, 5, 4, 3, 0x0e, 0x0d, 0x0c, 0x0b, 0x0a, 9, 8, 7]
    );
    let (short, rest) = get_u16(&buf).expect("decode");
    let (middle, rest) = get_u32(rest).expect("decode");
    let (long, rest) = get_u64(rest).expect("decode");
    assert_eq!((short, middle, long), (0x0102, 0x0304_0506, 0x0708_090a_0b0c_0d0e));
    assert!(rest.is_empty());
}

#[test]
fn a_fixed_width_integer_cut_short_says_how_much_is_missing() {
    assert_eq!(
        get_u16(&[1]),
        Err(Error::Truncated {
            needed: 2,
            available: 1
        })
    );
    assert_eq!(
        get_u64(&[1, 2, 3]),
        Err(Error::Truncated {
            needed: 8,
            available: 3
        })
    );
}

#[test]
fn a_split_is_two_pieces_or_says_how_much_is_missing() {
    assert_eq!(split_at(b"kura", 1), Ok((&b"k"[..], &b"ura"[..])));
    assert_eq!(split_at(b"kura", 4), Ok((&b"kura"[..], &b""[..])));
    assert_eq!(
        split_at(b"kura", 5),
        Err(Error::Truncated {
            needed: 5,
            available: 4
        })
    );
}

#[test]
fn the_zigzag_mapping_goes_back_and_forth() {
    for (signed, unsigned) in [(0, 0), (-1, 1), (1, 2), (-2, 3), (i64::MAX, u64::MAX - 1)] {
        assert_eq!(zigzag_encode(signed), unsigned);
        assert_eq!(zigzag_decode(unsigned), signed);
    }
    assert_eq!(zigzag_encode(i64::MIN), u64::MAX);
    assert_eq!(zigzag_decode(u64::MAX), i64::MIN);
}

//! Packed blocks on concrete values.
use kura_core::bitpack::{pack, pack_flat, packed_len, unpack, unpack_flat, BLOCK, LANES, MAX_WIDTH};
use kura_core::Error;

/// A block whose gaps are `gap` apart, starting just above `base`.
fn ascending(base: u32, gap: u32) -> [u32; BLOCK] {
    let mut values = [0u32; BLOCK];
    let mut current = base;
    for slot in &mut values {
        current += gap;
        *slot = current;
    }
    values
}

/// The layout written the plain way, a value at a time.
///
/// A packer that wrote another layout and read it back would pass every round
/// trip test in this file.
fn reference(values: &[u32; BLOCK], width: u32) -> Vec<u8> {
    let mut words = vec![0u32; width as usize * LANES];
    for (step, chunk) in values.chunks_exact(LANES).enumerate() {
        let bit = step * width as usize;
        let word = bit / 32;
        let shift = u32::try_from(bit % 32).unwrap_or(0);
        for (lane, value) in chunk.iter().enumerate() {
            words[word * LANES + lane] |= value << shift;
            if shift + width > 32 {
                words[(word + 1) * LANES + lane] |= value >> (32 - shift);
            }
        }
    }
    words.iter().flat_map(|word| word.to_le_bytes()).collect()
}

/// Values that fill `width` bits and vary from one another.
fn spread(width: u32, seed: u32) -> [u32; BLOCK] {
    let mask = if width == MAX_WIDTH {
        u32::MAX
    } else {
        (1u32 << width) - 1
    };
    let mut values = [0u32; BLOCK];
    let mut state = seed | 1;
    for (k, slot) in values.iter_mut().enumerate() {
        state ^= state << 13;
        state ^= state >> 17;
        state ^= state << 5;
        // One value is the mask itself, so the block is packed at exactly
        // the width asked for rather than at whatever the noise reached.
        *slot = if k == 0 { mask } else { state & mask };
    }
    values
}

fn round_trip(values: &[u32; BLOCK], base: u32) {
    let mut bytes = Vec::new();
    let width = pack(values, base, &mut bytes);
    assert_eq!(bytes.len(), packed_len(width), "width {width}");

    let mut out = [0u32; BLOCK];
    let read = unpack(&bytes, width, base, &mut out).expect("unpack");
    assert_eq!(read, bytes.len());
    assert_eq!(&out, values, "width {width}");
}

#[test]
fn round_trips_every_gap_size() {
    // One gap on each side of every power of two, which is where a width is
    // most likely to be chosen one bit short. The largest gap is bounded so
    // that a hundred and twenty eight of them still fit in the identifier
    // space, because a block that wrapped would be testing the arithmetic
    // rather than the widths.
    for shift in 0..24 {
        let gap = 1u32 << shift;
        for gap in [gap, gap + 1] {
            round_trip(&ascending(0, gap), 0);
            round_trip(&ascending(1_000_000, gap), 1_000_000);
        }
    }
}

#[test]
fn round_trips_at_every_width() {
    // Drive the width directly by choosing the gaps, so that all thirty two
    // are exercised rather than whichever ones an ascending list happens to
    // produce. The widest gap wraps the identifier space, which is the one
    // case the packing has to carry without the values meaning anything.
    for width in 1..=MAX_WIDTH {
        let top = if width == MAX_WIDTH {
            u32::MAX
        } else {
            (1u32 << width) - 1
        };
        let mut values = [0u32; BLOCK];
        for slot in &mut values[..LANES] {
            *slot = 1;
        }
        for k in LANES..BLOCK {
            let gap = if k == LANES { top } else { 1 };
            values[k] = values[k - LANES].wrapping_add(gap);
        }

        let mut bytes = Vec::new();
        let used = pack(&values, 1, &mut bytes);
        assert_eq!(used, width, "expected width {width}");

        let mut out = [0u32; BLOCK];
        unpack(&bytes, used, 1, &mut out).expect("unpack");
        assert_eq!(out, values, "width {width}");
    }
}

#[test]
fn every_kernel_writes_what_the_plain_loop_would_have() {
    for width in 1..=MAX_WIDTH {
        let values = spread(width, width.wrapping_mul(2_654_435_761));
        let mut bytes = Vec::new();
        let used = pack_flat(&values, &mut bytes);
        assert_eq!(used, width, "expected width {width}");
        assert_eq!(bytes, reference(&values, width), "width {width}");
    }
}

#[test]
fn every_kernel_reads_a_full_block_back() {
    for width in 1..=MAX_WIDTH {
        let values = spread(width, width * 40_503);
        let mut bytes = Vec::new();
        let used = pack_flat(&values, &mut bytes);
        assert_eq!(used, width, "expected width {width}");

        let mut out = [0u32; BLOCK];
        let read = unpack_flat(&bytes, used, &mut out).expect("unpack");
        assert_eq!(read, bytes.len(), "width {width}");
        assert_eq!(out, values, "width {width}");
    }
}

#[test]
fn the_widest_block_is_the_size_it_says() {
    assert_eq!(packed_len(32), BLOCK * 4);
    assert_eq!(packed_len(1), BLOCK / 8);
}

#[test]
fn a_dense_block_costs_a_few_bits_an_id() {
    let mut bytes = Vec::new();
    let width = pack(&ascending(0, 1), 0, &mut bytes);
    // Counting from four positions back turns a gap of one into a gap of
    // four, which is three bits. Two bits more than adjacent gaps would
    // need, and the whole reason the decode runs four at a time.
    assert_eq!(width, 3);
    assert_eq!(bytes.len(), 48);
}

#[test]
fn a_truncated_block_is_an_error_not_a_panic() {
    let mut bytes = Vec::new();
    let width = pack(&ascending(0, 7), 0, &mut bytes);
    let mut out = [0u32; BLOCK];
    for len in 0..bytes.len() {
        let err = unpack(&bytes[..len], width, 0, &mut out).expect_err("short input");
        assert!(matches!(err, Error::Truncated { .. }), "len {len}: {err:?}");
    }
}

#[test]
fn a_width_this_format_cannot_hold_is_refused() {
    let mut out = [0u32; BLOCK];
    assert_eq!(unpack(&[0u8; 1024], 33, 0, &mut out), Err(Error::Overflow));
    assert_eq!(unpack(&[0u8; 1024], 0, 0, &mut out), Err(Error::Overflow));
    assert_eq!(
        unpack_flat(&[0u8; 1024], 33, &mut out),
        Err(Error::Overflow)
    );
    assert_eq!(unpack_flat(&[0u8; 1024], 0, &mut out), Err(Error::Overflow));
}

#[test]
fn trailing_bytes_are_left_for_the_next_block() {
    let values = ascending(0, 5);
    let mut bytes = Vec::new();
    let width = pack(&values, 0, &mut bytes);
    let packed = bytes.len();
    bytes.extend_from_slice(b"the next block");

    let mut out = [0u32; BLOCK];
    assert_eq!(unpack(&bytes, width, 0, &mut out).expect("unpack"), packed);
    assert_eq!(out, values);
}

#[test]
fn the_base_is_what_joins_two_blocks() {
    let first = ascending(0, 9);
    let second = ascending(first[BLOCK - 1], 9);

    let mut bytes = Vec::new();
    let one = pack(&first, 0, &mut bytes);
    let two = pack(&second, first[BLOCK - 1], &mut bytes);

    let mut out = [0u32; BLOCK];
    let read = unpack(&bytes, one, 0, &mut out).expect("first");
    assert_eq!(out, first);
    unpack(&bytes[read..], two, out[BLOCK - 1], &mut out).expect("second");
    assert_eq!(out, second);
}

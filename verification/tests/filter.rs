//! The filter on concrete keys.
use kura_core::filter::{
    probes_for, Reader, Writer, BITS_PER_KEY, BLOCK, HEADER, MAX_PROBES,
};
use kura_core::Error;

/// A 64 bit hash of a key, well mixed in both halves.
fn hash64(key: &[u8]) -> u64 {
    let mut hash = 0xcbf2_9ce4_8422_2325u64;
    for &byte in key {
        hash = (hash ^ u64::from(byte)).wrapping_mul(0x0000_0100_0000_01b3);
    }
    hash ^= hash >> 33;
    hash = hash.wrapping_mul(0xff51_afd7_ed55_8ccd);
    hash ^= hash >> 33;
    hash = hash.wrapping_mul(0xc4ce_b9fe_1a85_ec53);
    hash ^ (hash >> 33)
}

/// How many bits each key got, and nothing for a filter with no keys in it.
fn bits_per_key(reader: &Reader<'_>) -> f32 {
    if reader.is_empty() {
        return 0.0;
    }
    ((reader.size() - HEADER) * 8) as f32 / reader.len() as f32
}

/// Keys that look like the ones a caller would use, which is to say mostly
/// alike and differing at the end.
fn keys(count: usize) -> Vec<Vec<u8>> {
    (0..count)
        .map(|n| format!("https://example.com/wiki/page/{n}").into_bytes())
        .collect()
}

fn built(keys: &[Vec<u8>]) -> Vec<u8> {
    let mut writer = Writer::new(keys.len());
    for key in keys {
        writer.insert(hash64(key));
    }
    writer.finish()
}

#[test]
fn every_key_that_went_in_comes_back_as_present() {
    // The only property that has to hold exactly. Everything else about a
    // filter is a matter of degree.
    let keys = keys(10_000);
    let bytes = built(&keys);
    let reader = Reader::new(&bytes).expect("a filter");
    for key in &keys {
        assert!(
            reader.maybe_holds(hash64(key)),
            "{:?}",
            String::from_utf8_lossy(key)
        );
    }
    assert_eq!(reader.len(), 10_000);
}

#[test]
fn a_key_that_did_not_go_in_is_usually_absent() {
    let keys = keys(10_000);
    let bytes = built(&keys);
    let reader = Reader::new(&bytes).expect("a filter");
    let missing: Vec<_> = (10_000..110_000)
        .map(|n| format!("https://example.com/wiki/page/{n}").into_bytes())
        .collect();
    let wrong = missing.iter().filter(|key| reader.maybe_holds(hash64(key))).count();
    // The formula says about one in a hundred and the blocking costs a
    // little on top of that. Three percent is loose enough that this is a
    // test of the filter working rather than of a particular hash, and
    // tight enough to fail if the bits stop being set where they are looked
    // for.
    assert!(wrong < 3_000, "{wrong} of 100000 were wrong");
}

#[test]
fn more_bits_a_key_is_fewer_wrong_answers() {
    let keys = keys(20_000);
    let missing: Vec<_> = (20_000..40_000)
        .map(|n| format!("https://example.com/wiki/page/{n}").into_bytes())
        .collect();
    let mut rates = Vec::new();
    for bits in [4u8, 8, 16] {
        let mut writer = Writer::with_bits(keys.len(), bits);
        for key in &keys {
            writer.insert(hash64(key));
        }
        let bytes = writer.finish();
        let reader = Reader::new(&bytes).expect("a filter");
        rates.push(missing.iter().filter(|key| reader.maybe_holds(hash64(key))).count());
    }
    assert!(rates[0] > rates[1], "{rates:?}");
    assert!(rates[1] > rates[2], "{rates:?}");
}

#[test]
fn a_filter_for_no_keys_answers_no_to_everything() {
    let writer = Writer::new(0);
    assert!(writer.is_empty());
    let bytes = writer.finish();
    assert_eq!(bytes.len(), HEADER);
    let reader = Reader::new(&bytes).expect("a filter");
    assert!(reader.is_empty());
    assert!(!reader.maybe_holds(hash64(b"anything")));
    assert!((bits_per_key(&reader) - 0.0).abs() < f32::EPSILON);
}

#[test]
fn a_filter_sized_for_one_key_still_holds_it() {
    let mut writer = Writer::new(1);
    writer.insert(hash64(b"only"));
    let bytes = writer.finish();
    let reader = Reader::new(&bytes).expect("a filter");
    assert!(reader.maybe_holds(hash64(b"only")));
    assert_eq!(reader.size(), HEADER + BLOCK);
}

#[test]
fn a_filter_given_more_keys_than_it_was_sized_for_still_never_misses_one() {
    // A yes to everything is the failure mode, and it is a failure of value
    // rather than of correctness. What must not happen is a no.
    let keys = keys(4_000);
    let mut writer = Writer::with_bits(100, BITS_PER_KEY);
    for key in &keys {
        writer.insert(hash64(key));
    }
    let bytes = writer.finish();
    let reader = Reader::new(&bytes).expect("a filter");
    for key in &keys {
        assert!(reader.maybe_holds(hash64(key)));
    }
}

#[test]
fn the_bits_a_key_gets_are_all_in_one_block() {
    // What the whole shape is for. Two keys apart in the set do not share a
    // cache line, and one key does not span two of them.
    let mut writer = Writer::new(10_000);
    writer.insert(hash64(b"https://example.com/wiki/page/one"));
    let bytes = writer.finish();
    let touched: Vec<_> = bytes[HEADER..]
        .chunks(BLOCK)
        .enumerate()
        .filter(|(_, block)| block.iter().any(|&byte| byte != 0))
        .map(|(at, _)| at)
        .collect();
    assert_eq!(touched.len(), 1, "{touched:?}");
}

#[test]
fn a_filter_reads_back_as_the_filter_that_was_written() {
    let keys = keys(500);
    let bytes = built(&keys);
    let reader = Reader::new(&bytes).expect("a filter");
    assert_eq!(reader.len(), 500);
    assert_eq!(reader.size(), bytes.len());
    assert!(bits_per_key(&reader) >= f32::from(BITS_PER_KEY));
    // And with something after it, which is what a section that carries
    // more than the filter looks like.
    let mut more = bytes.clone();
    more.extend_from_slice(b"and then some");
    let reader = Reader::new(&more).expect("a filter");
    assert_eq!(reader.size(), bytes.len());
    for key in &keys {
        assert!(reader.maybe_holds(hash64(key)));
    }
}

#[test]
fn a_filter_that_stops_short_is_refused_rather_than_read() {
    let bytes = built(&keys(500));
    for cut in [0, 1, HEADER - 1, HEADER, HEADER + 1, bytes.len() - 1] {
        assert!(
            matches!(Reader::new(&bytes[..cut]), Err(Error::Truncated { .. })),
            "cut at {cut}"
        );
    }
}

#[test]
fn the_probe_count_follows_the_bits_a_key_gets() {
    assert_eq!(probes_for(0), 1);
    assert_eq!(probes_for(1), 1);
    assert_eq!(probes_for(10), 7);
    assert_eq!(probes_for(16), MAX_PROBES);
    assert_eq!(probes_for(255), MAX_PROBES);
}

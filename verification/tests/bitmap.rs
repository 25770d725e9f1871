//! The compressed set on concrete ordinals.
use kura_core::bitmap::format::COOKIE_RUNS;
use kura_core::bitmap::runs::Run;
use kura_core::bitmap::store::{Held, Store};
use kura_core::bitmap::words::CHUNK;
use kura_core::bitmap::Bitmap;
use kura_core::codec::{put_u16, put_u32};
use kura_core::{DocId, Error};

/// How many bytes the cookie, the count and a descriptor take.
const COOKIE_LEN: usize = 4;
const COUNT_LEN: usize = 4;
const DESCRIPTOR_LEN: usize = 4;

/// The set of these ordinals, in whatever order they come.
fn of(ordinals: impl IntoIterator<Item = DocId>) -> Bitmap {
    Bitmap::from_sorted(&ordinals.into_iter().collect::<Vec<_>>())
}

fn shape(map: &Bitmap, chunk: usize) -> &'static str {
    match map.held_as()[chunk] {
        Held::Array => "array",
        Held::Bits => "bits",
        Held::Runs => "runs",
    }
}

/// How many chunks there are.
fn chunks(map: &Bitmap) -> usize {
    map.held_as().len()
}

/// How many runs a chunk that is held as runs holds.
fn runs(map: &Bitmap, chunk: usize) -> usize {
    match map.container(chunk) {
        Some(Store::Runs(runs)) => runs.len(),
        other => panic!("not held as runs: {other:?}"),
    }
}

/// A fixture small enough that no chunk of it turns into a word block.
fn sparse(ordinals: &[DocId]) -> Bitmap {
    let map = Bitmap::from_sorted(ordinals);
    for chunk in 0..chunks(&map) {
        assert_ne!(
            shape(&map, chunk),
            "bits",
            "this fixture is meant to be small"
        );
    }
    map
}

fn dense(count: DocId) -> Bitmap {
    of(0..count)
}

#[test]
fn insert_contains_remove() {
    let mut map = Bitmap::new();
    assert!(map.is_empty());
    assert!(map.insert(7));
    assert!(!map.insert(7), "inserting twice should report no change");
    assert!(map.contains(7));
    assert!(!map.contains(8));
    assert!(map.remove(7));
    assert!(!map.remove(7));
    assert!(map.is_empty());
}

#[test]
fn iteration_is_ascending_in_every_representation() {
    let ordinals = [9u32, 1, 64, 63, 4096, 0];
    let map = Bitmap::from_sorted(&ordinals);
    assert_eq!(map.to_vec(), vec![0, 1, 9, 63, 64, 4096]);

    let solid = dense(10_000);
    assert_eq!(shape(&solid, 0), "runs");
    let collected = solid.to_vec();
    assert_eq!(collected.len(), 10_000);
    assert!(collected.is_sorted());
    assert_eq!(collected.first(), Some(&0));
    assert_eq!(collected.last(), Some(&9_999));

    let scattered = of((0..20_000u32).map(|i| i * 3));
    assert_eq!(shape(&scattered, 0), "bits");
    assert_eq!(
        scattered.to_vec(),
        (0..20_000u32).map(|i| i * 3).collect::<Vec<_>>()
    );
}

#[test]
fn a_chunk_is_held_whichever_way_is_smallest() {
    // A handful of ordinals is a list.
    let few = of((0..100u32).map(|i| i * 700));
    assert_eq!(shape(&few, 0), "array");

    // One solid stretch is a pair of numbers however long it is.
    let solid = of(0..60_000u32);
    assert_eq!(shape(&solid, 0), "runs");
    assert!(solid.memory() < 200, "memory was {}", solid.memory());

    // Scattered and crowded is words, because neither of the other two can
    // describe it in less than eight kilobytes.
    let scattered = of((0..30_000u32).map(|i| i * 2));
    assert_eq!(shape(&scattered, 0), "bits");
}

#[test]
fn a_scattered_set_costs_what_it_holds_and_not_what_it_spans() {
    let scattered = of((0..5_000u32).map(|i| i * 20_000));
    assert_eq!(scattered.len(), 5_000);
    // A flat word array over the same span would be twelve megabytes.
    assert!(
        scattered.memory() < 100_000,
        "memory was {}",
        scattered.memory()
    );
}

#[test]
fn ordinals_land_in_the_chunk_that_holds_them() {
    let mut map = Bitmap::new();
    for ordinal in [0u32, 65_535, 65_536, 131_072, u32::MAX] {
        assert!(map.insert(ordinal));
    }
    assert_eq!(chunks(&map), 4);
    assert_eq!(map.to_vec(), vec![0, 65_535, 65_536, 131_072, u32::MAX]);
    assert!(map.contains(u32::MAX));
    assert!(!map.contains(u32::MAX - 1));
}

#[test]
fn intersection_keeps_only_what_is_in_both() {
    let mut a = sparse(&[1, 5, 9, 70]);
    a.intersect_with(&sparse(&[5, 70, 99]));
    assert_eq!(a.to_vec(), vec![5, 70]);

    let mut wide = dense(10_000);
    wide.intersect_with(&dense(5_000));
    assert_eq!(wide.len(), 5_000);
    assert!(wide.contains(4_999));
    assert!(!wide.contains(5_000));
}

#[test]
fn intersection_works_across_representations() {
    let mut big = dense(10_000);
    big.intersect_with(&sparse(&[3, 9_999, 20_000]));
    assert_eq!(big.to_vec(), vec![3, 9_999]);

    let mut small = sparse(&[3, 9_999, 20_000]);
    small.intersect_with(&dense(10_000));
    assert_eq!(small.to_vec(), vec![3, 9_999]);

    let mut words = of((0..30_000u32).map(|i| i * 2));
    words.intersect_with(&dense(1_000));
    assert_eq!(
        words.to_vec(),
        (0..500u32).map(|i| i * 2).collect::<Vec<_>>()
    );
}

#[test]
fn an_intersection_drops_the_chunks_the_other_side_never_had() {
    let mut a = of((0..5_000u32).chain(core::iter::once(500_000)));
    a.intersect_with(&dense(5_000));
    assert!(!a.contains(500_000), "the chunk past the other map must go");
    assert_eq!(a.len(), 5_000);
    assert_eq!(chunks(&a), 1);
}

#[test]
fn union_adds_everything_from_the_other_side() {
    let mut a = sparse(&[1, 2]);
    a.union_with(&sparse(&[2, 3]));
    assert_eq!(a.to_vec(), vec![1, 2, 3]);

    let mut wide = dense(5_000);
    wide.union_with(&dense(10_000));
    assert_eq!(wide.len(), 10_000);

    let mut far = sparse(&[1]);
    far.union_with(&sparse(&[1_000_000]));
    assert_eq!(far.to_vec(), vec![1, 1_000_000]);
    assert_eq!(chunks(&far), 2);
}

#[test]
fn two_runs_that_touch_become_one() {
    let mut left = of(0..1_000u32);
    left.union_with(&of(1_000..2_000u32));
    assert_eq!(shape(&left, 0), "runs");
    assert_eq!(runs(&left, 0), 1);
    assert_eq!(left.len(), 2_000);
}

#[test]
fn difference_is_how_a_deny_list_is_applied() {
    let mut allowed = sparse(&[1, 2, 3, 4]);
    allowed.difference_with(&sparse(&[2, 4]));
    assert_eq!(allowed.to_vec(), vec![1, 3]);

    let mut wide = dense(10_000);
    wide.difference_with(&dense(9_999));
    assert_eq!(wide.to_vec(), vec![9_999]);

    let mut wide = dense(10_000);
    wide.difference_with(&sparse(&[0, 9_999]));
    assert_eq!(wide.len(), 9_998);
    assert!(!wide.contains(0));
    assert!(!wide.contains(9_999));

    let mut middle = dense(1_000);
    middle.difference_with(&Bitmap::from_sorted(&(400..600).collect::<Vec<_>>()));
    assert_eq!(middle.len(), 800);
    assert!(middle.contains(399));
    assert!(!middle.contains(400));
    assert!(!middle.contains(599));
    assert!(middle.contains(600));
}

#[test]
fn an_empty_intersection_leaves_nothing_behind() {
    let mut a = dense(10_000);
    a.intersect_with(&Bitmap::new());
    assert!(a.is_empty(), "len was {}", a.len());
    assert_eq!(a.to_vec(), Vec::<DocId>::new());
}

#[test]
fn duplicates_and_disorder_in_the_input_are_normalised() {
    let map = Bitmap::from_sorted(&[5, 1, 5, 1, 3]);
    assert_eq!(map.to_vec(), vec![1, 3, 5]);
}

#[test]
fn with_capacity_does_not_invent_members() {
    assert!(Bitmap::with_capacity(0).is_empty());
    assert!(Bitmap::with_capacity(100_000).is_empty());
    assert_eq!(Bitmap::with_capacity(100_000).len(), 0);
}

#[test]
fn a_run_survives_being_poked_a_hole_in_and_filled_again() {
    let mut map = of(0..1_000u32);
    assert_eq!(shape(&map, 0), "runs");
    assert!(map.remove(500));
    assert!(!map.contains(500));
    assert_eq!(map.len(), 999);
    assert_eq!(runs(&map, 0), 2);
    assert!(map.insert(500));
    assert_eq!(runs(&map, 0), 1);
    assert_eq!(map.to_vec(), (0..1_000u32).collect::<Vec<_>>());

    assert!(map.remove(0));
    assert!(map.remove(999));
    assert_eq!(map.to_vec(), (1..999u32).collect::<Vec<_>>());
}

#[test]
fn equality_does_not_depend_on_how_a_set_was_built() {
    // Removing does not go looking for a cheaper representation, because a
    // deny list applied one id at a time would then rebuild the chunk on
    // every call. So a set worn down to ten members is still words, and it
    // has to compare equal to the same ten members held as a list.
    let mut worn = of((0..30_000u32).map(|i| i * 2));
    assert_eq!(shape(&worn, 0), "bits");
    for ordinal in (0..29_990u32).map(|i| i * 2) {
        worn.remove(ordinal);
    }
    assert_eq!(shape(&worn, 0), "bits");

    let tail: Vec<DocId> = (29_990..30_000u32).map(|i| i * 2).collect();
    let built = Bitmap::from_sorted(&tail);
    assert_eq!(shape(&built, 0), "array");
    assert_eq!(worn, built);
    assert_eq!(worn.len(), built.len());

    let mut short = built.clone();
    short.remove(tail[0]);
    assert_ne!(worn, short);
}

/// The three representations have to agree about every operation, so they
/// are all run against a plain sorted vector doing the same thing.
#[test]
fn every_representation_agrees_with_a_sorted_vector() {
    let shapes: [Vec<DocId>; 5] = [
        // A list.
        (0..100u32).map(|i| i * 37).collect(),
        // A run.
        (0..50_000u32).collect(),
        // Words.
        (0..30_000u32).map(|i| i * 2).collect(),
        // A few runs with gaps, across two chunks.
        (0..1_000u32)
            .chain(70_000..71_000)
            .chain(80_000..80_010)
            .collect(),
        // Nothing.
        Vec::new(),
    ];

    for left in &shapes {
        for right in &shapes {
            let mut both: Vec<DocId> = left
                .iter()
                .copied()
                .filter(|id| right.binary_search(id).is_ok())
                .collect();
            both.dedup();
            let mut map = Bitmap::from_sorted(left);
            map.intersect_with(&Bitmap::from_sorted(right));
            assert_eq!(map.to_vec(), both, "intersect");
            assert_eq!(map.len(), both.len(), "intersect len");

            let mut either: Vec<DocId> = left.iter().chain(right.iter()).copied().collect();
            either.sort_unstable();
            either.dedup();
            let mut map = Bitmap::from_sorted(left);
            map.union_with(&Bitmap::from_sorted(right));
            assert_eq!(map.to_vec(), either, "union");
            assert_eq!(map.len(), either.len(), "union len");

            let without: Vec<DocId> = left
                .iter()
                .copied()
                .filter(|id| right.binary_search(id).is_err())
                .collect();
            let mut map = Bitmap::from_sorted(left);
            map.difference_with(&Bitmap::from_sorted(right));
            assert_eq!(map.to_vec(), without, "difference");
            assert_eq!(map.len(), without.len(), "difference len");
        }
    }
}

/// A bitmap holding all three shapes at once, and more containers than the
/// count at which the offsets come back.
fn every_shape() -> Bitmap {
    let mut map = Bitmap::new();
    for low in [0, 1, 9, 63, 64, 4096] {
        map.insert(low);
    }
    for low in 0..1000 {
        map.insert((1 << 16) + low);
    }
    for low in (0..30_000).step_by(3) {
        map.insert((2 << 16) + low);
    }
    for low in [0, 5, 6, 7, 65_535] {
        map.insert((9 << 16) + low);
    }
    map
}

fn written(map: &Bitmap) -> Vec<u8> {
    let mut bytes = Vec::new();
    map.write_to(&mut bytes);
    assert_eq!(bytes.len(), map.size(), "size disagrees with write_to");
    bytes
}

#[test]
fn a_set_comes_back_from_its_bytes() {
    let cases = [
        Bitmap::new(),
        Bitmap::from_sorted(&[7]),
        sparse(&[0, 1, 9, 63, 64, 4096]),
        dense(1000),
        of((0..30_000).step_by(3)),
        every_shape(),
    ];
    for map in cases {
        let back = Bitmap::read(&written(&map)).expect("reads what it wrote");
        assert_eq!(back.to_vec(), map.to_vec());
        assert_eq!(back.len(), map.len());
    }
}

#[test]
fn writing_a_bitmap_leaves_what_was_in_the_vector_already() {
    let map = every_shape();
    let mut bytes = vec![0xab; 7];
    map.write_to(&mut bytes);
    assert_eq!(&bytes[..7], &[0xab; 7], "it wrote over what was there");
    assert_eq!(bytes.len(), 7 + map.size());
    assert_eq!(
        Bitmap::read(&bytes[7..]).expect("reads").to_vec(),
        map.to_vec()
    );
}

#[test]
fn a_chunk_emptied_below_the_threshold_is_written_as_an_array() {
    // The shape on disk follows from the cardinality, so a container the
    // reader is going to take as an array has to be written as one however
    // it is being held here.
    let mut map = of((0..12_000).step_by(2));
    assert_eq!(shape(&map, 0), "bits");
    for low in (0..8000).step_by(4) {
        map.remove(low);
    }
    assert_eq!(map.len(), 4000);
    assert_eq!(shape(&map, 0), "bits", "removing does not change the shape");
    assert_eq!(
        map.size(),
        COOKIE_LEN + COUNT_LEN + DESCRIPTOR_LEN + 4 + 2 * 4000
    );
    let back = Bitmap::read(&written(&map)).expect("reads");
    assert_eq!(back.to_vec(), map.to_vec());
}

#[test]
fn a_cookie_from_another_format_is_refused() {
    let mut bytes = written(&every_shape());
    bytes[0] = 0;
    assert!(matches!(Bitmap::read(&bytes), Err(Error::BadMagic)));
    assert!(matches!(Bitmap::read(&[]), Err(Error::Truncated { .. })));
}

#[test]
fn bytes_that_stop_early_are_refused_rather_than_read() {
    for map in [every_shape(), dense(1000), sparse(&[1, 5, 70_000])] {
        let bytes = written(&map);
        for end in 0..bytes.len() {
            assert!(
                Bitmap::read(&bytes[..end]).is_err(),
                "{end} of {} bytes was accepted",
                bytes.len()
            );
        }
        assert!(Bitmap::read(&bytes).is_ok(), "the whole of it was refused");
    }
}

#[test]
fn a_container_count_larger_than_the_bytes_is_refused() {
    // The count is four bytes and comes before anything that could bound
    // it, so a reader that believed it would reserve room for four billion
    // containers before finding out there are two.
    let mut bytes = written(&sparse(&[1, 5, 70_000]));
    bytes[4..8].copy_from_slice(&u32::MAX.to_le_bytes());
    assert!(Bitmap::read(&bytes).is_err());
}

#[test]
fn keys_that_do_not_ascend_are_refused() {
    let map = sparse(&[1, 5, 70_000]);
    let mut bytes = written(&map);
    // The first descriptor is the key of chunk zero, and the second is the
    // key of chunk one, four bytes further on.
    let (first, second) = (COOKIE_LEN + COUNT_LEN, COOKIE_LEN + COUNT_LEN + 4);
    bytes[second..second + 2].copy_from_slice(&0u16.to_le_bytes());
    assert!(matches!(Bitmap::read(&bytes), Err(Error::NotSorted { .. })));
    let mut bytes = written(&map);
    bytes[first..first + 2].copy_from_slice(&2u16.to_le_bytes());
    assert!(matches!(Bitmap::read(&bytes), Err(Error::NotSorted { .. })));
}

#[test]
fn members_that_do_not_ascend_are_refused() {
    let mut bytes = written(&sparse(&[1, 5, 9]));
    // One container, so the body starts after the cookie, the count, the
    // one descriptor and the one offset.
    let body = COOKIE_LEN + COUNT_LEN + DESCRIPTOR_LEN + 4;
    bytes[body..body + 2].copy_from_slice(&9u16.to_le_bytes());
    assert!(matches!(
        Bitmap::read(&bytes),
        Err(Error::NotSorted { at: 5 })
    ));
}

#[test]
fn a_container_that_does_not_hold_what_it_said_is_refused() {
    let map = of((0..30_000).step_by(3));
    let mut bytes = written(&map);
    let body = COOKIE_LEN + COUNT_LEN + DESCRIPTOR_LEN + 4;
    bytes[body] = 0;
    let Err(Error::BadCardinality { stated, found }) = Bitmap::read(&bytes) else {
        panic!("a word block short of three members was accepted");
    };
    assert_eq!(stated, 10_000);
    assert_eq!(found, 9997);
}

#[test]
fn an_offset_that_points_somewhere_else_is_refused() {
    let mut bytes = written(&sparse(&[1, 5, 70_000]));
    // Two containers, so two offsets, and the second one is where the first
    // container ends.
    let second = COOKIE_LEN + COUNT_LEN + 2 * DESCRIPTOR_LEN + 4;
    bytes[second..second + 4].copy_from_slice(&0u32.to_le_bytes());
    let Err(Error::BadOffset { stated, found }) = Bitmap::read(&bytes) else {
        panic!("an offset pointing at the header was accepted");
    };
    assert_eq!(stated, 0);
    assert_eq!(found, 24 + 4);
}

/// A bitmap of one chunk held as runs, spelled out rather than written by
/// this build, so that runs this build would never produce can be read.
fn one_chunk_of_runs(members: u16, runs: &[(u16, u16)]) -> Vec<u8> {
    let mut bytes = Vec::new();
    put_u32(&mut bytes, COOKIE_RUNS);
    bytes.push(1);
    put_u16(&mut bytes, 0);
    put_u16(&mut bytes, members - 1);
    put_u16(&mut bytes, u16::try_from(runs.len()).expect("a few runs"));
    for &(start, length) in runs {
        put_u16(&mut bytes, start);
        put_u16(&mut bytes, length);
    }
    bytes
}

#[test]
fn runs_that_touch_are_read_as_one_run() {
    let bytes = one_chunk_of_runs(10, &[(0, 4), (5, 4)]);
    let map = Bitmap::read(&bytes).expect("touching runs are not wrong, only untidy");
    assert_eq!(map.to_vec(), (0..10).collect::<Vec<DocId>>());
    assert_eq!(runs(&map, 0), 1, "they were not merged");
}

#[test]
fn a_container_comes_back_in_the_form_it_was_written_in() {
    let touching = [2, 0, 0, 0, 4, 0, 5, 0, 4, 0];
    let (store, rest) = Store::read(&touching, 10, true).expect("two runs that touch");
    assert!(rest.is_empty());
    assert!(matches!(&store, Store::Runs(runs) if runs[..] == [Run { start: 0, last: 9 }]));
    assert_eq!(
        Store::read(&touching, 11, true).err(),
        Some(Error::BadCardinality {
            stated: 11,
            found: 10,
        })
    );

    let (store, rest) = Store::read(&[1, 0, 2, 0, 9], 2, false).expect("an array");
    assert_eq!(rest, [9]);
    assert!(matches!(&store, Store::Array(list) if list[..] == [1, 2]));

    let (store, _) = Store::read(&[0xff; 8192], 65536, false).expect("words");
    assert_eq!(store.form(), Held::Bits);
}

#[test]
fn the_memory_of_a_set_does_not_depend_on_how_it_was_built() {
    let built = Bitmap::from_sorted(&[0, 1, 2, 3, 4, 5, 6, 7, 8, 9]);
    let mut grown = Bitmap::new();
    for ordinal in 0..10 {
        grown.insert(ordinal);
    }
    assert_eq!(shape(&built, 0), "runs");
    assert_eq!(shape(&grown, 0), "array");
    assert_eq!(built.memory(), grown.memory());

    let mut worn = of((0..30_000u32).map(|i| i * 2));
    let full = worn.memory();
    for ordinal in (0..29_990u32).map(|i| i * 2) {
        worn.remove(ordinal);
    }
    let tail = of((29_990..30_000u32).map(|i| i * 2));
    assert_eq!(worn.memory(), tail.memory());
    // The words and their count, against ten members of two bytes each.
    assert_eq!(full - worn.memory(), 8196 - 20);
}

#[test]
fn an_array_is_promoted_once_it_has_outgrown_the_words() {
    let mut map = Bitmap::new();
    for n in 0..4096 {
        map.insert(n * 2);
    }
    assert_eq!(shape(&map, 0), "array");
    map.insert(8192);
    assert_eq!(shape(&map, 0), "bits");
}

#[test]
fn a_set_operation_remakes_the_form_of_every_chunk() {
    // Chunk zero is on one side only, and worn down until it is no longer the
    // words it is held as.
    let mut worn = of((0..30_000u32).map(|i| i * 2));
    for ordinal in (0..29_990u32).map(|i| i * 2) {
        worn.remove(ordinal);
    }
    assert_eq!(shape(&worn, 0), "bits");
    let mut joined = worn.clone();
    joined.union_with(&Bitmap::from_sorted(&[70_000]));
    assert_eq!(shape(&joined, 0), "array");
    worn.difference_with(&Bitmap::from_sorted(&[70_000]));
    assert_eq!(shape(&worn, 0), "array");
}

#[test]
fn runs_that_overlap_or_go_backwards_are_refused() {
    for runs in [
        &[(0u16, 4u16), (3, 4)][..],
        &[(10, 0), (0, 0)][..],
        &[(0, 4), (0, 4)][..],
    ] {
        let held: u16 = runs.iter().map(|&(_, length)| length + 1).sum();
        let bytes = one_chunk_of_runs(held, runs);
        assert!(
            matches!(Bitmap::read(&bytes), Err(Error::NotSorted { .. })),
            "{runs:?} was accepted"
        );
    }
}

#[test]
fn runs_that_do_not_add_up_to_what_was_stated_are_refused() {
    let bytes = one_chunk_of_runs(11, &[(0, 4), (5, 4)]);
    let Err(Error::BadCardinality { stated, found }) = Bitmap::read(&bytes) else {
        panic!("a chunk of runs holding one fewer than it said was accepted");
    };
    assert_eq!(stated, 11);
    assert_eq!(found, 10);
}

#[test]
fn a_run_covering_a_whole_chunk_comes_back() {
    let map = of(0..1 << 16);
    let bytes = written(&map);
    assert_eq!(bytes.len(), COOKIE_LEN + 1 + DESCRIPTOR_LEN + 2 + 4);
    let back = Bitmap::read(&bytes).expect("reads");
    assert_eq!(back.len(), 1 << 16);
    assert!(back.contains(0) && back.contains(65_535));
}

#[test]
fn bytes_that_are_not_a_bitmap_at_all_are_refused_rather_than_trusted() {
    // Not a fuzzer, but enough to say that the reader decides from the
    // bytes rather than from what it hopes they are. Anything it accepts
    // has to hold together, which is the property that matters here.
    let mut seed = 0x2545_f491_4f6c_dd1du64;
    let mut bytes = written(&every_shape());
    for _ in 0..2000 {
        seed = seed.wrapping_mul(6_364_136_223_846_793_005).wrapping_add(1);
        let at = usize::try_from(seed >> 33).unwrap_or(0) % bytes.len();
        let was = bytes[at];
        bytes[at] ^= (seed >> 11).to_le_bytes()[0] | 1;
        if let Ok(map) = Bitmap::read(&bytes) {
            let again = written(&map);
            assert_eq!(
                Bitmap::read(&again)
                    .expect("what it accepted it writes")
                    .to_vec(),
                map.to_vec()
            );
        }
        bytes[at] = was;
    }
}

#[test]
fn the_largest_member_comes_back_from_every_shape() {
    assert_eq!(Bitmap::new().max(), None);
    assert_eq!(sparse(&[3]).max(), Some(3));
    assert_eq!(sparse(&[0, 1, 9, 63, 64, 4096]).max(), Some(4096));
    // A word block, where the answer is in the last word that is not zero
    // rather than in the last word.
    let scattered = Bitmap::from_sorted(&(0..30_000).step_by(3).collect::<Vec<_>>());
    assert_eq!(shape(&scattered, 0), "bits");
    assert_eq!(scattered.max(), Some(29_999 - 29_999 % 3));
    // Runs, and a run that ends at the top of its chunk.
    let chunk = DocId::try_from(CHUNK).expect("a chunk is sixty five thousand wide");
    let full = dense(chunk);
    assert_eq!(shape(&full, 0), "runs");
    assert_eq!(full.max(), Some(chunk - 1));
    // Several chunks, where the answer is in the last of them and not in
    // the largest of them.
    let mut many = Bitmap::from_sorted(&(0..1_000).collect::<Vec<_>>());
    many.insert(u32::MAX);
    assert_eq!(many.max(), Some(u32::MAX));
}

#[test]
fn the_first_ordinal_the_set_does_not_hold_is_where_the_prefix_ends() {
    assert_eq!(Bitmap::new().first_absent(), 0);
    // A set that does not start at zero has no prefix, so the answer is
    // zero and not the first member.
    assert_eq!(sparse(&[3, 4, 5]).first_absent(), 0);
    assert_eq!(sparse(&[0]).first_absent(), 1);
    assert_eq!(sparse(&[0, 1, 2, 7]).first_absent(), 3);
    // Across a chunk boundary, where the prefix is one whole container and
    // the first member of the next.
    let chunk = DocId::try_from(CHUNK).expect("a chunk is sixty five thousand wide");
    let mut over = dense(chunk);
    over.insert(chunk);
    over.insert(chunk + 2);
    assert_eq!(over.first_absent(), chunk + 1);
}

#[test]
fn the_first_absent_ordinal_moves_back_when_the_prefix_is_broken() {
    let mut map = Bitmap::from_sorted(&(0..1_000).collect::<Vec<_>>());
    assert_eq!(map.first_absent(), 1_000);
    map.remove(500);
    assert_eq!(map.first_absent(), 500);
    map.remove(0);
    assert_eq!(map.first_absent(), 0);
}

#[test]
fn the_largest_member_survives_what_was_taken_out() {
    let mut map = Bitmap::from_sorted(&[1, 2, 3, 900, 70_000]);
    assert_eq!(map.max(), Some(70_000));
    map.remove(70_000);
    assert_eq!(map.max(), Some(900));
    map.remove(900);
    map.remove(3);
    assert_eq!(map.max(), Some(2));
    map.remove(2);
    map.remove(1);
    assert_eq!(map.max(), None);
}

#[test]
fn a_prefix_of_a_written_set_says_that_it_is_cut_short() {
    for map in [every_shape(), sparse(&[1, 5, 70_000]), Bitmap::new()] {
        let bytes = written(&map);
        for end in 0..bytes.len() {
            let read = Bitmap::read(&bytes[..end]);
            assert!(matches!(read, Err(Error::Truncated { .. })), "{end}: {read:?}");
        }
    }
}

//! The portable Roaring serialisation of a set of ordinals.
//!
//! A file is a cookie, which also says whether any container is held as runs, a
//! key and a cardinality per container, an offset per container where the
//! layout calls for one, and then the containers in the order of their keys.
//! Which of three shapes a container has follows from what it holds and from
//! nothing else, so the bytes are a function of the set.
use super::chunks::{chunks_hold, chunks_ok, lemma_held_at, lemma_join, ordinals, Chunk};
use super::list::lemma_list_count;
use super::runs::{in_runs, lemma_runs_starts, runs_ok, runs_set, Run};
use super::store::{lemma_same_members, members, stretches, Held};
use super::words::{starts, Words};
use crate::bits::{bit, bits_value, lemma_bits_value_shift};
use crate::codec::{le_bytes, le_value, lemma_le_bytes, short};
use crate::count::{
    ascending, count, lemma_listing, lemma_listing_same, lemma_listing_unique, listing,
};
use crate::error::{Error, Result};
use vstd::prelude::*;

verus! {

/// The cookie of a bitmap where no container is held as runs.
pub const COOKIE_PLAIN: u32 = 12346;

/// The low half of the cookie of a bitmap where at least one is, which carries
/// the container count in its top half.
pub const COOKIE_RUNS: u32 = 12347;

/// The container count at which a bitmap holding runs still carries offsets.
pub const OFFSETS_FROM: usize = 4;

/// Which of the three a container goes down as, and how much of it there is.
///
/// Not the same question as which of the three it is being held in. A reader
/// takes the shape from the run flag and the cardinality, so the writer picks
/// the shape from what the container holds.
#[derive(Debug, Clone, Copy, PartialEq, Eq, Structural)]
pub enum Shape {
    /// Two bytes per member.
    Array(usize),
    /// One bit per ordinal in the chunk, whatever it holds.
    Words,
    /// Two bytes of count and four bytes per run.
    Runs(usize),
}

// ---------------------------------------------------------------------------
// What the bytes of a set are.
// ---------------------------------------------------------------------------

/// The shape a container of these members goes down as.
pub open spec fn shape_of(g: spec_fn(int) -> bool) -> Shape {
    let n = members(g);
    let r = stretches(g);
    if 4 * r < 2 * n && 4 * r < 8192 {
        Shape::Runs(r as usize)
    } else if n <= 4096 {
        Shape::Array(n as usize)
    } else {
        Shape::Words
    }
}

/// How many bytes a container of a shape takes.
pub open spec fn shape_size(shape: Shape) -> nat {
    match shape {
        Shape::Array(n) => 2 * n as nat,
        Shape::Words => 8192,
        Shape::Runs(n) => 2 + 4 * n as nat,
    }
}

/// A stretch of ordinals ends at `low`: it is held and the one above is not.
pub open spec fn ends(f: spec_fn(int) -> bool) -> spec_fn(int) -> bool {
    |low: int| f(low) && !(low < 65535 && f(low + 1))
}

/// The stretches of the members, ascending.
pub open spec fn runs_of(g: spec_fn(int) -> bool) -> Seq<Run> {
    Seq::new(
        stretches(g),
        |i: int|
            Run { start: listing(starts(g), 65536)[i], last: listing(ends(g), 65536)[i] },
    )
}

pub open spec fn list_bytes(list: Seq<u16>) -> Seq<u8>
    decreases list.len(),
{
    if list.len() == 0 {
        Seq::empty()
    } else {
        le_bytes(list[0] as nat, 2) + list_bytes(list.skip(1))
    }
}

/// The words from word `from` on.
pub open spec fn word_bytes(g: spec_fn(int) -> bool, from: int) -> Seq<u8>
    decreases 1024 - from,
{
    if from >= 1024 {
        Seq::empty()
    } else {
        le_bytes(bits_value(g, 64 * from, 64), 8) + word_bytes(g, from + 1)
    }
}

/// Each run as its start and one less than its length.
pub open spec fn run_bytes(runs: Seq<Run>) -> Seq<u8>
    decreases runs.len(),
{
    if runs.len() == 0 {
        Seq::empty()
    } else {
        le_bytes(runs[0].start as nat, 2) + le_bytes((runs[0].last - runs[0].start) as nat, 2)
            + run_bytes(runs.skip(1))
    }
}

/// The bytes of a container.
pub open spec fn container_bytes(g: spec_fn(int) -> bool) -> Seq<u8> {
    match shape_of(g) {
        Shape::Array(_) => list_bytes(listing(g, 65536)),
        Shape::Words => word_bytes(g, 0),
        Shape::Runs(n) => le_bytes(n as nat, 2) + run_bytes(runs_of(g)),
    }
}

/// What a set holds of the chunk `key`.
pub open spec fn chunk_set(s: Set<u32>, key: int) -> spec_fn(int) -> bool {
    |low: int| 0 <= low < 65536 && s.contains((key * 65536 + low) as u32)
}

/// The keys of the chunks in which a set holds something, ascending.
pub open spec fn keys_of(s: Set<u32>) -> Seq<u16> {
    listing(|key: int| members(chunk_set(s, key)) > 0, 65536)
}

/// Which containers, by their place, go down as runs.
pub open spec fn run_flags(s: Set<u32>, ks: Seq<u16>) -> spec_fn(int) -> bool {
    |i: int| 0 <= i < ks.len() && shape_of(chunk_set(s, ks[i] as int)) is Runs
}

pub open spec fn any_runs(s: Set<u32>, ks: Seq<u16>) -> bool {
    exists|i: int| #[trigger] run_flags(s, ks)(i)
}

/// One bit per container.
pub open spec fn flag_bytes(s: Set<u32>, ks: Seq<u16>) -> Seq<u8> {
    Seq::new((ks.len() + 7) / 8, |b: int| bits_value(run_flags(s, ks), 8 * b, 8) as u8)
}

/// A key and one less than the cardinality, per container.
pub open spec fn descriptor_bytes(s: Set<u32>, ks: Seq<u16>) -> Seq<u8>
    decreases ks.len(),
{
    if ks.len() == 0 {
        Seq::empty()
    } else {
        le_bytes(ks[0] as nat, 2) + le_bytes(
            (members(chunk_set(s, ks[0] as int)) - 1) as nat,
            2,
        ) + descriptor_bytes(s, ks.skip(1))
    }
}

/// Where each container starts, the first of them at `at`.
pub open spec fn offset_bytes(s: Set<u32>, ks: Seq<u16>, at: nat) -> Seq<u8>
    decreases ks.len(),
{
    if ks.len() == 0 {
        Seq::empty()
    } else {
        le_bytes(at, 4) + offset_bytes(
            s,
            ks.skip(1),
            at + shape_size(shape_of(chunk_set(s, ks[0] as int))),
        )
    }
}

pub open spec fn body_bytes(s: Set<u32>, ks: Seq<u16>) -> Seq<u8>
    decreases ks.len(),
{
    if ks.len() == 0 {
        Seq::empty()
    } else {
        container_bytes(chunk_set(s, ks[0] as int)) + body_bytes(s, ks.skip(1))
    }
}

/// How many bytes the containers take.
pub open spec fn body_len(s: Set<u32>, ks: Seq<u16>) -> nat
    decreases ks.len(),
{
    if ks.len() == 0 {
        0
    } else {
        shape_size(shape_of(chunk_set(s, ks[0] as int))) + body_len(s, ks.skip(1))
    }
}

/// How many bytes the offsets take, which is none for a small bitmap of runs.
pub open spec fn offsets_size(containers: nat, runs: bool) -> nat {
    if !runs || containers >= 4 {
        4 * containers
    } else {
        0
    }
}

/// How many bytes come before the first container.
pub open spec fn header_size(containers: nat, runs: bool) -> nat {
    (if runs {
        4 + (containers + 7) / 8
    } else {
        8
    }) + 4 * containers + offsets_size(containers, runs)
}

/// The bytes of a set.
pub open spec fn encoded(s: Set<u32>) -> Seq<u8> {
    let ks = keys_of(s);
    let n = ks.len();
    let runs = any_runs(s, ks);
    (if runs {
        le_bytes((12347 + 65536 * (n - 1)) as nat, 4) + flag_bytes(s, ks)
    } else {
        le_bytes(12346, 4) + le_bytes(n, 4)
    }) + descriptor_bytes(s, ks) + (if offsets_size(n, runs) > 0 {
        offset_bytes(s, ks, header_size(n, runs))
    } else {
        Seq::empty()
    }) + body_bytes(s, ks)
}

// ---------------------------------------------------------------------------
// What some bytes are read as.
// ---------------------------------------------------------------------------

/// The ordinals from `start` to `last`.
pub open spec fn stretch(start: int, last: int) -> Set<int> {
    Set::new(|x: int| start <= x <= last)
}

/// Reads `n` runs, each past `last`, and gives what they cover with the sum of
/// their lengths.
pub open spec fn decode_runs(bytes: Seq<u8>, n: nat, last: int) -> core::result::Result<
    (Set<int>, nat),
    Error,
>
    decreases n,
{
    if n == 0 {
        Ok((Set::empty(), 0))
    } else if bytes.len() < 2 {
        Err(short(2, bytes.len()))
    } else if bytes.len() < 4 {
        Err(short(2, (bytes.len() - 2) as nat))
    } else {
        let start = le_value(bytes.take(2));
        let length = le_value(bytes.skip(2).take(2));
        if start + length > 65535 {
            Err(Error::Overflow)
        } else if start <= last {
            Err(Error::NotSorted { at: start as u32 })
        } else {
            match decode_runs(bytes.skip(4), (n - 1) as nat, (start + length) as int) {
                Ok((set, held)) => Ok(
                    (
                        set.union(stretch(start as int, (start + length) as int)),
                        held + length + 1,
                    ),
                ),
                Err(error) => Err(error),
            }
        }
    }
}

/// Reads `n` ordinals, ascending and each past `last`.
pub open spec fn decode_list(bytes: Seq<u8>, n: nat, last: int) -> core::result::Result<
    Set<int>,
    Error,
>
    decreases n,
{
    if n == 0 {
        Ok(Set::empty())
    } else if bytes.len() < 2 {
        Err(short(2, bytes.len()))
    } else {
        let low = le_value(bytes.take(2));
        if low <= last {
            Err(Error::NotSorted { at: low as u32 })
        } else {
            match decode_list(bytes.skip(2), (n - 1) as nat, low as int) {
                Ok(set) => Ok(set.insert(low as int)),
                Err(error) => Err(error),
            }
        }
    }
}

/// Word `w` of the words some bytes hold.
pub open spec fn decode_word(bytes: Seq<u8>, w: int) -> nat {
    le_value(bytes.skip(8 * w).take(8))
}

/// The bits set in the words some bytes hold.
pub open spec fn decode_words(bytes: Seq<u8>) -> spec_fn(int) -> bool {
    |x: int| 0 <= x < 65536 && bit(decode_word(bytes, x / 64) as u64, x % 64)
}

/// The ordinals of a chunk that satisfy the predicate.
pub open spec fn lows(g: spec_fn(int) -> bool) -> Set<int> {
    Set::new(|x: int| 0 <= x < 65536 && g(x))
}

/// Reads a container of `count` members, and says how many bytes it took.
pub open spec fn decode_store(
    bytes: Seq<u8>,
    count: nat,
    as_runs: bool,
) -> core::result::Result<(Set<int>, nat), Error> {
    if as_runs {
        if bytes.len() < 2 {
            Err(short(2, bytes.len()))
        } else {
            let n = le_value(bytes.take(2));
            match decode_runs(bytes.skip(2), n, -1) {
                Ok((set, held)) => if held != count {
                    Err(Error::BadCardinality { stated: count as usize, found: held as usize })
                } else {
                    Ok((set, 2 + 4 * n))
                },
                Err(error) => Err(error),
            }
        }
    } else if count > 4096 {
        if bytes.len() < 8192 {
            Err(short(8192, bytes.len()))
        } else {
            let held = members(decode_words(bytes));
            if held != count {
                Err(Error::BadCardinality { stated: count as usize, found: held as usize })
            } else {
                Ok((lows(decode_words(bytes)), 8192))
            }
        }
    } else {
        match decode_list(bytes, count, -1) {
            Ok(set) => Ok((set, 2 * count)),
            Err(error) => Err(error),
        }
    }
}

/// Reads `n` keys, ascending and each past `last`, with their cardinalities.
pub open spec fn decode_keys(bytes: Seq<u8>, n: nat, last: int) -> core::result::Result<
    Seq<(u16, nat)>,
    Error,
>
    decreases n,
{
    if n == 0 {
        Ok(Seq::empty())
    } else if bytes.len() < 2 {
        Err(short(2, bytes.len()))
    } else if bytes.len() < 4 {
        Err(short(2, (bytes.len() - 2) as nat))
    } else {
        let key = le_value(bytes.take(2));
        let least = le_value(bytes.skip(2).take(2));
        if key <= last {
            Err(Error::NotSorted { at: key as u32 })
        } else {
            match decode_keys(bytes.skip(4), (n - 1) as nat, key as int) {
                Ok(keys) => Ok(seq![(key as u16, least + 1)] + keys),
                Err(error) => Err(error),
            }
        }
    }
}

pub open spec fn decode_offsets(bytes: Seq<u8>, n: nat) -> core::result::Result<Seq<nat>, Error>
    decreases n,
{
    if n == 0 {
        Ok(Seq::empty())
    } else if bytes.len() < 4 {
        Err(short(4, bytes.len()))
    } else {
        match decode_offsets(bytes.skip(4), (n - 1) as nat) {
            Ok(offsets) => Ok(seq![le_value(bytes.take(4))] + offsets),
            Err(error) => Err(error),
        }
    }
}

/// Whether the flags say that container `i` is held as runs.
pub open spec fn flagged(flags: Seq<u8>, i: int) -> bool {
    i / 8 < flags.len() && bit(flags[i / 8] as u64, i % 8)
}

/// The ordinals of the chunk `key`.
pub open spec fn placed(set: Set<int>, key: u16) -> Set<u32> {
    Set::new(|d: u32| d as int / 65536 == key && set.contains(d as int % 65536))
}

/// Reads the containers from container `i` on, of a file of `total` bytes.
pub open spec fn decode_bodies(
    total: nat,
    bytes: Seq<u8>,
    keys: Seq<(u16, nat)>,
    offsets: Seq<nat>,
    flags: Seq<u8>,
    i: int,
) -> core::result::Result<Set<u32>, Error>
    decreases keys.len() - i,
{
    if i < 0 || i >= keys.len() {
        Ok(Set::empty())
    } else if i < offsets.len() && offsets[i] != total - bytes.len() {
        Err(
            Error::BadOffset {
                stated: offsets[i] as usize,
                found: (total - bytes.len()) as usize,
            },
        )
    } else {
        match decode_store(bytes, keys[i].1, flagged(flags, i)) {
            Ok((set, taken)) => match decode_bodies(
                total,
                bytes.skip(taken as int),
                keys,
                offsets,
                flags,
                i + 1,
            ) {
                Ok(rest) => Ok(rest.union(placed(set, keys[i].0))),
                Err(error) => Err(error),
            },
            Err(error) => Err(error),
        }
    }
}

/// Reads what follows the cookie and the flags.
pub open spec fn decode_rest(
    total: nat,
    bytes: Seq<u8>,
    n: nat,
    runs: bool,
    flags: Seq<u8>,
) -> core::result::Result<Set<u32>, Error> {
    match decode_keys(bytes, n, -1) {
        Ok(keys) => {
            let rest = bytes.skip(4 * n as int);
            if offsets_size(n, runs) > 0 {
                match decode_offsets(rest, n) {
                    Ok(offsets) => decode_bodies(
                        total,
                        rest.skip(4 * n as int),
                        keys,
                        offsets,
                        flags,
                        0,
                    ),
                    Err(error) => Err(error),
                }
            } else {
                decode_bodies(total, rest, keys, Seq::empty(), flags, 0)
            }
        },
        Err(error) => Err(error),
    }
}

/// What a file is read as: the set it holds, or what is wrong with it.
pub open spec fn decoded(bytes: Seq<u8>) -> core::result::Result<Set<u32>, Error> {
    if bytes.len() < 4 {
        Err(short(4, bytes.len()))
    } else {
        let cookie = le_value(bytes.take(4));
        let rest = bytes.skip(4);
        if cookie % 65536 == 12347 {
            let n = cookie / 65536 + 1;
            let f = (n + 7) / 8;
            if rest.len() < f {
                Err(short(f, rest.len()))
            } else {
                decode_rest(bytes.len(), rest.skip(f as int), n, true, rest.take(f as int))
            }
        } else if cookie == 12346 {
            if rest.len() < 4 {
                Err(short(4, rest.len()))
            } else {
                decode_rest(
                    bytes.len(),
                    rest.skip(4),
                    le_value(rest.take(4)),
                    false,
                    Seq::empty(),
                )
            }
        } else {
            Err(Error::BadMagic)
        }
    }
}

/// The form a container is read into: runs where the flag says so, and otherwise
/// words or an array by how many members it has.
pub open spec fn read_form(count: nat, as_runs: bool) -> Held {
    if as_runs {
        Held::Runs
    } else if count > 4096 {
        Held::Bits
    } else {
        Held::Array
    }
}

pub open spec fn read_forms(keys: Seq<(u16, nat)>, flags: Seq<u8>) -> Seq<Held> {
    Seq::new(keys.len(), |i: int| read_form(keys[i].1, flagged(flags, i)))
}

/// The forms of the `n` containers whose keys and cardinalities some bytes start
/// with.
pub open spec fn listed_forms(bytes: Seq<u8>, n: nat, flags: Seq<u8>) -> Seq<Held> {
    match decode_keys(bytes, n, -1) {
        Ok(keys) => read_forms(keys, flags),
        Err(_) => Seq::empty(),
    }
}

/// The form each container of a file is read into.
pub open spec fn decoded_forms(bytes: Seq<u8>) -> Seq<Held> {
    let cookie = le_value(bytes.take(4));
    let rest = bytes.skip(4);
    if cookie % 65536 == 12347 {
        let n = cookie / 65536 + 1;
        let f = ((n + 7) / 8) as int;
        listed_forms(rest.skip(f), n, rest.take(f))
    } else {
        listed_forms(rest.skip(4), le_value(rest.take(4)), Seq::empty())
    }
}

// ---------------------------------------------------------------------------
// Facts about containers.
// ---------------------------------------------------------------------------

/// A run list that covers exactly some members is the list of their stretches.
pub proof fn lemma_runs_of(runs: Seq<Run>, g: spec_fn(int) -> bool)
    requires
        runs_ok(runs),
        forall|x: int| 0 <= x < 65536 ==> #[trigger] in_runs(runs, x) == g(x),
    ensures
        runs == runs_of(g),
        runs.len() == stretches(g),
{
    let h = runs_set(runs);
    assert forall|x: int| 0 <= x < 65536 implies #[trigger] h(x) == g(x) by {
        assert(in_runs(runs, x) == g(x));
    }
    lemma_same_members(h, g);
    lemma_runs_starts(runs);
    let first = Seq::new(runs.len(), |i: int| runs[i].start);
    let last = Seq::new(runs.len(), |i: int| runs[i].last);
    assert(ascending(first)) by {
        assert forall|i: int, j: int| 0 <= i < j < first.len() implies first[i] < first[j] by {
            assert(runs[i].last + 1 < runs[j].start);
        }
    }
    assert(ascending(last)) by {
        assert forall|i: int, j: int| 0 <= i < j < last.len() implies last[i] < last[j] by {
            assert(runs[i].last + 1 < runs[j].start);
            assert(runs[j].start <= runs[j].last);
        }
    }
    assert forall|i: int| 0 <= i < first.len() implies #[trigger] first[i] < 65536 && starts(g)(
        first[i] as int,
    ) by {
        let x = first[i] as int;
        assert(runs[i].start <= x <= runs[i].last);
        assert(in_runs(runs, x));
        if x > 0 {
            assert(!in_runs(runs, x - 1)) by {
                assert forall|k: int| 0 <= k < runs.len() implies !((#[trigger] runs[k]).start <= x
                    - 1 <= runs[k].last) by {
                    if k < i {
                        assert(runs[k].last + 1 < runs[i].start);
                    } else if k > i {
                        assert(runs[i].last + 1 < runs[k].start);
                    }
                }
            }
        }
    }
    assert forall|x: int| 0 <= x < 65536 && #[trigger] starts(g)(x) implies first.contains(
        x as u16,
    ) by {
        assert(in_runs(runs, x));
        let i = choose|i: int|
            0 <= i < runs.len() && (#[trigger] runs[i]).start <= x <= runs[i].last;
        if runs[i].start < x {
            assert(runs[i].start <= x - 1 <= runs[i].last);
            assert(in_runs(runs, x - 1));
        }
        assert(first[i] == x as u16);
    }
    lemma_listing_unique(first, starts(g), 65536);
    assert forall|i: int| 0 <= i < last.len() implies #[trigger] last[i] < 65536 && ends(g)(
        last[i] as int,
    ) by {
        let x = last[i] as int;
        assert(runs[i].start <= x <= runs[i].last);
        assert(in_runs(runs, x));
        if x < 65535 {
            assert(!in_runs(runs, x + 1)) by {
                assert forall|k: int| 0 <= k < runs.len() implies !((#[trigger] runs[k]).start <= x
                    + 1 <= runs[k].last) by {
                    if k < i {
                        assert(runs[k].last + 1 < runs[i].start);
                    } else if k > i {
                        assert(runs[i].last + 1 < runs[k].start);
                    }
                }
            }
        }
    }
    assert forall|x: int| 0 <= x < 65536 && #[trigger] ends(g)(x) implies last.contains(
        x as u16,
    ) by {
        assert(in_runs(runs, x));
        let i = choose|i: int|
            0 <= i < runs.len() && (#[trigger] runs[i]).start <= x <= runs[i].last;
        if runs[i].last > x {
            assert(runs[i].start <= x + 1 <= runs[i].last);
            assert(in_runs(runs, x + 1));
        }
        assert(last[i] == x as u16);
    }
    lemma_listing_unique(last, ends(g), 65536);
    assert(runs =~= runs_of(g)) by {
        assert forall|i: int| 0 <= i < runs.len() implies runs[i] == runs_of(g)[i] by {
            assert(first[i] == runs[i].start);
            assert(last[i] == runs[i].last);
        }
    }
}

/// Containers that hold the same have the same bytes.
pub proof fn lemma_container_same(f: spec_fn(int) -> bool, g: spec_fn(int) -> bool)
    requires
        forall|x: int| 0 <= x < 65536 ==> #[trigger] f(x) == g(x),
    ensures
        shape_of(f) == shape_of(g),
        container_bytes(f) == container_bytes(g),
{
    lemma_same_members(f, g);
    assert forall|x: int| 0 <= x < 65536 implies #[trigger] starts(f)(x) == starts(g)(x) by {
        assert(f(x) == g(x));
        if x > 0 {
            assert(f(x - 1) == g(x - 1));
        }
    }
    lemma_listing_same(starts(f), starts(g), 65536);
    assert forall|x: int| 0 <= x < 65536 implies #[trigger] ends(f)(x) == ends(g)(x) by {
        assert(f(x) == g(x));
        if x < 65535 {
            assert(f(x + 1) == g(x + 1));
        }
    }
    lemma_listing_same(ends(f), ends(g), 65536);
    assert(runs_of(f) =~= runs_of(g));
    lemma_word_bytes_same(f, g, 0);
}

pub proof fn lemma_word_bytes_same(f: spec_fn(int) -> bool, g: spec_fn(int) -> bool, from: int)
    requires
        0 <= from,
        forall|x: int| 0 <= x < 65536 ==> #[trigger] f(x) == g(x),
    ensures
        word_bytes(f, from) == word_bytes(g, from),
    decreases 1024 - from,
{
    if from < 1024 {
        assert forall|i: int| 64 * from <= i < 64 * from + 64 implies #[trigger] f(i) == g(
            i + (64 * from - 64 * from),
        ) by {}
        lemma_bits_value_shift(f, 64 * from, g, 64 * from, 64);
        lemma_word_bytes_same(f, g, from + 1);
    }
}

pub proof fn lemma_list_bytes_len(list: Seq<u16>)
    ensures
        list_bytes(list).len() == 2 * list.len(),
    decreases list.len(),
{
    if list.len() > 0 {
        lemma_le_bytes(list[0] as nat, 2);
        lemma_list_bytes_len(list.skip(1));
    }
}

pub proof fn lemma_word_bytes_len(g: spec_fn(int) -> bool, from: int)
    requires
        0 <= from <= 1024,
    ensures
        word_bytes(g, from).len() == 8 * (1024 - from),
    decreases 1024 - from,
{
    if from < 1024 {
        lemma_le_bytes(bits_value(g, 64 * from, 64), 8);
        lemma_word_bytes_len(g, from + 1);
    }
}

pub proof fn lemma_run_bytes_len(runs: Seq<Run>)
    ensures
        run_bytes(runs).len() == 4 * runs.len(),
    decreases runs.len(),
{
    if runs.len() > 0 {
        lemma_le_bytes(runs[0].start as nat, 2);
        lemma_le_bytes((runs[0].last - runs[0].start) as nat, 2);
        lemma_run_bytes_len(runs.skip(1));
    }
}

/// A container takes as many bytes as its shape says, and at most 8192.
pub proof fn lemma_container_len(g: spec_fn(int) -> bool)
    ensures
        container_bytes(g).len() == shape_size(shape_of(g)),
        shape_size(shape_of(g)) <= 8192,
{
    crate::count::lemma_count_bound(g, 0, 65536);
    crate::count::lemma_count_bound(starts(g), 0, 65536);
    lemma_listing(g, 65536);
    lemma_list_bytes_len(listing(g, 65536));
    lemma_word_bytes_len(g, 0);
    lemma_run_bytes_len(runs_of(g));
    lemma_le_bytes(stretches(g), 2);
}

pub proof fn lemma_body_len(s: Set<u32>, ks: Seq<u16>)
    ensures
        body_bytes(s, ks).len() == body_len(s, ks),
        body_len(s, ks) <= 8192 * ks.len(),
    decreases ks.len(),
{
    if ks.len() > 0 {
        lemma_container_len(chunk_set(s, ks[0] as int));
        lemma_body_len(s, ks.skip(1));
    }
}

pub proof fn lemma_descriptor_len(s: Set<u32>, ks: Seq<u16>)
    ensures
        descriptor_bytes(s, ks).len() == 4 * ks.len(),
    decreases ks.len(),
{
    if ks.len() > 0 {
        lemma_le_bytes(ks[0] as nat, 2);
        lemma_le_bytes((members(chunk_set(s, ks[0] as int)) - 1) as nat, 2);
        lemma_descriptor_len(s, ks.skip(1));
    }
}

pub proof fn lemma_offset_len(s: Set<u32>, ks: Seq<u16>, at: nat)
    ensures
        offset_bytes(s, ks, at).len() == 4 * ks.len(),
    decreases ks.len(),
{
    if ks.len() > 0 {
        lemma_le_bytes(at, 4);
        lemma_offset_len(
            s,
            ks.skip(1),
            at + shape_size(shape_of(chunk_set(s, ks[0] as int))),
        );
    }
}

/// A set takes the header and the containers.
pub proof fn lemma_encoded_len(s: Set<u32>)
    ensures
        encoded(s).len() == header_size(keys_of(s).len(), any_runs(s, keys_of(s))) + body_len(
            s,
            keys_of(s),
        ),
{
    let ks = keys_of(s);
    let n = ks.len();
    let runs = any_runs(s, ks);
    lemma_body_len(s, ks);
    lemma_descriptor_len(s, ks);
    lemma_offset_len(s, ks, header_size(n, runs));
    lemma_le_bytes((12347 + 65536 * (n - 1)) as nat, 4);
    lemma_le_bytes(12346, 4);
    lemma_le_bytes(n, 4);
}

/// What the chunks of a bitmap say about the set they hold.
pub proof fn lemma_chunk_sets(chunks: Seq<Chunk>)
    requires
        chunks_ok(chunks),
    ensures
        keys_of(ordinals(chunks)) == Seq::new(chunks.len(), |i: int| chunks[i].key),
        chunks.len() <= 65536,
        forall|i: int, x: int|
            0 <= i < chunks.len() && 0 <= x < 65536 ==> #[trigger] chunk_set(
                ordinals(chunks),
                chunks[i].key as int,
            )(x) == chunks[i].store.holds(x),
{
    let s = ordinals(chunks);
    let f = |key: int| members(chunk_set(s, key)) > 0;
    let ks = Seq::new(chunks.len(), |i: int| chunks[i].key);
    assert forall|i: int, x: int| 0 <= i < chunks.len() && 0 <= x < 65536 implies
        #[trigger] chunk_set(s, chunks[i].key as int)(x) == chunks[i].store.holds(x) by {
        let d = chunks[i].key * 65536 + x;
        lemma_join(chunks[i].key as int, x);
        lemma_held_at(chunks, i, d);
        assert(s.contains(d as u32) == chunks_hold(chunks, d));
    }
    assert forall|i: int| 0 <= i < ks.len() implies #[trigger] ks[i] < 65536 && f(
        ks[i] as int,
    ) by {
        let g = chunk_set(s, chunks[i].key as int);
        let h = chunks[i].store.set();
        assert forall|x: int| 0 <= x < 65536 implies #[trigger] g(x) == h(x) by {}
        lemma_same_members(g, h);
    }
    assert forall|key: int| 0 <= key < 65536 && #[trigger] f(key) implies ks.contains(
        key as u16,
    ) by {
        let g = chunk_set(s, key);
        let x = crate::count::lemma_count_found(g, 0, 65536);
        let d = key * 65536 + x;
        lemma_join(key, x);
        assert(chunks_hold(chunks, d));
        let i = choose|i: int|
            0 <= i < chunks.len() && (#[trigger] chunks[i]).key == d / 65536
                && chunks[i].store.holds(d % 65536);
        assert(ks[i] == key as u16);
    }
    assert(ascending(ks)) by {
        assert forall|i: int, j: int| 0 <= i < j < ks.len() implies ks[i] < ks[j] by {
            assert(chunks[i].key < chunks[j].key);
        }
    }
    lemma_listing_unique(ks, f, 65536);
    lemma_list_count(ks);
}

} // verus!

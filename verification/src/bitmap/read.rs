//! Reading a set back.
use super::chunks::{chunks_hold, chunks_ok, forms, ordinals, Chunk};
use super::format::{
    decode_bodies, decode_keys, decode_list, decode_offsets, decode_rest, decode_runs,
    decode_store, decode_words, decoded, decoded_forms, flagged, listed_forms, lows, placed,
    read_form, read_forms, stretch, COOKIE_PLAIN, COOKIE_RUNS, OFFSETS_FROM,
};
use super::list::in_list;
use super::runs::{in_runs, runs_ok, Run};
use super::store::{lemma_same_members, members, Store, ARRAY_MAX, BITS_BYTES};
use super::words::Words;
use crate::codec::{get_u16, get_u32, get_u64, le_value, split_at};
use crate::count::ascending;
use crate::error::{Error, Result};
use vstd::prelude::*;

verus! {

/// What a run list covers.
pub open spec fn covering(runs: Seq<Run>) -> Set<int> {
    Set::new(|x: int| in_runs(runs, x))
}

/// What a list holds.
pub open spec fn holding(list: Seq<u16>) -> Set<int> {
    Set::new(|x: int| in_list(list, x))
}

/// What was read so far, with what is read of the rest.
spec fn with_runs(
    set: Set<int>,
    held: nat,
    rest: core::result::Result<(Set<int>, nat), Error>,
) -> core::result::Result<(Set<int>, nat), Error> {
    match rest {
        Ok((more, n)) => Ok((set.union(more), held + n)),
        Err(error) => Err(error),
    }
}

spec fn with_list(
    set: Set<int>,
    rest: core::result::Result<Set<int>, Error>,
) -> core::result::Result<Set<int>, Error> {
    match rest {
        Ok(more) => Ok(set.union(more)),
        Err(error) => Err(error),
    }
}

/// Reads `len` runs, merging those that touch, and says how many members they
/// claim and what is left.
fn read_runs(bytes: &[u8], len: u16) -> (read: Result<(Vec<Run>, usize, &[u8])>)
    ensures
        match decode_runs(bytes@, len as nat, -1) {
            Ok((set, held)) => read matches Ok((runs, n, rest)) && runs_ok(runs@) && covering(
                runs@,
            ) == set && n == held && n <= 65536 && rest@ == bytes@.skip(4 * len) && (n > 0
                ==> runs@.len() > 0),
            Err(error) => read matches Err(e) && e == error,
        },
{
    let mut runs: Vec<Run> = Vec::new();
    let mut held: usize = 0;
    let mut rest = bytes;
    let mut i: u16 = 0;
    let ghost mut last: int = -1;
    let ghost whole = decode_runs(bytes@, len as nat, -1);
    proof {
        assert(bytes@.skip(0) =~= bytes@);
        assert(covering(runs@) =~= Set::<int>::empty());
        if whole is Ok {
            assert(covering(runs@).union(whole->Ok_0.0) =~= whole->Ok_0.0);
        }
    }
    while i < len
        invariant
            i <= len,
            4 * i <= bytes@.len(),
            rest@ == bytes@.skip(4 * i),
            runs_ok(runs@),
            -1 <= last <= 65535,
            last == if runs@.len() == 0 {
                -1
            } else {
                runs@[runs@.len() - 1].last as int
            },
            held <= last + 1,
            held > 0 ==> runs@.len() > 0,
            whole == decode_runs(bytes@, len as nat, -1),
            whole == with_runs(
                covering(runs@),
                held as nat,
                decode_runs(rest@, (len - i) as nat, last),
            ),
        decreases len - i,
    {
        let ghost here = rest@;
        let ghost before = runs@;
        let ghost was = last;
        let (start, next) = match get_u16(rest) {
            Ok(read) => read,
            Err(error) => {
                return Err(error);
            },
        };
        let (length, next) = match get_u16(next) {
            Ok(read) => read,
            Err(error) => {
                return Err(error);
            },
        };
        if start as u32 + length as u32 > 65535 {
            return Err(Error::Overflow);
        }
        let end: u16 = start + length;
        let n: usize = runs.len();
        if n > 0 && start <= runs[n - 1].last {
            return Err(Error::NotSorted { at: start as u32 });
        }
        if n > 0 && start == runs[n - 1].last + 1 {
            let grown = Run { start: runs[n - 1].start, last: end };
            runs.set(n - 1, grown);
        } else {
            runs.push(Run { start, last: end });
        }
        held = held + (length as usize + 1);
        rest = next;
        proof {
            last = end as int;
            assert(rest@ =~= here.skip(4));
            assert(rest@ =~= bytes@.skip(4 * (i + 1)));
            assert(runs_ok(runs@)) by {
                assert forall|a: int, b: int| 0 <= a < b < runs@.len() implies (
                #[trigger] runs@[a]).last + 1 < (#[trigger] runs@[b]).start by {
                    if b == before.len() && a < before.len() - 1 {
                        assert(before[a].last + 1 < before[before.len() - 1].start);
                    }
                }
            }
            assert(covering(runs@) =~= covering(before).union(stretch(start as int, end as int)))
                by {
                assert forall|x: int| in_runs(runs@, x) == (in_runs(before, x) || start <= x
                    <= end) by {
                    if in_runs(before, x) {
                        let k = choose|k: int|
                            0 <= k < before.len() && (#[trigger] before[k]).start <= x
                                <= before[k].last;
                        assert(runs@[k].start <= x <= runs@[k].last);
                    }
                    if start <= x <= end {
                        let k = runs@.len() - 1;
                        assert(runs@[k].start <= x <= runs@[k].last);
                    }
                    if in_runs(runs@, x) && !(start <= x <= end) {
                        let k = choose|k: int|
                            0 <= k < runs@.len() && (#[trigger] runs@[k]).start <= x
                                <= runs@[k].last;
                        assert(before[k].start <= x <= before[k].last);
                    }
                }
            }
            let tail = decode_runs(rest@, (len - i - 1) as nat, last);
            if tail is Ok {
                let more = tail->Ok_0.0;
                assert(covering(before).union(more.union(stretch(start as int, end as int)))
                    =~= covering(runs@).union(more));
            }
        }
        i = i + 1;
    }
    proof {
        assert(covering(runs@).union(Set::<int>::empty()) =~= covering(runs@));
    }
    Ok((runs, held, rest))
}

/// Reads `count` ordinals, ascending, and says what is left.
fn read_list(bytes: &[u8], count: usize) -> (read: Result<(Vec<u16>, &[u8])>)
    requires
        count <= 4096,
    ensures
        match decode_list(bytes@, count as nat, -1) {
            Ok(set) => read matches Ok((list, rest)) && ascending(list@) && list@.len() == count
                && holding(list@) == set && rest@ == bytes@.skip(2 * count),
            Err(error) => read matches Err(e) && e == error,
        },
{
    let mut list: Vec<u16> = Vec::new();
    let mut rest = bytes;
    let mut i: usize = 0;
    let ghost mut last: int = -1;
    let ghost whole = decode_list(bytes@, count as nat, -1);
    proof {
        assert(bytes@.skip(0) =~= bytes@);
        assert(holding(list@) =~= Set::<int>::empty());
        if whole is Ok {
            assert(holding(list@).union(whole->Ok_0) =~= whole->Ok_0);
        }
    }
    while i < count
        invariant
            i <= count,
            count <= 4096,
            2 * i <= bytes@.len(),
            rest@ == bytes@.skip(2 * i),
            ascending(list@),
            list@.len() == i,
            last == if list@.len() == 0 {
                -1
            } else {
                list@[list@.len() - 1] as int
            },
            whole == decode_list(bytes@, count as nat, -1),
            whole == with_list(
                holding(list@),
                decode_list(rest@, (count - i) as nat, last),
            ),
        decreases count - i,
    {
        let ghost here = rest@;
        let ghost before = list@;
        let (low, next) = match get_u16(rest) {
            Ok(read) => read,
            Err(error) => {
                return Err(error);
            },
        };
        let n: usize = list.len();
        if n > 0 && low <= list[n - 1] {
            return Err(Error::NotSorted { at: low as u32 });
        }
        list.push(low);
        rest = next;
        proof {
            last = low as int;
            assert(rest@ =~= here.skip(2));
            assert(rest@ =~= bytes@.skip(2 * (i + 1)));
            assert(holding(list@) =~= holding(before).insert(low as int)) by {
                assert forall|x: int| #[trigger] in_list(list@, x) == (in_list(before, x) || x == low) by {
                    if in_list(before, x) {
                        let k = before.index_of(x as u16);
                        assert(list@[k] == x as u16);
                    }
                    if x == low {
                        assert(list@[before.len() as int] == x as u16);
                    }
                    if in_list(list@, x) && x != low {
                        let k = list@.index_of(x as u16);
                        assert(before[k] == x as u16);
                    }
                }
            }
            let tail = decode_list(rest@, (count - i - 1) as nat, last);
            if tail is Ok {
                let more = tail->Ok_0;
                assert(holding(before).union(more.insert(low as int)) =~= holding(list@).union(
                    more,
                ));
            }
        }
        i = i + 1;
    }
    proof {
        assert(holding(list@).union(Set::<int>::empty()) =~= holding(list@));
    }
    Ok((list, rest))
}

/// Reads the words of a chunk.
fn read_words(bytes: &[u8]) -> (words: Words)
    requires
        bytes@.len() == 8192,
    ensures
        words.wf(),
        forall|w: int|
            0 <= w < 1024 ==> #[trigger] words.bits@[w] == le_value(bytes@.skip(8 * w).take(8)),
{
    let mut bits: Vec<u64> = Vec::new();
    let mut rest = bytes;
    let mut i: usize = 0;
    assert(bytes@.skip(0) =~= bytes@);
    while i < 1024
        invariant
            i <= 1024,
            bytes@.len() == 8192,
            bits@.len() == i,
            rest@ == bytes@.skip(8 * i),
            forall|w: int|
                0 <= w < i ==> #[trigger] bits@[w] == le_value(bytes@.skip(8 * w).take(8)),
        decreases 1024 - i,
    {
        match get_u64(rest) {
            Ok((word, next)) => {
                proof {
                    assert(next@ =~= bytes@.skip(8 * (i + 1)));
                }
                bits.push(word);
                rest = next;
            },
            Err(_) => {
                assert(false);
            },
        }
        i = i + 1;
    }
    Words::from_bits(bits)
}

impl Store {
    /// Reads a container holding `count` members, and says what is left.
    ///
    /// Which of the three it is has already been decided by the caller: the run
    /// flag says whether it is runs, and a container of more than four thousand
    /// and ninety six members is words and anything else is an array.
    pub fn read(bytes: &[u8], count: usize, held_as_runs: bool) -> (read: Result<(Store, &[u8])>)
        requires
            1 <= count <= 65536,
        ensures
            match decode_store(bytes@, count as nat, held_as_runs) {
                Ok((set, taken)) => read matches Ok((store, rest)) && store.wf() && members(
                    store.set(),
                ) > 0 && lows(store.set()) == set && store.held() == read_form(
                    count as nat,
                    held_as_runs,
                ) && taken <= bytes@.len() && rest@ == bytes@.skip(taken as int),
                Err(error) => read matches Err(e) && e == error,
            },
    {
        if held_as_runs {
            let (len, rest) = match get_u16(bytes) {
                Ok(read) => read,
                Err(error) => {
                    return Err(error);
                },
            };
            proof {
                lemma_runs_taken(rest@, len as nat, -1);
            }
            let (runs, held, rest) = match read_runs(rest, len) {
                Ok(read) => read,
                Err(error) => {
                    return Err(error);
                },
            };
            if held != count {
                return Err(Error::BadCardinality { stated: count, found: held });
            }
            let store = Store::Runs(runs);
            proof {
                assert(rest@ =~= bytes@.skip(2 + 4 * len));
                assert(lows(store.set()) =~= covering(runs@));
                assert(runs@[0].start <= runs@[0].start <= runs@[0].last);
                assert(store.set()(runs@[0].start as int));
                crate::count::lemma_count_some(
                    store.set(),
                    0,
                    65536,
                    runs@[0].start as int,
                );
            }
            return Ok((store, rest));
        }
        if count > ARRAY_MAX {
            let (bits, rest) = match split_at(bytes, BITS_BYTES) {
                Ok(read) => read,
                Err(error) => {
                    return Err(error);
                },
            };
            let words = read_words(bits);
            let held: usize = words.count as usize;
            proof {
                let f = decode_words(bytes@);
                let g = words.set();
                assert forall|x: int| 0 <= x < 65536 implies #[trigger] f(x) == g(x) by {
                    let w = x / 64;
                    assert(bits@.skip(8 * w).take(8) =~= bytes@.skip(8 * w).take(8));
                    assert(words.bits@[w] == le_value(bits@.skip(8 * w).take(8)));
                }
                lemma_same_members(f, g);
            }
            if held != count {
                return Err(Error::BadCardinality { stated: count, found: held });
            }
            let store = Store::Bits(words);
            proof {
                store.lemma_count();
                assert(lows(store.set()) =~= lows(decode_words(bytes@))) by {
                    assert forall|x: int| 0 <= x < 65536 implies store.holds(x) == decode_words(
                        bytes@,
                    )(x) by {
                        let w = x / 64;
                        assert(bits@.skip(8 * w).take(8) =~= bytes@.skip(8 * w).take(8));
                        assert(words.bits@[w] == le_value(bits@.skip(8 * w).take(8)));
                    }
                }
            }
            return Ok((store, rest));
        }
        proof {
            lemma_list_taken(bytes@, count as nat, -1);
        }
        match read_list(bytes, count) {
            Ok((list, rest)) => {
                let store = Store::Array(list);
                proof {
                    store.lemma_count();
                    assert(lows(store.set()) =~= holding(list@));
                }
                Ok((store, rest))
            },
            Err(error) => Err(error),
        }
    }
}

pub proof fn lemma_runs_taken(bytes: Seq<u8>, n: nat, last: int)
    ensures
        decode_runs(bytes, n, last) is Ok ==> 4 * n <= bytes.len(),
    decreases n,
{
    if n > 0 && bytes.len() >= 4 {
        let start = le_value(bytes.take(2));
        let length = le_value(bytes.skip(2).take(2));
        lemma_runs_taken(bytes.skip(4), (n - 1) as nat, (start + length) as int);
    }
}

pub proof fn lemma_list_taken(bytes: Seq<u8>, n: nat, last: int)
    ensures
        decode_list(bytes, n, last) is Ok ==> 2 * n <= bytes.len(),
    decreases n,
{
    if n > 0 && bytes.len() >= 2 {
        lemma_list_taken(bytes.skip(2), (n - 1) as nat, le_value(bytes.take(2)) as int);
    }
}

/// Keys and cardinalities as the format counts them.
pub open spec fn keys_view(keys: Seq<(u16, usize)>) -> Seq<(u16, nat)> {
    Seq::new(keys.len(), |i: int| (keys[i].0, keys[i].1 as nat))
}

spec fn with_keys(
    keys: Seq<(u16, nat)>,
    rest: core::result::Result<Seq<(u16, nat)>, Error>,
) -> core::result::Result<Seq<(u16, nat)>, Error> {
    match rest {
        Ok(more) => Ok(keys + more),
        Err(error) => Err(error),
    }
}

/// Reads the keys and the cardinalities, and says what is left.
fn read_keys(bytes: &[u8], containers: usize) -> (read: Result<(Vec<(u16, usize)>, &[u8])>)
    ensures
        match decode_keys(bytes@, containers as nat, -1) {
            Ok(found) => read matches Ok((keys, rest)) && keys_view(keys@) == found && keys@.len()
                == containers && 4 * containers <= bytes@.len() && rest@ == bytes@.skip(
                4 * containers,
            ) && (forall|i: int|
                0 <= i < keys@.len() ==> 1 <= (#[trigger] keys@[i]).1 <= 65536) && (forall|
                i: int,
                j: int,
            |
                0 <= i < j < keys@.len() ==> (#[trigger] keys@[i]).0 < (#[trigger] keys@[j]).0),
            Err(error) => read matches Err(e) && e == error,
        },
{
    let mut keys: Vec<(u16, usize)> = Vec::new();
    let mut rest = bytes;
    let mut i: usize = 0;
    let ghost mut last: int = -1;
    let ghost whole = decode_keys(bytes@, containers as nat, -1);
    proof {
        assert(bytes@.skip(0) =~= bytes@);
        if whole is Ok {
            assert(keys_view(keys@) + whole->Ok_0 =~= whole->Ok_0);
        }
    }
    while i < containers
        invariant
            i <= containers,
            4 * i <= bytes@.len(),
            rest@ == bytes@.skip(4 * i),
            keys@.len() == i,
            last == if keys@.len() == 0 {
                -1
            } else {
                keys@[keys@.len() - 1].0 as int
            },
            forall|k: int| 0 <= k < keys@.len() ==> 1 <= (#[trigger] keys@[k]).1 <= 65536,
            forall|a: int, b: int|
                0 <= a < b < keys@.len() ==> (#[trigger] keys@[a]).0 < (#[trigger] keys@[b]).0,
            whole == decode_keys(bytes@, containers as nat, -1),
            whole == with_keys(
                keys_view(keys@),
                decode_keys(rest@, (containers - i) as nat, last),
            ),
        decreases containers - i,
    {
        let ghost here = rest@;
        let ghost before = keys@;
        let (key, next) = match get_u16(rest) {
            Ok(read) => read,
            Err(error) => {
                return Err(error);
            },
        };
        let (least, next) = match get_u16(next) {
            Ok(read) => read,
            Err(error) => {
                return Err(error);
            },
        };
        let n: usize = keys.len();
        if n > 0 && key <= keys[n - 1].0 {
            return Err(Error::NotSorted { at: key as u32 });
        }
        // The cardinality is written one less than it is, so a container
        // holding a whole chunk fits in two bytes and an empty one cannot be
        // spelled at all.
        keys.push((key, least as usize + 1));
        rest = next;
        proof {
            last = key as int;
            assert(rest@ =~= here.skip(4));
            assert(rest@ =~= bytes@.skip(4 * (i + 1)));
            let pair = seq![(key, (least + 1) as nat)];
            assert(keys_view(keys@) =~= keys_view(before) + pair);
            let tail = decode_keys(rest@, (containers - i - 1) as nat, last);
            if tail is Ok {
                assert(keys_view(before) + (pair + tail->Ok_0) =~= keys_view(keys@) + tail->Ok_0);
            }
        }
        i = i + 1;
    }
    proof {
        assert(keys_view(keys@) + Seq::<(u16, nat)>::empty() =~= keys_view(keys@));
    }
    Ok((keys, rest))
}

pub open spec fn offsets_view(offsets: Seq<usize>) -> Seq<nat> {
    Seq::new(offsets.len(), |i: int| offsets[i] as nat)
}

spec fn with_offsets(
    offsets: Seq<nat>,
    rest: core::result::Result<Seq<nat>, Error>,
) -> core::result::Result<Seq<nat>, Error> {
    match rest {
        Ok(more) => Ok(offsets + more),
        Err(error) => Err(error),
    }
}

/// Reads the offsets, and says what is left.
fn read_offsets(bytes: &[u8], containers: usize) -> (read: Result<(Vec<usize>, &[u8])>)
    ensures
        match decode_offsets(bytes@, containers as nat) {
            Ok(found) => read matches Ok((offsets, rest)) && offsets_view(offsets@) == found && 4
                * containers <= bytes@.len() && rest@ == bytes@.skip(4 * containers),
            Err(error) => read matches Err(e) && e == error,
        },
{
    let mut offsets: Vec<usize> = Vec::new();
    let mut rest = bytes;
    let mut i: usize = 0;
    let ghost whole = decode_offsets(bytes@, containers as nat);
    proof {
        assert(bytes@.skip(0) =~= bytes@);
        if whole is Ok {
            assert(offsets_view(offsets@) + whole->Ok_0 =~= whole->Ok_0);
        }
    }
    while i < containers
        invariant
            i <= containers,
            4 * i <= bytes@.len(),
            rest@ == bytes@.skip(4 * i),
            whole == decode_offsets(bytes@, containers as nat),
            whole == with_offsets(
                offsets_view(offsets@),
                decode_offsets(rest@, (containers - i) as nat),
            ),
        decreases containers - i,
    {
        let ghost here = rest@;
        let ghost before = offsets@;
        let (offset, next) = match get_u32(rest) {
            Ok(read) => read,
            Err(error) => {
                return Err(error);
            },
        };
        offsets.push(offset as usize);
        rest = next;
        proof {
            assert(rest@ =~= here.skip(4));
            assert(rest@ =~= bytes@.skip(4 * (i + 1)));
            let one = seq![offset as nat];
            assert(offsets_view(offsets@) =~= offsets_view(before) + one);
            let tail = decode_offsets(rest@, (containers - i - 1) as nat);
            if tail is Ok {
                assert(offsets_view(before) + (one + tail->Ok_0) =~= offsets_view(offsets@)
                    + tail->Ok_0);
            }
        }
        i = i + 1;
    }
    proof {
        assert(offsets_view(offsets@) + Seq::<nat>::empty() =~= offsets_view(offsets@));
    }
    Ok((offsets, rest))
}

spec fn with_ordinals(
    set: Set<u32>,
    rest: core::result::Result<Set<u32>, Error>,
) -> core::result::Result<Set<u32>, Error> {
    match rest {
        Ok(more) => Ok(set.union(more)),
        Err(error) => Err(error),
    }
}

/// Reads the containers of a file of `total` bytes.
fn read_bodies(
    total: usize,
    bytes: &[u8],
    keys: &Vec<(u16, usize)>,
    offsets: &Vec<usize>,
    flags: &[u8],
) -> (read: Result<Vec<Chunk>>)
    requires
        bytes@.len() <= total,
        forall|i: int| 0 <= i < keys@.len() ==> 1 <= (#[trigger] keys@[i]).1 <= 65536,
        forall|i: int, j: int|
            0 <= i < j < keys@.len() ==> (#[trigger] keys@[i]).0 < (#[trigger] keys@[j]).0,
    ensures
        match decode_bodies(
            total as nat,
            bytes@,
            keys_view(keys@),
            offsets_view(offsets@),
            flags@,
            0,
        ) {
            Ok(set) => read matches Ok(chunks) && chunks_ok(chunks@) && ordinals(chunks@) == set
                && forms(chunks@) == read_forms(keys_view(keys@), flags@),
            Err(error) => read matches Err(e) && e == error,
        },
{
    let mut chunks: Vec<Chunk> = Vec::new();
    let mut rest = bytes;
    let mut i: usize = 0;
    let ghost ks = keys_view(keys@);
    let ghost os = offsets_view(offsets@);
    let ghost whole = decode_bodies(total as nat, bytes@, ks, os, flags@, 0);
    proof {
        assert(ordinals(chunks@) =~= Set::<u32>::empty());
        if whole is Ok {
            assert(ordinals(chunks@).union(whole->Ok_0) =~= whole->Ok_0);
        }
    }
    while i < keys.len()
        invariant
            i <= keys@.len(),
            rest@.len() <= total,
            ks == keys_view(keys@),
            os == offsets_view(offsets@),
            forall|i: int| 0 <= i < keys@.len() ==> 1 <= (#[trigger] keys@[i]).1 <= 65536,
            forall|i: int, j: int|
                0 <= i < j < keys@.len() ==> (#[trigger] keys@[i]).0 < (#[trigger] keys@[j]).0,
            chunks@.len() == i,
            chunks_ok(chunks@),
            forall|k: int|
                0 <= k < i ==> (#[trigger] chunks@[k]).key == keys@[k].0 && chunks@[k].store.held()
                    == read_form(keys@[k].1 as nat, flagged(flags@, k)),
            whole == decode_bodies(total as nat, bytes@, ks, os, flags@, 0),
            whole == with_ordinals(
                ordinals(chunks@),
                decode_bodies(total as nat, rest@, ks, os, flags@, i as int),
            ),
        decreases keys.len() - i,
    {
        let ghost here = rest@;
        let ghost before = chunks@;
        let reached: usize = total - rest.len();
        if i < offsets.len() && offsets[i] != reached {
            // The offsets say the same thing as the order the containers are
            // in, which is what makes them worth checking rather than skipping.
            return Err(Error::BadOffset { stated: offsets[i], found: reached });
        }
        let (key, count) = keys[i];
        assert(1 <= keys@[i as int].1 <= 65536);
        let held_as_runs: bool = i / 8 < flags.len() && ((flags[i / 8] as u64) >> ((i % 8) as u64))
            & 1 == 1;
        assert(held_as_runs == flagged(flags@, i as int));
        let (store, next) = match Store::read(rest, count, held_as_runs) {
            Ok(read) => read,
            Err(error) => {
                return Err(error);
            },
        };
        let ghost set = lows(store.set());
        chunks.push(Chunk { key, store });
        rest = next;
        proof {
            assert(chunks_ok(chunks@)) by {
                assert forall|a: int, b: int| 0 <= a < b < chunks@.len() implies (
                #[trigger] chunks@[a]).key < (#[trigger] chunks@[b]).key by {
                    assert(keys@[a].0 < keys@[b].0);
                }
            }
            assert(ordinals(chunks@) =~= ordinals(before).union(placed(set, key))) by {
                assert forall|d: u32| ordinals(chunks@).contains(d) == (ordinals(before).contains(d)
                    || placed(set, key).contains(d)) by {
                    if chunks_hold(before, d as int) {
                        let k = choose|k: int|
                            0 <= k < before.len() && (#[trigger] before[k]).key == d as int / 65536
                                && before[k].store.holds(d as int % 65536);
                        assert(chunks@[k].key == d as int / 65536);
                    }
                    if placed(set, key).contains(d) {
                        assert(chunks@[i as int].key == d as int / 65536);
                    }
                    if chunks_hold(chunks@, d as int) {
                        let k = choose|k: int|
                            0 <= k < chunks@.len() && (#[trigger] chunks@[k]).key == d as int
                                / 65536 && chunks@[k].store.holds(d as int % 65536);
                        if k < i {
                            assert(before[k].key == d as int / 65536);
                        }
                    }
                }
            }
            let tail = decode_bodies(total as nat, rest@, ks, os, flags@, i + 1);
            if tail is Ok {
                let more = tail->Ok_0;
                assert(ordinals(before).union(more.union(placed(set, key))) =~= ordinals(
                    chunks@,
                ).union(more));
            }
        }
        i = i + 1;
    }
    proof {
        assert(ordinals(chunks@).union(Set::<u32>::empty()) =~= ordinals(chunks@));
        assert(forms(chunks@) =~= read_forms(ks, flags@));
    }
    Ok(chunks)
}

/// Reads what follows the cookie and the flags.
fn read_rest(total: usize, bytes: &[u8], containers: usize, runs: bool, flags: &[u8]) -> (read:
    Result<Vec<Chunk>>)
    requires
        bytes@.len() <= total,
    ensures
        match decode_rest(total as nat, bytes@, containers as nat, runs, flags@) {
            Ok(set) => read matches Ok(chunks) && chunks_ok(chunks@) && ordinals(chunks@) == set
                && forms(chunks@) == listed_forms(bytes@, containers as nat, flags@),
            Err(error) => read matches Err(e) && e == error,
        },
{
    let (keys, rest) = match read_keys(bytes, containers) {
        Ok(read) => read,
        Err(error) => {
            return Err(error);
        },
    };
    let mut offsets: Vec<usize> = Vec::new();
    if containers > 0 && (!runs || containers >= OFFSETS_FROM) {
        let (found, rest) = match read_offsets(rest, containers) {
            Ok(read) => read,
            Err(error) => {
                return Err(error);
            },
        };
        return read_bodies(total, rest, &keys, &found, flags);
    }
    assert(offsets_view(offsets@) =~= Seq::<nat>::empty());
    read_bodies(total, rest, &keys, &offsets, flags)
}

/// Reads the chunks of a set written down.
pub fn chunks_read(bytes: &[u8]) -> (read: Result<Vec<Chunk>>)
    ensures
        match decoded(bytes@) {
            Ok(set) => read matches Ok(chunks) && chunks_ok(chunks@) && ordinals(chunks@) == set
                && forms(chunks@) == decoded_forms(bytes@),
            Err(error) => read matches Err(e) && e == error,
        },
{
    let total: usize = bytes.len();
    let (cookie, rest) = match get_u32(bytes) {
        Ok(read) => read,
        Err(error) => {
            return Err(error);
        },
    };
    if cookie % 65536 == COOKIE_RUNS {
        // The count is the top half of the cookie, less one.
        let containers: usize = (cookie / 65536) as usize + 1;
        let (flags, rest) = match split_at(rest, (containers + 7) / 8) {
            Ok(read) => read,
            Err(error) => {
                return Err(error);
            },
        };
        read_rest(total, rest, containers, true, flags)
    } else if cookie == COOKIE_PLAIN {
        let (count, rest) = match get_u32(rest) {
            Ok(read) => read,
            Err(error) => {
                return Err(error);
            },
        };
        let none: Vec<u8> = Vec::new();
        assert(none@ =~= Seq::<u8>::empty());
        read_rest(total, rest, count as usize, false, none.as_slice())
    } else {
        Err(Error::BadMagic)
    }
}

} // verus!

//! What was written down is what is read back.
use super::format::{
    any_runs, body_bytes, body_len, chunk_set, container_bytes, decode_bodies, decode_keys,
    decode_list, decode_offsets, decode_rest, decode_runs, decode_store, decode_word,
    decode_words, decoded, descriptor_bytes, encoded, flag_bytes, flagged, header_size, keys_of,
    lemma_body_len, lemma_container_len, lemma_descriptor_len, lemma_encoded_len,
    lemma_offset_len, lemma_runs_of, lemma_word_bytes_len, list_bytes, lows, offset_bytes,
    offsets_size, placed, run_bytes, run_flags, runs_of, shape_of, shape_size, stretch,
    word_bytes, Shape,
};
use super::list::{in_list, lemma_list_count};
use super::read::{covering, holding, lemma_list_taken, lemma_runs_taken};
use super::runs::{covered_by, in_runs, lemma_runs_count, runs_ok, runs_set, Run};
use super::store::{lemma_same_members, members, stretches};
use super::words::starts;
use crate::bits::{bits_value, lemma_value_bits};
use crate::codec::{law_fixed_round_trip, le_bytes, le_value, lemma_le_bytes, lemma_le_unfold};
use crate::count::{ascending, lemma_listing, listing};
use crate::error::Error;
use vstd::prelude::*;

verus! {

proof fn lemma_u16(value: nat, rest: Seq<u8>)
    requires
        value < 65536,
    ensures
        (le_bytes(value, 2) + rest).len() == 2 + rest.len(),
        le_value((le_bytes(value, 2) + rest).take(2)) == value,
        (le_bytes(value, 2) + rest).skip(2) == rest,
{
    lemma_le_unfold(0);
    law_fixed_round_trip(value, 2, rest);
}

proof fn lemma_list_round(list: Seq<u16>, last: int, rest: Seq<u8>)
    requires
        ascending(list),
        list.len() > 0 ==> list[0] > last,
    ensures
        decode_list(list_bytes(list) + rest, list.len(), last) == Ok::<Set<int>, Error>(
            holding(list),
        ),
    decreases list.len(),
{
    if list.len() == 0 {
        assert(holding(list) =~= Set::<int>::empty());
    } else {
        let tail = list.skip(1);
        let bytes = list_bytes(list) + rest;
        let after = list_bytes(tail) + rest;
        assert(bytes =~= le_bytes(list[0] as nat, 2) + after);
        lemma_u16(list[0] as nat, after);
        if tail.len() > 0 {
            assert(tail[0] == list[1]);
        }
        lemma_list_round(tail, list[0] as int, rest);
        assert(holding(list) =~= holding(tail).insert(list[0] as int)) by {
            assert forall|x: int| #[trigger] in_list(list, x) == (in_list(tail, x) || x
                == list[0]) by {
                if in_list(list, x) {
                    let k = list.index_of(x as u16);
                    if k > 0 {
                        assert(tail[k - 1] == x as u16);
                    }
                }
                if in_list(tail, x) {
                    let k = tail.index_of(x as u16);
                    assert(list[k + 1] == x as u16);
                }
            }
        }
    }
}

proof fn lemma_covered_front(runs: Seq<Run>, n: int)
    requires
        0 < n <= runs.len(),
        forall|i: int| 0 <= i < runs.len() ==> (#[trigger] runs[i]).start <= runs[i].last,
    ensures
        covered_by(runs, n) == (runs[0].last - runs[0].start + 1) + covered_by(
            runs.skip(1),
            n - 1,
        ),
    decreases n,
{
    assert(runs[n - 1].start <= runs[n - 1].last);
    if n > 1 {
        lemma_covered_front(runs, n - 1);
        assert(runs.skip(1)[n - 2] == runs[n - 1]);
    } else {
        assert(covered_by(runs, 0) == 0);
    }
}

proof fn lemma_runs_round(runs: Seq<Run>, last: int, rest: Seq<u8>)
    requires
        runs_ok(runs),
        runs.len() > 0 ==> runs[0].start > last,
    ensures
        decode_runs(run_bytes(runs) + rest, runs.len(), last) == Ok::<(Set<int>, nat), Error>(
            (covering(runs), covered_by(runs, runs.len() as int)),
        ),
    decreases runs.len(),
{
    if runs.len() == 0 {
        assert(covering(runs) =~= Set::<int>::empty());
    } else {
        let run = runs[0];
        assert(run.start <= run.last);
        let length = (run.last - run.start) as nat;
        let tail = runs.skip(1);
        let bytes = run_bytes(runs) + rest;
        let after = run_bytes(tail) + rest;
        assert(bytes =~= le_bytes(run.start as nat, 2) + (le_bytes(length, 2) + after));
        lemma_u16(run.start as nat, le_bytes(length, 2) + after);
        lemma_u16(length, after);
        assert(bytes.skip(4) =~= bytes.skip(2).skip(2));
        assert(runs_ok(tail)) by {
            assert forall|i: int| 0 <= i < tail.len() implies (#[trigger] tail[i]).start
                <= tail[i].last by {
                assert(tail[i] == runs[i + 1]);
            }
            assert forall|i: int, j: int| 0 <= i < j < tail.len() implies (#[trigger] tail[i]).last
                + 1 < (#[trigger] tail[j]).start by {
                assert(runs[i + 1].last + 1 < runs[j + 1].start);
            }
        }
        if tail.len() > 0 {
            assert(tail[0] == runs[1]);
            assert(runs[0].last + 1 < runs[1].start);
        }
        lemma_runs_round(tail, run.last as int, rest);
        lemma_covered_front(runs, runs.len() as int);
        assert(covering(runs) =~= covering(tail).union(stretch(run.start as int, run.last as int)))
            by {
            assert forall|x: int| #[trigger] in_runs(runs, x) == (in_runs(tail, x) || run.start <= x
                <= run.last) by {
                if in_runs(runs, x) {
                    let k = choose|k: int|
                        0 <= k < runs.len() && (#[trigger] runs[k]).start <= x <= runs[k].last;
                    if k > 0 {
                        assert(tail[k - 1].start <= x <= tail[k - 1].last);
                    }
                }
                if in_runs(tail, x) {
                    let k = choose|k: int|
                        0 <= k < tail.len() && (#[trigger] tail[k]).start <= x <= tail[k].last;
                    assert(runs[k + 1].start <= x <= runs[k + 1].last);
                }
                if run.start <= x <= run.last {
                    assert(runs[0].start <= x <= runs[0].last);
                }
            }
        }
    }
}

/// The stretches of the members below `hi`, built one member at a time.
spec fn built(g: spec_fn(int) -> bool, hi: int) -> Seq<Run>
    decreases hi,
{
    if hi <= 0 {
        Seq::empty()
    } else {
        let had = built(g, hi - 1);
        if !g(hi - 1) {
            had
        } else if had.len() > 0 && had.last().last + 1 == hi - 1 {
            had.drop_last().push(Run { start: had.last().start, last: (hi - 1) as u16 })
        } else {
            had.push(Run { start: (hi - 1) as u16, last: (hi - 1) as u16 })
        }
    }
}

proof fn lemma_built(g: spec_fn(int) -> bool, hi: int)
    requires
        0 <= hi <= 65536,
    ensures
        runs_ok(built(g, hi)),
        forall|i: int| 0 <= i < built(g, hi).len() ==> (#[trigger] built(g, hi)[i]).last < hi,
        forall|x: int| #[trigger] in_runs(built(g, hi), x) == (0 <= x < hi && g(x)),
    decreases hi,
{
    let now = built(g, hi);
    if hi > 0 {
        lemma_built(g, hi - 1);
        let had = built(g, hi - 1);
        let top = hi - 1;
        if had.len() > 0 {
            assert(had[had.len() - 1].last < top);
        }
        assert forall|i: int, j: int| 0 <= i < j < now.len() implies (#[trigger] now[i]).last + 1 < (
        #[trigger] now[j]).start by {
            if g(top) && j == now.len() - 1 && j == had.len() {
                if i < had.len() - 1 {
                    assert(had[i].last + 1 < had[had.len() - 1].start);
                    assert(had[had.len() - 1].start <= had[had.len() - 1].last);
                }
            } else {
                assert(had[i].last + 1 < had[j].start);
            }
        }
        assert forall|i: int| 0 <= i < now.len() implies (#[trigger] now[i]).start
            <= now[i].last by {
            if i < had.len() {
                assert(had[i].start <= had[i].last);
            }
        }
        assert forall|x: int| #[trigger] in_runs(now, x) == (0 <= x < hi && g(x)) by {
            assert(in_runs(had, x) == (0 <= x < top && g(x)));
            if in_runs(had, x) {
                let k = choose|k: int|
                    0 <= k < had.len() && (#[trigger] had[k]).start <= x <= had[k].last;
                assert(now[k].start <= x <= now[k].last);
            }
            if x == top && g(x) {
                let k = now.len() - 1;
                assert(now[k].start <= x <= now[k].last);
            }
            if in_runs(now, x) {
                let k = choose|k: int|
                    0 <= k < now.len() && (#[trigger] now[k]).start <= x <= now[k].last;
                if x != top {
                    assert(had[k].start <= x <= had[k].last);
                } else if !g(top) {
                    assert(had[k].last < top);
                }
            }
        }
    }
}

/// The stretches of some members are a run list that covers them.
pub(crate) proof fn lemma_runs_of_ok(g: spec_fn(int) -> bool)
    ensures
        runs_ok(runs_of(g)),
        runs_of(g).len() == stretches(g),
        covering(runs_of(g)) == lows(g),
        covered_by(runs_of(g), runs_of(g).len() as int) == members(g),
{
    let runs = built(g, 65536);
    lemma_built(g, 65536);
    assert forall|x: int| 0 <= x < 65536 implies #[trigger] in_runs(runs, x) == g(x) by {}
    lemma_runs_of(runs, g);
    assert(covering(runs) =~= lows(g));
    lemma_runs_count(runs);
    assert forall|x: int| 0 <= x < 65536 implies #[trigger] runs_set(runs)(x) == g(x) by {
        assert(in_runs(runs, x) == g(x));
    }
    lemma_same_members(runs_set(runs), g);
}

proof fn lemma_word_at(g: spec_fn(int) -> bool, from: int, w: int, rest: Seq<u8>)
    requires
        0 <= from <= w < 1024,
    ensures
        (word_bytes(g, from) + rest).skip(8 * (w - from)).take(8) == le_bytes(
            bits_value(g, 64 * w, 64),
            8,
        ),
    decreases w - from,
{
    let first = le_bytes(bits_value(g, 64 * from, 64), 8);
    lemma_le_bytes(bits_value(g, 64 * from, 64), 8);
    lemma_word_bytes_len(g, from);
    lemma_word_bytes_len(g, from + 1);
    let bytes = word_bytes(g, from) + rest;
    if w == from {
        assert(bytes.skip(0).take(8) =~= first);
    } else {
        lemma_word_at(g, from + 1, w, rest);
        assert(bytes.skip(8 * (w - from)).take(8) =~= (word_bytes(g, from + 1) + rest).skip(
            8 * (w - (from + 1)),
        ).take(8));
    }
}

pub(crate) proof fn lemma_words_round(g: spec_fn(int) -> bool, rest: Seq<u8>)
    ensures
        forall|x: int|
            0 <= x < 65536 ==> #[trigger] decode_words(word_bytes(g, 0) + rest)(x) == g(x),
{
    let bytes = word_bytes(g, 0) + rest;
    assert forall|x: int| 0 <= x < 65536 implies #[trigger] decode_words(bytes)(x) == g(x) by {
        let w = x / 64;
        lemma_word_at(g, 0, w, rest);
        lemma_value_bits(g, 64 * w, 64, x % 64);
        lemma_le_unfold(0);
        lemma_le_bytes(bits_value(g, 64 * w, 64), 8);
        assert(decode_word(bytes, w) == bits_value(g, 64 * w, 64));
        assert(64 * w + x % 64 == x);
    }
}

/// A container is read back as what it holds.
pub proof fn lemma_store_round(g: spec_fn(int) -> bool, rest: Seq<u8>)
    ensures
        decode_store(container_bytes(g) + rest, members(g), shape_of(g) is Runs) == Ok::<
            (Set<int>, nat),
            Error,
        >((lows(g), container_bytes(g).len())),
{
    let bytes = container_bytes(g) + rest;
    crate::count::lemma_count_bound(g, 0, 65536);
    crate::count::lemma_count_bound(starts(g), 0, 65536);
    lemma_container_len(g);
    match shape_of(g) {
        Shape::Array(_) => {
            let list = listing(g, 65536);
            lemma_listing(g, 65536);
            lemma_list_round(list, -1, rest);
            assert(holding(list) =~= lows(g)) by {
                assert forall|x: int| #[trigger] in_list(list, x) == (0 <= x < 65536 && g(x)) by {
                    if in_list(list, x) {
                        let k = list.index_of(x as u16);
                        assert(list[k] < 65536 && g(list[k] as int));
                    }
                }
            }
        },
        Shape::Words => {
            lemma_words_round(g, rest);
            let f = decode_words(bytes);
            assert forall|x: int| 0 <= x < 65536 implies #[trigger] f(x) == g(x) by {}
            lemma_same_members(f, g);
            assert(lows(f) =~= lows(g));
        },
        Shape::Runs(n) => {
            lemma_runs_of_ok(g);
            let after = run_bytes(runs_of(g)) + rest;
            assert(bytes =~= le_bytes(n as nat, 2) + after);
            lemma_u16(n as nat, after);
            lemma_runs_round(runs_of(g), -1, rest);
        },
    }
}

/// The keys of some chunks with what each holds.
spec fn described(s: Set<u32>, ks: Seq<u16>) -> Seq<(u16, nat)> {
    Seq::new(ks.len(), |i: int| (ks[i], members(chunk_set(s, ks[i] as int))))
}

proof fn lemma_keys_round(s: Set<u32>, ks: Seq<u16>, last: int, rest: Seq<u8>)
    requires
        ascending(ks),
        ks.len() > 0 ==> ks[0] > last,
        forall|i: int|
            0 <= i < ks.len() ==> members(chunk_set(s, #[trigger] ks[i] as int)) > 0,
    ensures
        decode_keys(descriptor_bytes(s, ks) + rest, ks.len(), last) == Ok::<
            Seq<(u16, nat)>,
            Error,
        >(described(s, ks)),
    decreases ks.len(),
{
    if ks.len() == 0 {
        assert(described(s, ks) =~= Seq::<(u16, nat)>::empty());
    } else {
        let tail = ks.skip(1);
        let g = chunk_set(s, ks[0] as int);
        let least = (members(g) - 1) as nat;
        assert(members(chunk_set(s, ks[0] as int)) > 0);
        crate::count::lemma_count_bound(g, 0, 65536);
        let bytes = descriptor_bytes(s, ks) + rest;
        let after = descriptor_bytes(s, tail) + rest;
        assert(bytes =~= le_bytes(ks[0] as nat, 2) + (le_bytes(least, 2) + after));
        lemma_u16(ks[0] as nat, le_bytes(least, 2) + after);
        lemma_u16(least, after);
        assert(bytes.skip(4) =~= bytes.skip(2).skip(2));
        if tail.len() > 0 {
            assert(tail[0] == ks[1]);
        }
        assert forall|i: int| 0 <= i < tail.len() implies members(
            chunk_set(s, #[trigger] tail[i] as int),
        ) > 0 by {
            assert(tail[i] == ks[i + 1]);
        }
        lemma_keys_round(s, tail, ks[0] as int, rest);
        assert(described(s, ks) =~= seq![(ks[0], members(g))] + described(s, tail));
    }
}

/// Where each container starts.
spec fn starting(s: Set<u32>, ks: Seq<u16>, at: nat) -> Seq<nat> {
    Seq::new(ks.len(), |i: int| at + body_len(s, ks.take(i)))
}

proof fn lemma_offsets_round(s: Set<u32>, ks: Seq<u16>, at: nat, rest: Seq<u8>)
    requires
        at + 8192 * ks.len() < 0x1_0000_0000,
    ensures
        decode_offsets(offset_bytes(s, ks, at) + rest, ks.len()) == Ok::<Seq<nat>, Error>(
            starting(s, ks, at),
        ),
    decreases ks.len(),
{
    if ks.len() == 0 {
        assert(starting(s, ks, at) =~= Seq::<nat>::empty());
    } else {
        let tail = ks.skip(1);
        let g = chunk_set(s, ks[0] as int);
        let size = shape_size(shape_of(g));
        lemma_container_len(g);
        let bytes = offset_bytes(s, ks, at) + rest;
        let after = offset_bytes(s, tail, at + size) + rest;
        assert(bytes =~= le_bytes(at, 4) + after);
        lemma_le_unfold(0);
        law_fixed_round_trip(at, 4, after);
        lemma_offsets_round(s, tail, at + size, rest);
        assert(starting(s, ks, at) =~= seq![at] + starting(s, tail, at + size)) by {
            assert(ks.take(0) =~= Seq::<u16>::empty());
            assert forall|i: int| 0 < i < ks.len() implies body_len(s, #[trigger] ks.take(i))
                == size + body_len(s, tail.take(i - 1)) by {
                let taken = ks.take(i);
                assert(taken[0] == ks[0]);
                assert(taken.skip(1) =~= tail.take(i - 1));
            }
        }
    }
}

/// What a set holds of the chunks from chunk `i` on.
spec fn remaining(s: Set<u32>, ks: Seq<u16>, i: int) -> Set<u32> {
    Set::new(|d: u32| s.contains(d) && exists|j: int| i <= j < ks.len() && #[trigger] ks[j] == d as int / 65536)
}

pub(crate) proof fn lemma_body_split(s: Set<u32>, ks: Seq<u16>, i: int)
    requires
        0 <= i < ks.len(),
    ensures
        body_len(s, ks.take(i + 1)) == body_len(s, ks.take(i)) + shape_size(
            shape_of(chunk_set(s, ks[i] as int)),
        ),
    decreases i,
{
    if i == 0 {
        assert(ks.take(0) =~= Seq::<u16>::empty());
        assert(ks.take(1)[0] == ks[0]);
        assert(ks.take(1).skip(1) =~= Seq::<u16>::empty());
    } else {
        let tail = ks.skip(1);
        lemma_body_split(s, tail, i - 1);
        assert(ks.take(i + 1).skip(1) =~= tail.take(i));
        assert(ks.take(i).skip(1) =~= tail.take(i - 1));
        assert(tail[i - 1] == ks[i]);
        assert(ks.take(i + 1)[0] == ks[0]);
        assert(ks.take(i)[0] == ks[0]);
    }
}

proof fn lemma_bodies_round(
    s: Set<u32>,
    ks: Seq<u16>,
    at: nat,
    total: nat,
    offsets: Seq<nat>,
    flags: Seq<u8>,
    i: int,
    rest: Seq<u8>,
)
    requires
        0 <= i <= ks.len(),
        offsets.len() == 0 || offsets == starting(s, ks, at),
        forall|k: int|
            0 <= k < ks.len() ==> flagged(flags, k) == (shape_of(
                chunk_set(s, #[trigger] ks[k] as int),
            ) is Runs),
        total == at + body_len(s, ks.take(i)) + body_bytes(s, ks.skip(i)).len() + rest.len(),
    ensures
        decode_bodies(
            total,
            body_bytes(s, ks.skip(i)) + rest,
            described(s, ks),
            offsets,
            flags,
            i,
        ) == Ok::<Set<u32>, Error>(remaining(s, ks, i)),
    decreases ks.len() - i,
{
    let keys = described(s, ks);
    let bytes = body_bytes(s, ks.skip(i)) + rest;
    if i == ks.len() {
        assert(remaining(s, ks, i) =~= Set::<u32>::empty());
    } else {
        let key = ks[i];
        let g = chunk_set(s, key as int);
        let tail = ks.skip(i + 1);
        assert(ks.skip(i)[0] == key);
        assert(ks.skip(i).skip(1) =~= tail);
        let after = body_bytes(s, tail) + rest;
        assert(bytes =~= container_bytes(g) + after);
        lemma_store_round(g, after);
        lemma_container_len(g);
        lemma_body_split(s, ks, i);
        assert(bytes.skip(container_bytes(g).len() as int) =~= after);
        lemma_bodies_round(s, ks, at, total, offsets, flags, i + 1, rest);
        assert(remaining(s, ks, i) =~= remaining(s, ks, i + 1).union(placed(lows(g), key))) by {
            assert forall|d: u32| remaining(s, ks, i).contains(d) == (remaining(
                s,
                ks,
                i + 1,
            ).contains(d) || placed(lows(g), key).contains(d)) by {
                let low = d as int % 65536;
                if d as int / 65536 == key {
                    assert(key * 65536 + low == d);
                    assert(lows(g).contains(low) == s.contains(d));
                }
                if remaining(s, ks, i).contains(d) {
                    let j = choose|j: int|
                        i <= j < ks.len() && #[trigger] ks[j] == d as int / 65536;
                    if j > i {
                        assert(remaining(s, ks, i + 1).contains(d));
                    }
                }
                if remaining(s, ks, i + 1).contains(d) {
                    let j = choose|j: int|
                        i + 1 <= j < ks.len() && #[trigger] ks[j] == d as int / 65536;
                    assert(remaining(s, ks, i).contains(d));
                }
            }
        }
    }
}

pub(crate) proof fn lemma_flags_round(s: Set<u32>, ks: Seq<u16>, k: int)
    requires
        0 <= k < ks.len(),
    ensures
        flagged(flag_bytes(s, ks), k) == (shape_of(chunk_set(s, ks[k] as int)) is Runs),
{
    let f = run_flags(s, ks);
    let b = k / 8;
    let flags = flag_bytes(s, ks);
    assert(b < flags.len());
    let value = bits_value(f, 8 * b, 8);
    lemma_value_bits(f, 8 * b, 8, k % 8);
    assert(value < 256) by {
        reveal_with_fuel(bits_value, 9);
    }
    assert(flags[b] as u64 == value);
    assert(8 * b + k % 8 == k);
}

/// What follows the cookie and the flags.
spec fn after_flags(s: Set<u32>) -> Seq<u8> {
    let ks = keys_of(s);
    let n = ks.len();
    let runs = any_runs(s, ks);
    descriptor_bytes(s, ks) + (if offsets_size(n, runs) > 0 {
        offset_bytes(s, ks, header_size(n, runs))
    } else {
        Seq::empty()
    }) + body_bytes(s, ks)
}

proof fn lemma_keys_of(s: Set<u32>)
    ensures
        ascending(keys_of(s)),
        keys_of(s).len() <= 65536,
        forall|i: int|
            0 <= i < keys_of(s).len() ==> members(chunk_set(s, #[trigger] keys_of(s)[i] as int))
                > 0,
        remaining(s, keys_of(s), 0) == s,
{
    let ks = keys_of(s);
    let f = |key: int| members(chunk_set(s, key)) > 0;
    lemma_listing(f, 65536);
    lemma_list_count(ks);
    assert forall|i: int| 0 <= i < ks.len() implies members(chunk_set(s, #[trigger] ks[i] as int))
        > 0 by {
        assert(f(ks[i] as int));
    }
    assert(remaining(s, ks, 0) =~= s) by {
        assert forall|d: u32| s.contains(d) implies remaining(s, ks, 0).contains(d) by {
            let key = d as int / 65536;
            let low = d as int % 65536;
            let g = chunk_set(s, key);
            assert(key * 65536 + low == d);
            assert(g(low));
            crate::count::lemma_count_some(g, 0, 65536, low);
            assert(f(key));
            assert(ks.contains(key as u16));
            let j = ks.index_of(key as u16);
            assert(ks[j] == d as int / 65536);
        }
    }
}

proof fn lemma_rest_round(s: Set<u32>, flags: Seq<u8>, rest: Seq<u8>)
    requires
        forall|k: int|
            0 <= k < keys_of(s).len() ==> flagged(flags, k) == (shape_of(
                chunk_set(s, #[trigger] keys_of(s)[k] as int),
            ) is Runs),
    ensures
        decode_rest(
            encoded(s).len() + rest.len(),
            after_flags(s) + rest,
            keys_of(s).len(),
            any_runs(s, keys_of(s)),
            flags,
        ) == Ok::<Set<u32>, Error>(s),
{
    let ks = keys_of(s);
    let n = ks.len();
    let runs = any_runs(s, ks);
    let at = header_size(n, runs);
    let total = encoded(s).len() + rest.len();
    lemma_keys_of(s);
    let bodies = body_bytes(s, ks) + rest;
    let table: Seq<u8> = if offsets_size(n, runs) > 0 {
        offset_bytes(s, ks, at)
    } else {
        Seq::empty()
    };
    lemma_descriptor_len(s, ks);
    lemma_offset_len(s, ks, at);
    lemma_keys_round(s, ks, -1, table + bodies);
    let bytes = after_flags(s) + rest;
    assert(bytes =~= descriptor_bytes(s, ks) + (table + bodies));
    assert(bytes.skip(4 * n as int) =~= table + bodies);
    lemma_encoded_len(s);
    lemma_body_len(s, ks);
    assert(ks.take(0) =~= Seq::<u16>::empty());
    assert(ks.skip(0) =~= ks);
    if offsets_size(n, runs) > 0 {
        lemma_offsets_round(s, ks, at, bodies);
        assert((table + bodies).skip(4 * n as int) =~= bodies);
        lemma_bodies_round(s, ks, at, total, starting(s, ks, at), flags, 0, rest);
    } else {
        assert(table + bodies =~= bodies);
        lemma_bodies_round(s, ks, at, total, Seq::empty(), flags, 0, rest);
    }
}

proof fn lemma_runs_file(n: nat, flags: Seq<u8>, body: Seq<u8>)
    requires
        0 < n <= 65536,
        flags.len() == (n + 7) / 8,
    ensures
        ({
            let bytes = le_bytes((12347 + 65536 * (n - 1)) as nat, 4) + (flags + body);
            decoded(bytes) == decode_rest(bytes.len(), body, n, true, flags)
        }),
{
    let cookie = (12347 + 65536 * (n - 1)) as nat;
    let after = flags + body;
    let l = (n + 7) / 8;
    lemma_le_unfold(0);
    law_fixed_round_trip(cookie, 4, after);
    assert(cookie % 65536 == 12347 && cookie / 65536 + 1 == n);
    assert(after.take(l as int) =~= flags);
    assert(after.skip(l as int) =~= body);
}

proof fn lemma_plain_file(n: nat, body: Seq<u8>)
    requires
        n <= 65536,
    ensures
        ({
            let bytes = le_bytes(12346, 4) + (le_bytes(n, 4) + body);
            decoded(bytes) == decode_rest(bytes.len(), body, n, false, Seq::empty())
        }),
{
    lemma_le_unfold(0);
    law_fixed_round_trip(12346, 4, le_bytes(n, 4) + body);
    law_fixed_round_trip(n, 4, body);
}

proof fn lemma_joined(a: Seq<u8>, b: Seq<u8>, c: Seq<u8>, d: Seq<u8>, e: Seq<u8>, rest: Seq<u8>)
    ensures
        (a + b) + c + d + e + rest == a + (b + (c + d + e + rest)),
{
    assert((a + b) + c + d + e + rest =~= a + (b + (c + d + e + rest)));
}

/// The parts of the bytes of a set.
proof fn lemma_parts(s: Set<u32>, rest: Seq<u8>)
    ensures
        encoded(s) + rest == if any_runs(s, keys_of(s)) {
            le_bytes((12347 + 65536 * (keys_of(s).len() - 1)) as nat, 4) + (flag_bytes(
                s,
                keys_of(s),
            ) + (after_flags(s) + rest))
        } else {
            le_bytes(12346, 4) + (le_bytes(keys_of(s).len(), 4) + (after_flags(s) + rest))
        },
{
    let ks = keys_of(s);
    let n = ks.len();
    let runs = any_runs(s, ks);
    let table: Seq<u8> = if offsets_size(n, runs) > 0 {
        offset_bytes(s, ks, header_size(n, runs))
    } else {
        Seq::empty()
    };
    if runs {
        lemma_joined(
            le_bytes((12347 + 65536 * (n - 1)) as nat, 4),
            flag_bytes(s, ks),
            descriptor_bytes(s, ks),
            table,
            body_bytes(s, ks),
            rest,
        );
    } else {
        lemma_joined(
            le_bytes(12346, 4),
            le_bytes(n, 4),
            descriptor_bytes(s, ks),
            table,
            body_bytes(s, ks),
            rest,
        );
    }
}

/// The flags say which containers are runs.
proof fn lemma_flags(s: Set<u32>)
    ensures
        forall|k: int|
            0 <= k < keys_of(s).len() ==> flagged(
                if any_runs(s, keys_of(s)) {
                    flag_bytes(s, keys_of(s))
                } else {
                    Seq::empty()
                },
                k,
            ) == (shape_of(chunk_set(s, #[trigger] keys_of(s)[k] as int)) is Runs),
        any_runs(s, keys_of(s)) ==> keys_of(s).len() > 0,
{
    let ks = keys_of(s);
    let runs = any_runs(s, ks);
    let flags: Seq<u8> = if runs {
        flag_bytes(s, ks)
    } else {
        Seq::empty()
    };
    assert forall|k: int| 0 <= k < ks.len() implies flagged(flags, k) == (shape_of(
        chunk_set(s, #[trigger] ks[k] as int),
    ) is Runs) by {
        if runs {
            lemma_flags_round(s, ks, k);
        } else {
            assert(!run_flags(s, ks)(k));
        }
    }
    if runs {
        let i = choose|i: int| #[trigger] run_flags(s, ks)(i);
    }
}

/// A set written down and read back is the same set, whatever follows it.
pub proof fn law_round_trip(s: Set<u32>, rest: Seq<u8>)
    ensures
        decoded(encoded(s) + rest) == Ok::<Set<u32>, Error>(s),
{
    let n = keys_of(s).len();
    lemma_keys_of(s);
    lemma_flags(s);
    lemma_parts(s, rest);
    if any_runs(s, keys_of(s)) {
        lemma_rest_round(s, flag_bytes(s, keys_of(s)), rest);
        lemma_runs_file(n, flag_bytes(s, keys_of(s)), after_flags(s) + rest);
    } else {
        lemma_rest_round(s, Seq::empty(), rest);
        lemma_plain_file(n, after_flags(s) + rest);
    }
}

/// Different sets have different bytes.
pub proof fn law_encoding_injective(a: Set<u32>, b: Set<u32>)
    requires
        encoded(a) == encoded(b),
    ensures
        a == b,
{
    law_round_trip(a, Seq::empty());
    law_round_trip(b, Seq::empty());
}

// ---------------------------------------------------------------------------
// Bytes that stop early.
// ---------------------------------------------------------------------------

/// Whether what came of reading is that the bytes ended inside something.
pub open spec fn ended<T>(read: core::result::Result<T, Error>) -> bool {
    read matches Err(Error::Truncated { .. })
}

proof fn lemma_list_short(bytes: Seq<u8>, n: nat, last: int, end: int)
    requires
        decode_list(bytes, n, last) is Ok,
        0 <= end < 2 * n,
    ensures
        ended(decode_list(bytes.take(end), n, last)),
    decreases n,
{
    lemma_list_taken(bytes, n, last);
    let cut = bytes.take(end);
    if end >= 2 {
        assert(cut.take(2) =~= bytes.take(2));
        assert(cut.skip(2) =~= bytes.skip(2).take(end - 2));
        lemma_list_short(bytes.skip(2), (n - 1) as nat, le_value(bytes.take(2)) as int, end - 2);
    }
}

proof fn lemma_runs_short(bytes: Seq<u8>, n: nat, last: int, end: int)
    requires
        decode_runs(bytes, n, last) is Ok,
        0 <= end < 4 * n,
    ensures
        ended(decode_runs(bytes.take(end), n, last)),
    decreases n,
{
    lemma_runs_taken(bytes, n, last);
    let cut = bytes.take(end);
    if end >= 4 {
        let start = le_value(bytes.take(2));
        let length = le_value(bytes.skip(2).take(2));
        assert(cut.take(2) =~= bytes.take(2));
        assert(cut.skip(2).take(2) =~= bytes.skip(2).take(2));
        assert(cut.skip(4) =~= bytes.skip(4).take(end - 4));
        lemma_runs_short(bytes.skip(4), (n - 1) as nat, (start + length) as int, end - 4);
    }
}

proof fn lemma_keys_short(bytes: Seq<u8>, n: nat, last: int, end: int)
    requires
        decode_keys(bytes, n, last) is Ok,
        4 * n <= bytes.len(),
        0 <= end < 4 * n,
    ensures
        ended(decode_keys(bytes.take(end), n, last)),
    decreases n,
{
    let cut = bytes.take(end);
    if end >= 4 {
        assert(cut.take(2) =~= bytes.take(2));
        assert(cut.skip(2).take(2) =~= bytes.skip(2).take(2));
        assert(cut.skip(4) =~= bytes.skip(4).take(end - 4));
        lemma_keys_short(bytes.skip(4), (n - 1) as nat, le_value(bytes.take(2)) as int, end - 4);
    }
}

proof fn lemma_offsets_short(bytes: Seq<u8>, n: nat, end: int)
    requires
        4 * n <= bytes.len(),
        0 <= end < 4 * n,
    ensures
        ended(decode_offsets(bytes.take(end), n)),
    decreases n,
{
    if end >= 4 {
        assert(bytes.take(end).skip(4) =~= bytes.skip(4).take(end - 4));
        lemma_offsets_short(bytes.skip(4), (n - 1) as nat, end - 4);
    }
}

proof fn lemma_store_short(bytes: Seq<u8>, count: nat, as_runs: bool, end: int)
    requires
        decode_store(bytes, count, as_runs) is Ok,
        0 <= end < decode_store(bytes, count, as_runs)->Ok_0.1,
    ensures
        ended(decode_store(bytes.take(end), count, as_runs)),
{
    let cut = bytes.take(end);
    if as_runs {
        if end >= 2 {
            let n = le_value(bytes.take(2));
            lemma_runs_taken(bytes.skip(2), n, -1);
            assert(cut.take(2) =~= bytes.take(2));
            assert(cut.skip(2) =~= bytes.skip(2).take(end - 2));
            lemma_runs_short(bytes.skip(2), n, -1, end - 2);
        } else {
            assert(bytes.len() >= 2);
        }
    } else if count <= 4096 {
        lemma_list_short(bytes, count, -1, end);
    }
}

proof fn lemma_bodies_short(
    s: Set<u32>,
    ks: Seq<u16>,
    at: nat,
    total: nat,
    offsets: Seq<nat>,
    flags: Seq<u8>,
    i: int,
    end: int,
)
    requires
        0 <= i <= ks.len(),
        offsets.len() == 0 || offsets == starting(s, ks, at),
        forall|k: int|
            0 <= k < ks.len() ==> flagged(flags, k) == (shape_of(
                chunk_set(s, #[trigger] ks[k] as int),
            ) is Runs),
        0 <= end < body_bytes(s, ks.skip(i)).len(),
        total == at + body_len(s, ks.take(i)) + end,
    ensures
        ended(
            decode_bodies(
                total,
                body_bytes(s, ks.skip(i)).take(end),
                described(s, ks),
                offsets,
                flags,
                i,
            ),
        ),
    decreases ks.len() - i,
{
    let bytes = body_bytes(s, ks.skip(i));
    if i == ks.len() {
        assert(ks.skip(i) =~= Seq::<u16>::empty());
    } else {
        let key = ks[i];
        let g = chunk_set(s, key as int);
        let tail = ks.skip(i + 1);
        assert(ks.skip(i)[0] == key);
        assert(ks.skip(i).skip(1) =~= tail);
        let after = body_bytes(s, tail);
        let first = container_bytes(g);
        assert(bytes =~= first + after);
        lemma_container_len(g);
        lemma_body_split(s, ks, i);
        if end < first.len() {
            lemma_store_round(g, after);
            lemma_store_short(bytes, members(g), shape_of(g) is Runs, end);
        } else {
            let cut = after.take(end - first.len());
            assert(bytes.take(end) =~= first + cut);
            lemma_store_round(g, cut);
            assert((first + cut).skip(first.len() as int) =~= cut);
            lemma_bodies_short(
                s,
                ks,
                at,
                total,
                offsets,
                flags,
                i + 1,
                end - first.len(),
            );
        }
    }
}

proof fn lemma_rest_short(s: Set<u32>, flags: Seq<u8>, total: nat, end: int)
    requires
        forall|k: int|
            0 <= k < keys_of(s).len() ==> flagged(flags, k) == (shape_of(
                chunk_set(s, #[trigger] keys_of(s)[k] as int),
            ) is Runs),
        0 <= end < after_flags(s).len(),
        total == encoded(s).len() - after_flags(s).len() + end,
    ensures
        ended(
            decode_rest(
                total,
                after_flags(s).take(end),
                keys_of(s).len(),
                any_runs(s, keys_of(s)),
                flags,
            ),
        ),
{
    let ks = keys_of(s);
    let n = ks.len();
    let runs = any_runs(s, ks);
    let at = header_size(n, runs);
    lemma_keys_of(s);
    let bodies = body_bytes(s, ks);
    let table: Seq<u8> = if offsets_size(n, runs) > 0 {
        offset_bytes(s, ks, at)
    } else {
        Seq::empty()
    };
    let keys = descriptor_bytes(s, ks);
    lemma_descriptor_len(s, ks);
    lemma_offset_len(s, ks, at);
    lemma_encoded_len(s);
    lemma_body_len(s, ks);
    let bytes = after_flags(s);
    assert(bytes =~= keys + (table + bodies));
    assert(ks.take(0) =~= Seq::<u16>::empty());
    assert(ks.skip(0) =~= ks);
    if end < keys.len() {
        lemma_keys_round(s, ks, -1, table + bodies);
        lemma_keys_short(bytes, n, -1, end);
    } else {
        let rest = (table + bodies).take(end - keys.len());
        assert(bytes.take(end) =~= keys + rest);
        lemma_keys_round(s, ks, -1, rest);
        assert((keys + rest).skip(4 * n as int) =~= rest);
        if offsets_size(n, runs) > 0 {
            if rest.len() < table.len() {
                lemma_offsets_short(table + bodies, n, rest.len() as int);
            } else {
                let left = rest.len() - table.len();
                let cut = bodies.take(left);
                assert(rest =~= table + cut);
                lemma_offsets_round(s, ks, at, cut);
                assert((table + cut).skip(4 * n as int) =~= cut);
                lemma_bodies_short(s, ks, at, total, starting(s, ks, at), flags, 0, left);
            }
        } else {
            let cut = bodies.take(rest.len() as int);
            assert(rest =~= cut);
            lemma_bodies_short(s, ks, at, total, Seq::empty(), flags, 0, rest.len() as int);
        }
    }
}

proof fn lemma_runs_file_short(n: nat, flags: Seq<u8>, body: Seq<u8>, end: int)
    requires
        0 < n <= 65536,
        flags.len() == (n + 7) / 8,
        0 <= end < 4 + flags.len() + body.len(),
    ensures
        ({
            let bytes = le_bytes((12347 + 65536 * (n - 1)) as nat, 4) + (flags + body);
            let left = end - 4 - flags.len();
            if left < 0 {
                ended(decoded(bytes.take(end)))
            } else {
                decoded(bytes.take(end)) == decode_rest(
                    end as nat,
                    body.take(left),
                    n,
                    true,
                    flags,
                )
            }
        }),
{
    let cookie = (12347 + 65536 * (n - 1)) as nat;
    let head = le_bytes(cookie, 4);
    let bytes = head + (flags + body);
    let left = end - 4 - flags.len();
    lemma_le_bytes(cookie, 4);
    if left >= 0 {
        assert(bytes.take(end) =~= head + (flags + body.take(left)));
        lemma_runs_file(n, flags, body.take(left));
    } else if end >= 4 {
        lemma_le_unfold(0);
        law_fixed_round_trip(cookie, 4, flags + body);
        assert(bytes.take(end).take(4) =~= bytes.take(4));
        assert(cookie % 65536 == 12347 && cookie / 65536 + 1 == n);
    }
}

proof fn lemma_plain_file_short(n: nat, body: Seq<u8>, end: int)
    requires
        n <= 65536,
        0 <= end < 8 + body.len(),
    ensures
        ({
            let bytes = le_bytes(12346, 4) + (le_bytes(n, 4) + body);
            if end < 8 {
                ended(decoded(bytes.take(end)))
            } else {
                decoded(bytes.take(end)) == decode_rest(
                    end as nat,
                    body.take(end - 8),
                    n,
                    false,
                    Seq::empty(),
                )
            }
        }),
{
    let head = le_bytes(12346, 4);
    let bytes = head + (le_bytes(n, 4) + body);
    lemma_le_bytes(12346, 4);
    lemma_le_bytes(n, 4);
    if end >= 8 {
        assert(bytes.take(end) =~= head + (le_bytes(n, 4) + body.take(end - 8)));
        lemma_plain_file(n, body.take(end - 8));
    } else if end >= 4 {
        lemma_le_unfold(0);
        law_fixed_round_trip(12346, 4, le_bytes(n, 4) + body);
        assert(bytes.take(end).take(4) =~= bytes.take(4));
    }
}

/// No proper prefix of a set written down is read as a set: the bytes always end
/// inside something.
pub proof fn law_a_prefix_is_refused(s: Set<u32>, end: int)
    requires
        0 <= end < encoded(s).len(),
    ensures
        ended(decoded(encoded(s).take(end))),
{
    let ks = keys_of(s);
    let n = ks.len();
    let after = after_flags(s);
    lemma_keys_of(s);
    lemma_flags(s);
    lemma_parts(s, Seq::empty());
    assert(encoded(s) + Seq::<u8>::empty() =~= encoded(s));
    assert(after + Seq::<u8>::empty() =~= after);
    lemma_le_bytes((12347 + 65536 * (n - 1)) as nat, 4);
    lemma_le_bytes(12346, 4);
    lemma_le_bytes(n, 4);
    if any_runs(s, ks) {
        let flags = flag_bytes(s, ks);
        lemma_runs_file_short(n, flags, after, end);
        if end >= 4 + flags.len() {
            lemma_rest_short(s, flags, end as nat, end - 4 - flags.len());
        }
    } else {
        lemma_plain_file_short(n, after, end);
        if end >= 8 {
            lemma_rest_short(s, Seq::empty(), end as nat, end - 8);
        }
    }
}

} // verus!

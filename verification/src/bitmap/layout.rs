//! Where everything is in the bytes of a set, and what a form costs.
use super::chunks::{form_with, Chunk};
use super::format::{
    any_runs, body_bytes, body_len, chunk_set, container_bytes, decode_word, decode_words,
    descriptor_bytes, encoded, flag_bytes, header_size, keys_of, lemma_body_len,
    lemma_container_len, lemma_descriptor_len, lemma_encoded_len, lemma_list_bytes_len,
    lemma_offset_len, lemma_run_bytes_len, list_bytes, lows, offset_bytes, offsets_size, run_bytes,
    runs_of, shape_of, shape_size, word_bytes,
};
use super::read::covering;
use super::round_trip::{lemma_body_split, lemma_flags_round, lemma_runs_of_ok, lemma_words_round};
use super::runs::{in_runs, Run};
use super::store::{cheapest, members, stretches, Held};
use super::words::starts;
use super::{cheapest_forms, footprint, held_in, payload};
use crate::bits::bit;
use crate::codec::{le_bytes, le_value, lemma_le_bytes, lemma_le_unfold};
use crate::count::{
    ascending, lemma_count_bound, lemma_count_found, lemma_count_some, lemma_listing, listing,
};
use vstd::prelude::*;

verus! {

// ---------------------------------------------------------------------------
// A container.
// ---------------------------------------------------------------------------

proof fn lemma_list_at(list: Seq<u16>, j: int)
    requires
        0 <= j < list.len(),
    ensures
        le_value(list_bytes(list).subrange(2 * j, 2 * j + 2)) == list[j],
    decreases list.len(),
{
    let rest = list.skip(1);
    let first = le_bytes(list[0] as nat, 2);
    lemma_le_unfold(0);
    lemma_le_bytes(list[0] as nat, 2);
    lemma_list_bytes_len(rest);
    if j == 0 {
        assert(list_bytes(list).subrange(0, 2) =~= first);
    } else {
        lemma_list_at(rest, j - 1);
        assert(list_bytes(list).subrange(2 * j, 2 * j + 2) =~= list_bytes(rest).subrange(
            2 * (j - 1),
            2 * (j - 1) + 2,
        ));
    }
}

proof fn lemma_run_at(runs: Seq<Run>, j: int)
    requires
        0 <= j < runs.len(),
        runs[j].start <= runs[j].last,
    ensures
        le_value(run_bytes(runs).subrange(4 * j, 4 * j + 2)) == runs[j].start,
        le_value(run_bytes(runs).subrange(4 * j + 2, 4 * j + 4)) == runs[j].last - runs[j].start,
    decreases runs.len(),
{
    let rest = runs.skip(1);
    let first = le_bytes(runs[0].start as nat, 2);
    let second = le_bytes((runs[0].last - runs[0].start) as nat, 2);
    lemma_le_unfold(0);
    lemma_le_bytes(runs[0].start as nat, 2);
    lemma_le_bytes((runs[0].last - runs[0].start) as nat, 2);
    lemma_run_bytes_len(rest);
    if j == 0 {
        assert(run_bytes(runs).subrange(0, 2) =~= first);
        assert(run_bytes(runs).subrange(2, 4) =~= second);
    } else {
        lemma_run_at(rest, j - 1);
        assert(run_bytes(runs).subrange(4 * j, 4 * j + 2) =~= run_bytes(rest).subrange(
            4 * (j - 1),
            4 * (j - 1) + 2,
        ));
        assert(run_bytes(runs).subrange(4 * j + 2, 4 * j + 4) =~= run_bytes(rest).subrange(
            4 * (j - 1) + 2,
            4 * (j - 1) + 4,
        ));
    }
}

/// Run `j` of a container of runs: where it starts, and where it ends.
pub open spec fn run_in(bytes: Seq<u8>, j: int) -> (int, int) {
    let start = le_value(bytes.subrange(2 + 4 * j, 4 + 4 * j)) as int;
    (start, start + le_value(bytes.subrange(4 + 4 * j, 6 + 4 * j)))
}

/// Member `j` of a container of members.
pub open spec fn member_in(bytes: Seq<u8>, j: int) -> int {
    le_value(bytes.subrange(2 * j, 2 * j + 2)) as int
}

/// What the bytes of a container are. Where the stretches of its members take fewer bytes
/// than the members and than the words, it is how many stretches there are, and then the
/// first ordinal and how many more of each. Otherwise it is its members, in order, where
/// they are at most 4096, and one bit for every ordinal of the chunk where they are more.
pub proof fn law_a_container_holds_its_members(g: spec_fn(int) -> bool)
    ensures
        ({
            let bytes = container_bytes(g);
            let n = members(g);
            let r = stretches(g);
            &&& 4 * r < 2 * n && 4 * r < 8192 ==> {
                &&& bytes.len() == 2 + 4 * r
                &&& le_value(bytes.subrange(0, 2)) == r
                &&& forall|x: int|
                    0 <= x < 65536 ==> (#[trigger] g(x) <==> exists|j: int|
                        0 <= j < r && (#[trigger] run_in(bytes, j)).0 <= x <= run_in(bytes, j).1)
                &&& forall|i: int, j: int|
                    0 <= i < j < r ==> (#[trigger] run_in(bytes, i)).1 + 1 < (#[trigger] run_in(
                        bytes,
                        j,
                    )).0
            }
            &&& !(4 * r < 2 * n && 4 * r < 8192) && n <= 4096 ==> {
                &&& bytes.len() == 2 * n
                &&& forall|x: int|
                    0 <= x < 65536 ==> (#[trigger] g(x) <==> exists|j: int|
                        0 <= j < n && #[trigger] member_in(bytes, j) == x)
                &&& forall|i: int, j: int|
                    0 <= i < j < n ==> #[trigger] member_in(bytes, i) < #[trigger] member_in(
                        bytes,
                        j,
                    )
            }
            &&& !(4 * r < 2 * n && 4 * r < 8192) && n > 4096 ==> {
                &&& bytes.len() == 8192
                &&& forall|x: int|
                    0 <= x < 65536 ==> (#[trigger] g(x) <==> bit(
                        le_value(bytes.subrange(8 * (x / 64), 8 * (x / 64) + 8)) as u64,
                        x % 64,
                    ))
            }
        }),
{
    let bytes = container_bytes(g);
    let n = members(g);
    let r = stretches(g);
    lemma_count_bound(g, 0, 65536);
    lemma_count_bound(starts(g), 0, 65536);
    lemma_container_len(g);
    lemma_le_unfold(0);
    if 4 * r < 2 * n && 4 * r < 8192 {
        lemma_in_runs(g);
    } else if n <= 4096 {
        let list = listing(g, 65536);
        lemma_listing(g, 65536);
        assert forall|j: int| 0 <= j < n implies #[trigger] member_in(bytes, j) == list[j] by {
            lemma_list_at(list, j);
        }
        assert forall|x: int| 0 <= x < 65536 implies (#[trigger] g(x) <==> exists|j: int|
            0 <= j < n && #[trigger] member_in(bytes, j) == x) by {
            if g(x) {
                assert(list.contains(x as u16));
                let j = list.index_of(x as u16);
                assert(member_in(bytes, j) == x);
            }
            if exists|j: int| 0 <= j < n && #[trigger] member_in(bytes, j) == x {
                let j = choose|j: int| 0 <= j < n && #[trigger] member_in(bytes, j) == x;
                assert(list[j] == x);
                assert(g(list[j] as int));
            }
        }
    } else {
        lemma_words_round(g, Seq::empty());
        assert(word_bytes(g, 0) + Seq::<u8>::empty() =~= word_bytes(g, 0));
        assert forall|x: int| 0 <= x < 65536 implies (#[trigger] g(x) <==> bit(
            le_value(bytes.subrange(8 * (x / 64), 8 * (x / 64) + 8)) as u64,
            x % 64,
        )) by {
            let w = x / 64;
            assert(decode_words(bytes)(x) == g(x));
            assert(bytes.skip(8 * w).take(8) =~= bytes.subrange(8 * w, 8 * w + 8));
            assert(decode_word(bytes, w) == le_value(bytes.subrange(8 * w, 8 * w + 8)));
        }
    }
}

proof fn lemma_in_runs(g: spec_fn(int) -> bool)
    requires
        4 * stretches(g) < 2 * members(g),
        4 * stretches(g) < 8192,
    ensures
        ({
            let bytes = container_bytes(g);
            let r = stretches(g);
            &&& le_value(bytes.subrange(0, 2)) == r
            &&& forall|x: int|
                0 <= x < 65536 ==> (#[trigger] g(x) <==> exists|j: int|
                    0 <= j < r && (#[trigger] run_in(bytes, j)).0 <= x <= run_in(bytes, j).1)
            &&& forall|i: int, j: int|
                0 <= i < j < r ==> (#[trigger] run_in(bytes, i)).1 + 1 < (#[trigger] run_in(
                    bytes,
                    j,
                )).0
        }),
{
    let bytes = container_bytes(g);
    let r = stretches(g);
    let runs = runs_of(g);
    lemma_count_bound(starts(g), 0, 65536);
    lemma_runs_of_ok(g);
    lemma_run_bytes_len(runs);
    lemma_le_unfold(0);
    lemma_le_bytes(r, 2);
    assert(bytes == le_bytes(r, 2) + run_bytes(runs));
    assert(bytes.subrange(0, 2) =~= le_bytes(r, 2));
    assert forall|j: int| 0 <= j < r implies #[trigger] run_in(bytes, j) == (
        runs[j].start as int,
        runs[j].last as int,
    ) by {
        assert(runs[j].start <= runs[j].last);
        lemma_run_at(runs, j);
        assert(bytes.subrange(2 + 4 * j, 4 + 4 * j) =~= run_bytes(runs).subrange(
            4 * j,
            4 * j + 2,
        ));
        assert(bytes.subrange(4 + 4 * j, 6 + 4 * j) =~= run_bytes(runs).subrange(
            4 * j + 2,
            4 * j + 4,
        ));
    }
    assert forall|x: int| 0 <= x < 65536 implies (#[trigger] g(x) <==> exists|j: int|
        0 <= j < r && (#[trigger] run_in(bytes, j)).0 <= x <= run_in(bytes, j).1) by {
        assert(lows(g).contains(x) == g(x));
        assert(covering(runs).contains(x) == in_runs(runs, x));
        if g(x) {
            let j = choose|j: int|
                0 <= j < runs.len() && (#[trigger] runs[j]).start <= x <= runs[j].last;
            assert(run_in(bytes, j).0 <= x <= run_in(bytes, j).1);
        }
        if exists|j: int|
            0 <= j < r && (#[trigger] run_in(bytes, j)).0 <= x <= run_in(bytes, j).1 {
            let j = choose|j: int|
                0 <= j < r && (#[trigger] run_in(bytes, j)).0 <= x <= run_in(bytes, j).1;
            assert(runs[j].start <= x <= runs[j].last);
        }
    }
    assert forall|i: int, j: int| 0 <= i < j < r implies (#[trigger] run_in(bytes, i)).1 + 1 < (
    #[trigger] run_in(bytes, j)).0 by {
        assert(runs[i].last + 1 < runs[j].start);
    }
}

// ---------------------------------------------------------------------------
// The file.
// ---------------------------------------------------------------------------

/// Whether a chunk goes down as runs.
pub open spec fn in_stretches(s: Set<u32>, key: int) -> bool {
    let g = chunk_set(s, key);
    4 * stretches(g) < 2 * members(g) && 4 * stretches(g) < 8192
}

/// How many bytes a chunk takes.
pub open spec fn taken_by(s: Set<u32>, key: int) -> nat {
    let g = chunk_set(s, key);
    if in_stretches(s, key) {
        2 + 4 * stretches(g)
    } else if members(g) <= 4096 {
        2 * members(g)
    } else {
        8192
    }
}

/// Where container `i` starts, in a file whose front takes `front` bytes.
pub open spec fn starts_at(s: Set<u32>, ks: Seq<u16>, front: nat, i: int) -> nat
    decreases i,
{
    if i <= 0 {
        front
    } else {
        starts_at(s, ks, front, i - 1) + taken_by(s, ks[i - 1] as int)
    }
}

proof fn lemma_taken(s: Set<u32>, key: int)
    ensures
        taken_by(s, key) == shape_size(shape_of(chunk_set(s, key))),
        in_stretches(s, key) == (shape_of(chunk_set(s, key)) is Runs),
{
    let g = chunk_set(s, key);
    lemma_count_bound(g, 0, 65536);
    lemma_count_bound(starts(g), 0, 65536);
}

proof fn lemma_starts(s: Set<u32>, ks: Seq<u16>, front: nat, i: int)
    requires
        0 <= i <= ks.len(),
    ensures
        starts_at(s, ks, front, i) == front + body_len(s, ks.take(i)),
    decreases i,
{
    if i > 0 {
        lemma_starts(s, ks, front, i - 1);
        lemma_body_split(s, ks, i - 1);
        lemma_taken(s, ks[i - 1] as int);
    } else {
        assert(ks.take(0) =~= Seq::<u16>::empty());
    }
}

proof fn lemma_descriptor_at(s: Set<u32>, ks: Seq<u16>, i: int)
    requires
        0 <= i < ks.len(),
        members(chunk_set(s, ks[i] as int)) > 0,
    ensures
        le_value(descriptor_bytes(s, ks).subrange(4 * i, 4 * i + 2)) == ks[i],
        le_value(descriptor_bytes(s, ks).subrange(4 * i + 2, 4 * i + 4)) == members(
            chunk_set(s, ks[i] as int),
        ) - 1,
    decreases ks.len(),
{
    let rest = ks.skip(1);
    let g = chunk_set(s, ks[0] as int);
    let first = le_bytes(ks[0] as nat, 2);
    let second = le_bytes((members(g) - 1) as nat, 2);
    lemma_le_unfold(0);
    lemma_count_bound(g, 0, 65536);
    lemma_le_bytes(ks[0] as nat, 2);
    lemma_le_bytes((members(g) - 1) as nat, 2);
    lemma_descriptor_len(s, rest);
    let all = descriptor_bytes(s, ks);
    if i == 0 {
        assert(all.subrange(0, 2) =~= first);
        assert(all.subrange(2, 4) =~= second);
    } else {
        lemma_descriptor_at(s, rest, i - 1);
        let had = descriptor_bytes(s, rest);
        assert(all.subrange(4 * i, 4 * i + 2) =~= had.subrange(4 * (i - 1), 4 * (i - 1) + 2));
        assert(all.subrange(4 * i + 2, 4 * i + 4) =~= had.subrange(
            4 * (i - 1) + 2,
            4 * (i - 1) + 4,
        ));
    }
}

proof fn lemma_offset_at(s: Set<u32>, ks: Seq<u16>, at: nat, i: int)
    requires
        0 <= i < ks.len(),
        at + 8192 * ks.len() < 0x1_0000_0000,
    ensures
        le_value(offset_bytes(s, ks, at).subrange(4 * i, 4 * i + 4)) == at + body_len(
            s,
            ks.take(i),
        ),
    decreases ks.len(),
{
    let rest = ks.skip(1);
    let g = chunk_set(s, ks[0] as int);
    let next = at + shape_size(shape_of(g));
    lemma_container_len(g);
    lemma_le_unfold(0);
    lemma_le_bytes(at, 4);
    lemma_offset_len(s, rest, next);
    let all = offset_bytes(s, ks, at);
    if i == 0 {
        assert(all.subrange(0, 4) =~= le_bytes(at, 4));
        assert(ks.take(0) =~= Seq::<u16>::empty());
    } else {
        lemma_offset_at(s, rest, next, i - 1);
        assert(all.subrange(4 * i, 4 * i + 4) =~= offset_bytes(s, rest, next).subrange(
            4 * (i - 1),
            4 * (i - 1) + 4,
        ));
        assert(ks.take(i).skip(1) =~= rest.take(i - 1));
        assert(ks.take(i)[0] == ks[0]);
    }
}

proof fn lemma_body_at(s: Set<u32>, ks: Seq<u16>, i: int)
    requires
        0 <= i < ks.len(),
    ensures
        ({
            let from = body_len(s, ks.take(i)) as int;
            let g = chunk_set(s, ks[i] as int);
            &&& from + shape_size(shape_of(g)) <= body_bytes(s, ks).len()
            &&& body_bytes(s, ks).subrange(from, from + shape_size(shape_of(g)))
                == container_bytes(g)
        }),
    decreases ks.len(),
{
    let rest = ks.skip(1);
    let first = chunk_set(s, ks[0] as int);
    lemma_container_len(first);
    lemma_container_len(chunk_set(s, ks[i] as int));
    lemma_body_len(s, rest);
    let all = body_bytes(s, ks);
    if i == 0 {
        assert(ks.take(0) =~= Seq::<u16>::empty());
        assert(all.subrange(0, shape_size(shape_of(first)) as int) =~= container_bytes(first));
    } else {
        lemma_body_at(s, rest, i - 1);
        assert(ks.take(i).skip(1) =~= rest.take(i - 1));
        assert(ks.take(i)[0] == ks[0]);
        let from = body_len(s, ks.take(i)) as int;
        let size = shape_size(shape_of(chunk_set(s, ks[i] as int)));
        let there = body_len(s, rest.take(i - 1)) as int;
        assert(from == shape_size(shape_of(first)) + there);
        assert(all.subrange(from, from + size) =~= body_bytes(s, rest).subrange(
            there,
            there + size,
        ));
    }
}

/// Each chunk of a set holds something, and there are no more than there are keys.
proof fn lemma_keys_of(s: Set<u32>)
    ensures
        keys_of(s).len() <= 65536,
        forall|i: int|
            0 <= i < keys_of(s).len() ==> members(chunk_set(s, #[trigger] keys_of(s)[i] as int))
                > 0,
{
    let f = |key: int| members(chunk_set(s, key)) > 0;
    lemma_listing(f, 65536);
    lemma_count_bound(f, 0, 65536);
    assert forall|i: int| 0 <= i < keys_of(s).len() implies members(
        chunk_set(s, #[trigger] keys_of(s)[i] as int),
    ) > 0 by {
        assert(f(keys_of(s)[i] as int));
    }
}

/// The chunks of a set are those it holds something of, in order.
pub proof fn law_the_chunks_of_a_set(s: Set<u32>, key: u16)
    ensures
        ascending(keys_of(s)),
        keys_of(s).contains(key) <==> exists|d: u32| #[trigger]
            s.contains(d) && d / 65536 == key,
{
    let f = |key: int| members(chunk_set(s, key)) > 0;
    lemma_listing(f, 65536);
    let g = chunk_set(s, key as int);
    if keys_of(s).contains(key) {
        let i = keys_of(s).index_of(key);
        assert(f(keys_of(s)[i] as int));
        let low = lemma_count_found(g, 0, 65536);
        let d = (key * 65536 + low) as u32;
        assert(s.contains(d));
    }
    if exists|d: u32| #[trigger] s.contains(d) && d / 65536 == key {
        let d = choose|d: u32| #[trigger] s.contains(d) && d / 65536 == key;
        let low = d as int - key * 65536;
        assert(g(low));
        lemma_count_some(g, 0, 65536, low);
        assert(f(key as int));
    }
}

/// Where everything is in the bytes of a set. A cookie, which says whether any chunk goes
/// down as runs, with how many chunks there are, and where any does, a bit for each chunk
/// that says whether it does; then the key of each chunk with one less than how many it
/// holds; then, unless the file has runs and fewer than four chunks, where each starts;
/// then the chunks themselves, one behind another.
pub proof fn law_where_everything_is_in_the_bytes_of_a_set(s: Set<u32>, i: int)
    requires
        0 <= i < keys_of(s).len(),
    ensures
        ({
            let bytes = encoded(s);
            let ks = keys_of(s);
            let n = ks.len();
            let key = ks[i] as int;
            let runs = exists|k: int| 0 <= k < n && in_stretches(s, #[trigger] ks[k] as int);
            let lead = if runs {
                4 + (n + 7) / 8
            } else {
                8
            };
            let listed = !runs || n >= 4;
            let front = lead + 4 * n + if listed {
                4 * n
            } else {
                0
            };
            let at = starts_at(s, ks, front, i) as int;
            &&& bytes.len() == starts_at(s, ks, front, n as int)
            &&& runs ==> {
                &&& le_value(bytes.subrange(0, 4)) == 12347 + 65536 * (n - 1)
                &&& (bytes[4 + i / 8] >> ((i % 8) as u8)) & 1 == 1 <==> in_stretches(s, key)
            }
            &&& !runs ==> le_value(bytes.subrange(0, 4)) == 12346 && le_value(bytes.subrange(4, 8))
                == n
            &&& le_value(bytes.subrange(lead + 4 * i, lead + 4 * i + 2)) == key
            &&& le_value(bytes.subrange(lead + 4 * i + 2, lead + 4 * i + 4)) + 1 == members(
                chunk_set(s, key),
            )
            &&& listed ==> le_value(
                bytes.subrange(lead + 4 * n + 4 * i, lead + 4 * n + 4 * i + 4),
            ) == at
            &&& bytes.subrange(at, at + taken_by(s, key)) == container_bytes(chunk_set(s, key))
        }),
{
    let bytes = encoded(s);
    let ks = keys_of(s);
    let n = ks.len();
    let runs = any_runs(s, ks);
    let key = ks[i] as int;
    assert(runs == exists|k: int| 0 <= k < n && in_stretches(s, #[trigger] ks[k] as int)) by {
        if runs {
            let k = choose|k: int| #[trigger] super::format::run_flags(s, ks)(k);
            lemma_taken(s, ks[k] as int);
            assert(in_stretches(s, ks[k] as int));
        }
        if exists|k: int| 0 <= k < n && in_stretches(s, #[trigger] ks[k] as int) {
            let k = choose|k: int| 0 <= k < n && in_stretches(s, #[trigger] ks[k] as int);
            lemma_taken(s, ks[k] as int);
            assert(super::format::run_flags(s, ks)(k));
        }
    }
    let lead = if runs {
        4 + (n + 7) / 8
    } else {
        8
    };
    let front = header_size(n, runs);
    lemma_keys_of(s);
    lemma_encoded_len(s);
    lemma_body_len(s, ks);
    lemma_descriptor_len(s, ks);
    lemma_offset_len(s, ks, front);
    lemma_le_unfold(0);
    lemma_le_bytes((12347 + 65536 * (n - 1)) as nat, 4);
    lemma_le_bytes(12346, 4);
    lemma_le_bytes(n, 4);
    lemma_taken(s, key);
    lemma_starts(s, ks, front, i);
    lemma_starts(s, ks, front, n as int);
    assert(ks.take(n as int) =~= ks);
    let described = descriptor_bytes(s, ks);
    lemma_descriptor_at(s, ks, i);
    assert(bytes.subrange(lead + 4 * i, lead + 4 * i + 2) =~= described.subrange(
        4 * i,
        4 * i + 2,
    ));
    assert(bytes.subrange(lead + 4 * i + 2, lead + 4 * i + 4) =~= described.subrange(
        4 * i + 2,
        4 * i + 4,
    ));
    if offsets_size(n, runs) > 0 {
        lemma_offset_at(s, ks, front, i);
        assert(bytes.subrange(lead + 4 * n + 4 * i, lead + 4 * n + 4 * i + 4) =~= offset_bytes(
            s,
            ks,
            front,
        ).subrange(4 * i, 4 * i + 4));
    }
    lemma_body_at(s, ks, i);
    let from = body_len(s, ks.take(i)) as int;
    let size = taken_by(s, key);
    assert(bytes.subrange(front + from, front + from + size) =~= body_bytes(s, ks).subrange(
        from,
        from + size,
    ));
    if runs {
        assert(bytes.subrange(0, 4) =~= le_bytes((12347 + 65536 * (n - 1)) as nat, 4));
        lemma_flags_round(s, ks, i);
        let flags = flag_bytes(s, ks);
        assert(bytes[4 + i / 8] == flags[i / 8]);
    } else {
        assert(bytes.subrange(0, 4) =~= le_bytes(12346, 4));
        assert(bytes.subrange(4, 8) =~= le_bytes(n, 4));
    }
}

// ---------------------------------------------------------------------------
// What a form costs.
// ---------------------------------------------------------------------------

/// What the members of a chunk take in a form: two bytes a member, four a stretch, or one
/// bit for each ordinal of the chunk.
pub open spec fn cost_in(held: Held, members: nat, stretches: nat) -> nat {
    match held {
        Held::Array => 2 * members,
        Held::Bits => 8192,
        Held::Runs => 4 * stretches,
    }
}

/// The form a chunk is put in takes no more than any other. Where two take the same, bits
/// come before an array, and either before runs.
pub proof fn law_the_cheapest_form_takes_the_least(members: nat, stretches: nat, other: Held)
    ensures
        ({
            let chosen = cheapest(members, stretches);
            &&& cost_in(chosen, members, stretches) <= cost_in(other, members, stretches)
            &&& chosen == Held::Runs && other != Held::Runs ==> cost_in(chosen, members, stretches)
                < cost_in(other, members, stretches)
            &&& chosen == Held::Array && other == Held::Bits ==> cost_in(
                chosen,
                members,
                stretches,
            ) < cost_in(other, members, stretches)
        }),
{
}

/// A chunk starts as an array and keeps the form it has as members are added to it, but
/// for an array that has grown past 4096 members, which is put in the form that takes the
/// least.
pub proof fn law_only_an_outgrown_array_changes_form(
    was: Option<Held>,
    added: bool,
    members: nat,
    stretches: nat,
)
    ensures
        was is None ==> form_with(was, added, members, stretches) == Held::Array,
        was matches Some(held) && (held != Held::Array || !added || members <= 4096) ==> Some(
            form_with(was, added, members, stretches),
        ) == was,
        was == Some(Held::Array) && added && members > 4096 ==> form_with(
            was,
            added,
            members,
            stretches,
        ) == cheapest(members, stretches),
{
}

/// What the members of a set take in memory is what each chunk of it takes in the form it
/// is held in, and four bytes more for each that is held as bits.
pub proof fn law_memory_is_what_each_chunk_takes(s: Set<u32>, held: Seq<Held>, n: int)
    requires
        0 <= n,
    ensures
        payload(s, held, n) == Seq::new(
            n as nat,
            |i: int|
                {
                    let g = chunk_set(s, keys_of(s)[i] as int);
                    cost_in(held[i], members(g), stretches(g)) + if held[i] == Held::Bits {
                        4nat
                    } else {
                        0nat
                    }
                },
        ).fold_left(0nat, |total: nat, taken: nat| total + taken),
    decreases n,
{
    reveal(Seq::fold_left);
    let taken = |i: int|
        {
            let g = chunk_set(s, keys_of(s)[i] as int);
            cost_in(held[i], members(g), stretches(g)) + if held[i] == Held::Bits {
                4nat
            } else {
                0nat
            }
        };
    if n > 0 {
        law_memory_is_what_each_chunk_takes(s, held, n - 1);
        let all = Seq::new(n as nat, taken);
        assert(all.drop_last() =~= Seq::new((n - 1) as nat, taken));
        assert(all.last() == taken(n - 1));
    }
}

/// What a set costs is an entry of the chunk list for each of its chunks, and what the
/// members of each take in the form that takes the least.
pub proof fn law_a_set_costs_its_chunks(s: Set<u32>)
    ensures
        cheapest_forms(s).len() == keys_of(s).len(),
        forall|i: int|
            0 <= i < keys_of(s).len() ==> #[trigger] cheapest_forms(s)[i] == cheapest(
                members(chunk_set(s, keys_of(s)[i] as int)),
                stretches(chunk_set(s, keys_of(s)[i] as int)),
            ),
        footprint(s) == keys_of(s).len() * vstd::layout::size_of::<Chunk>() + payload(
            s,
            cheapest_forms(s),
            keys_of(s).len() as int,
        ),
{
}

/// A key has a form exactly where the set holds something of its chunk, and it is the one
/// at the place of the chunk among those there are.
pub proof fn law_a_chunk_has_the_form_at_its_place(s: Set<u32>, forms: Seq<Held>, key: u16)
    ensures
        held_in(s, forms, key) is Some <==> exists|d: u32| #[trigger]
            s.contains(d) && d / 65536 == key,
        forall|i: int|
            0 <= i < keys_of(s).len() && #[trigger] keys_of(s)[i] == key ==> held_in(s, forms, key)
                == Some(forms[i]),
{
    law_the_chunks_of_a_set(s, key);
    assert forall|i: int|
        0 <= i < keys_of(s).len() && #[trigger] keys_of(s)[i] == key implies held_in(s, forms, key)
        == Some(forms[i]) by {
        assert(keys_of(s).contains(key));
        let j = keys_of(s).index_of(key);
        assert(keys_of(s)[j] == key);
        if i < j {
            assert(keys_of(s)[i] < keys_of(s)[j]);
        } else if j < i {
            assert(keys_of(s)[j] < keys_of(s)[i]);
        }
    }
}

} // verus!

//! What a file is read as, and which files are refused.
use super::format::{
    decode_bodies, decode_keys, decode_list, decode_offsets, decode_rest, decode_runs,
    decode_store, decode_word, decode_words, decoded, flagged, lows, placed,
};
use super::layout::{member_in, run_in};
use super::store::{lemma_same_members, members};
use crate::bits::bit;
use crate::codec::{le_value, lemma_le_unfold, lemma_le_value};
use vstd::prelude::*;

verus! {

// ---------------------------------------------------------------------------
// A container.
// ---------------------------------------------------------------------------

/// Whether the bits of a container of words have an ordinal.
pub open spec fn in_words_of(bytes: Seq<u8>) -> spec_fn(int) -> bool {
    |x: int|
        0 <= x < 65536 && bit(
            le_value(bytes.subrange(8 * (x / 64), 8 * (x / 64) + 8)) as u64,
            x % 64,
        )
}

/// How many ordinals the first `n` runs of a container cover.
pub open spec fn spanned(bytes: Seq<u8>, n: int) -> int
    decreases n,
{
    if n <= 0 {
        0
    } else {
        spanned(bytes, n - 1) + (run_in(bytes, n - 1).1 - run_in(bytes, n - 1).0 + 1)
    }
}

/// Some bytes start with a container of `count` members: runs that follow one another,
/// inside the chunk, and cover as many ordinals; or, where they are more than 4096, a bit
/// for each of as many ordinals; or as many ordinals in order.
pub open spec fn sound(bytes: Seq<u8>, count: nat, as_runs: bool) -> bool {
    if as_runs {
        let n = le_value(bytes.subrange(0, 2)) as int;
        &&& 2 <= bytes.len() && 2 + 4 * n <= bytes.len()
        &&& forall|j: int| 0 <= j < n ==> (#[trigger] run_in(bytes, j)).1 <= 65535
        &&& forall|i: int, j: int|
            0 <= i < j < n ==> (#[trigger] run_in(bytes, i)).1 < (#[trigger] run_in(bytes, j)).0
        &&& spanned(bytes, n) == count
    } else if count > 4096 {
        8192 <= bytes.len() && members(in_words_of(bytes)) == count
    } else {
        &&& 2 * count <= bytes.len()
        &&& forall|i: int, j: int|
            0 <= i < j < count ==> #[trigger] member_in(bytes, i) < #[trigger] member_in(bytes, j)
    }
}

/// Whether the container some bytes start with holds an ordinal of its chunk.
pub open spec fn says(bytes: Seq<u8>, count: nat, as_runs: bool, x: int) -> bool {
    if as_runs {
        exists|j: int|
            0 <= j < le_value(bytes.subrange(0, 2)) && (#[trigger] run_in(bytes, j)).0 <= x
                <= run_in(bytes, j).1
    } else if count > 4096 {
        in_words_of(bytes)(x)
    } else {
        exists|j: int| 0 <= j < count && #[trigger] member_in(bytes, j) == x
    }
}

/// How many bytes the container some bytes start with takes.
pub open spec fn takes(bytes: Seq<u8>, count: nat, as_runs: bool) -> nat {
    if as_runs {
        2 + 4 * le_value(bytes.subrange(0, 2))
    } else if count > 4096 {
        8192
    } else {
        2 * count
    }
}

proof fn lemma_list_said(bytes: Seq<u8>, n: nat, last: int)
    ensures
        decode_list(bytes, n, last) is Ok <==> {
            &&& 2 * n <= bytes.len()
            &&& n > 0 ==> member_in(bytes, 0) > last
            &&& forall|i: int, j: int|
                0 <= i < j < n ==> #[trigger] member_in(bytes, i) < #[trigger] member_in(bytes, j)
        },
        decode_list(bytes, n, last) matches Ok(set) ==> forall|x: int| #[trigger]
            set.contains(x) <==> exists|j: int| 0 <= j < n && #[trigger] member_in(bytes, j) == x,
    decreases n,
{
    if n > 0 && bytes.len() >= 2 {
        let rest = bytes.skip(2);
        let m = (n - 1) as nat;
        let low = member_in(bytes, 0);
        assert(bytes.take(2) =~= bytes.subrange(0, 2));
        lemma_list_said(rest, m, low);
        assert forall|j: int| 0 <= j < m && 2 * n <= bytes.len() implies #[trigger] member_in(
            rest,
            j,
        ) == member_in(bytes, j + 1) by {
            assert(rest.subrange(2 * j, 2 * j + 2) =~= bytes.subrange(
                2 * (j + 1),
                2 * (j + 1) + 2,
            ));
        }
        if decode_list(bytes, n, last) is Ok {
            assert(2 * n <= bytes.len());
            assert forall|i: int, j: int| 0 <= i < j < n implies #[trigger] member_in(bytes, i)
                < #[trigger] member_in(bytes, j) by {
                assert(member_in(rest, j - 1) == member_in(bytes, j));
                if i > 0 {
                    assert(member_in(rest, i - 1) == member_in(bytes, i));
                } else if j > 1 {
                    assert(member_in(rest, 0) < member_in(rest, j - 1));
                }
            }
            let set = decode_list(bytes, n, last)->Ok_0;
            let had = decode_list(rest, m, low)->Ok_0;
            assert forall|x: int| #[trigger] set.contains(x) <==> exists|j: int|
                0 <= j < n && #[trigger] member_in(bytes, j) == x by {
                assert(set.contains(x) == (had.contains(x) || x == low));
                if had.contains(x) {
                    let j = choose|j: int| 0 <= j < m && #[trigger] member_in(rest, j) == x;
                    assert(member_in(bytes, j + 1) == x);
                }
                if exists|j: int| 0 <= j < n && #[trigger] member_in(bytes, j) == x {
                    let j = choose|j: int| 0 <= j < n && #[trigger] member_in(bytes, j) == x;
                    if j > 0 {
                        assert(member_in(rest, j - 1) == x);
                    }
                }
            }
        } else if 2 * n <= bytes.len() && low > last && (forall|i: int, j: int|
            0 <= i < j < n ==> #[trigger] member_in(bytes, i) < #[trigger] member_in(bytes, j)) {
            if m > 0 {
                assert(member_in(rest, 0) == member_in(bytes, 1));
            }
            assert forall|i: int, j: int| 0 <= i < j < m implies #[trigger] member_in(rest, i)
                < #[trigger] member_in(rest, j) by {
                assert(member_in(bytes, i + 1) < member_in(bytes, j + 1));
            }
        }
    }
}

/// Run `j` of some runs: where it starts, and where it ends.
spec fn pair_in(bytes: Seq<u8>, j: int) -> (int, int) {
    let start = le_value(bytes.subrange(4 * j, 4 * j + 2)) as int;
    (start, start + le_value(bytes.subrange(4 * j + 2, 4 * j + 4)))
}

spec fn spanned_by(bytes: Seq<u8>, n: int) -> int
    decreases n,
{
    if n <= 0 {
        0
    } else {
        spanned_by(bytes, n - 1) + (pair_in(bytes, n - 1).1 - pair_in(bytes, n - 1).0 + 1)
    }
}

proof fn lemma_spanned_front(bytes: Seq<u8>, n: int)
    requires
        0 < n,
        4 * n <= bytes.len(),
    ensures
        spanned_by(bytes, n) == (pair_in(bytes, 0).1 - pair_in(bytes, 0).0 + 1) + spanned_by(
            bytes.skip(4),
            n - 1,
        ),
    decreases n,
{
    if n > 1 {
        lemma_spanned_front(bytes, n - 1);
        lemma_pair_skip(bytes, n - 2);
    } else {
        assert(spanned_by(bytes, 0) == 0);
    }
}

proof fn lemma_pair_skip(bytes: Seq<u8>, j: int)
    requires
        0 <= j,
        4 * j + 8 <= bytes.len(),
    ensures
        pair_in(bytes.skip(4), j) == pair_in(bytes, j + 1),
{
    let rest = bytes.skip(4);
    assert(rest.subrange(4 * j, 4 * j + 2) =~= bytes.subrange(4 * (j + 1), 4 * (j + 1) + 2));
    assert(rest.subrange(4 * j + 2, 4 * j + 4) =~= bytes.subrange(
        4 * (j + 1) + 2,
        4 * (j + 1) + 4,
    ));
}

#[verifier::rlimit(40)]
proof fn lemma_runs_said(bytes: Seq<u8>, n: nat, last: int)
    ensures
        decode_runs(bytes, n, last) is Ok <==> {
            &&& 4 * n <= bytes.len()
            &&& n > 0 ==> pair_in(bytes, 0).0 > last
            &&& forall|j: int| 0 <= j < n ==> (#[trigger] pair_in(bytes, j)).1 <= 65535
            &&& forall|i: int, j: int|
                0 <= i < j < n ==> (#[trigger] pair_in(bytes, i)).1 < (#[trigger] pair_in(
                    bytes,
                    j,
                )).0
        },
        decode_runs(bytes, n, last) matches Ok((set, held)) ==> held == spanned_by(bytes, n as int)
            && forall|x: int| #[trigger]
            set.contains(x) <==> exists|j: int|
                0 <= j < n && (#[trigger] pair_in(bytes, j)).0 <= x <= pair_in(bytes, j).1,
    decreases n,
{
    if n > 0 && bytes.len() >= 4 {
        let rest = bytes.skip(4);
        let m = (n - 1) as nat;
        let (start, end) = pair_in(bytes, 0);
        assert(bytes.take(2) =~= bytes.subrange(0, 2));
        assert(bytes.skip(2).take(2) =~= bytes.subrange(2, 4));
        lemma_runs_said(rest, m, end);
        assert forall|j: int| 0 <= j < m && 4 * n <= bytes.len() implies #[trigger] pair_in(rest, j)
            == pair_in(bytes, j + 1) by {
            lemma_pair_skip(bytes, j);
        }
        if decode_runs(bytes, n, last) is Ok {
            lemma_spanned_front(bytes, n as int);
            assert forall|j: int| 0 <= j < n implies (#[trigger] pair_in(bytes, j)).1 <= 65535 by {
                if j > 0 {
                    assert(pair_in(rest, j - 1) == pair_in(bytes, j));
                }
            }
            assert forall|i: int, j: int| 0 <= i < j < n implies (#[trigger] pair_in(bytes, i)).1
                < (#[trigger] pair_in(bytes, j)).0 by {
                assert(pair_in(rest, j - 1) == pair_in(bytes, j));
                if i > 0 {
                    assert(pair_in(rest, i - 1) == pair_in(bytes, i));
                } else if j > 1 {
                    assert(pair_in(rest, 0).1 < pair_in(rest, j - 1).0);
                    assert(pair_in(rest, 0).0 <= pair_in(rest, 0).1);
                }
            }
            let set = (decode_runs(bytes, n, last)->Ok_0).0;
            let had = (decode_runs(rest, m, end)->Ok_0).0;
            assert forall|x: int| #[trigger] set.contains(x) <==> exists|j: int|
                0 <= j < n && (#[trigger] pair_in(bytes, j)).0 <= x <= pair_in(bytes, j).1 by {
                assert(set.contains(x) == (had.contains(x) || start <= x <= end));
                if had.contains(x) {
                    let j = choose|j: int|
                        0 <= j < m && (#[trigger] pair_in(rest, j)).0 <= x <= pair_in(rest, j).1;
                    assert(pair_in(bytes, j + 1).0 <= x <= pair_in(bytes, j + 1).1);
                }
                if exists|j: int|
                    0 <= j < n && (#[trigger] pair_in(bytes, j)).0 <= x <= pair_in(bytes, j).1 {
                    let j = choose|j: int|
                        0 <= j < n && (#[trigger] pair_in(bytes, j)).0 <= x <= pair_in(bytes, j).1;
                    if j > 0 {
                        assert(pair_in(rest, j - 1).0 <= x <= pair_in(rest, j - 1).1);
                    }
                }
            }
        } else if 4 * n <= bytes.len() && start > last && (forall|j: int|
            0 <= j < n ==> (#[trigger] pair_in(bytes, j)).1 <= 65535) && (forall|i: int, j: int|
            0 <= i < j < n ==> (#[trigger] pair_in(bytes, i)).1 < (#[trigger] pair_in(
                bytes,
                j,
            )).0) {
            if m > 0 {
                assert(pair_in(rest, 0) == pair_in(bytes, 1));
            }
            assert forall|j: int| 0 <= j < m implies (#[trigger] pair_in(rest, j)).1 <= 65535 by {
                assert(pair_in(bytes, j + 1).1 <= 65535);
            }
            assert forall|i: int, j: int| 0 <= i < j < m implies (#[trigger] pair_in(rest, i)).1
                < (#[trigger] pair_in(rest, j)).0 by {
                assert(pair_in(bytes, i + 1).1 < pair_in(bytes, j + 1).0);
            }
        }
    }
}

proof fn lemma_spanned_same(bytes: Seq<u8>, n: int)
    requires
        2 + 4 * n <= bytes.len(),
    ensures
        spanned(bytes, n) == spanned_by(bytes.skip(2), n),
    decreases n,
{
    if n > 0 {
        lemma_spanned_same(bytes, n - 1);
        lemma_pair_is_run(bytes, n - 1);
    }
}

proof fn lemma_pair_is_run(bytes: Seq<u8>, j: int)
    requires
        0 <= j,
        6 + 4 * j <= bytes.len(),
    ensures
        pair_in(bytes.skip(2), j) == run_in(bytes, j),
{
    let rest = bytes.skip(2);
    assert(rest.subrange(4 * j, 4 * j + 2) =~= bytes.subrange(2 + 4 * j, 4 + 4 * j));
    assert(rest.subrange(4 * j + 2, 4 * j + 4) =~= bytes.subrange(4 + 4 * j, 6 + 4 * j));
}

proof fn lemma_store_of_runs(bytes: Seq<u8>, count: nat)
    ensures
        decode_store(bytes, count, true) is Ok <==> sound(bytes, count, true),
        decode_store(bytes, count, true) matches Ok((set, taken)) ==> taken == takes(
            bytes,
            count,
            true,
        ) && forall|x: int| #[trigger] set.contains(x) <==> says(bytes, count, true, x),
{
    if bytes.len() >= 2 {
        assert(bytes.take(2) =~= bytes.subrange(0, 2));
        let n = le_value(bytes.subrange(0, 2));
        let rest = bytes.skip(2);
        lemma_runs_said(rest, n, -1);
        if 2 + 4 * n <= bytes.len() {
            lemma_spanned_same(bytes, n as int);
            assert forall|j: int| 0 <= j < n implies #[trigger] pair_in(rest, j) == run_in(
                bytes,
                j,
            ) by {
                lemma_pair_is_run(bytes, j);
            }
            assert forall|j: int| 0 <= j < n implies #[trigger] run_in(bytes, j) == pair_in(
                rest,
                j,
            ) by {
                lemma_pair_is_run(bytes, j);
            }
            if decode_runs(rest, n, -1) is Ok {
                let set = (decode_runs(rest, n, -1)->Ok_0).0;
                assert forall|x: int| #[trigger] set.contains(x) <==> says(
                    bytes,
                    count,
                    true,
                    x,
                ) by {
                    if set.contains(x) {
                        let j = choose|j: int|
                            0 <= j < n && (#[trigger] pair_in(rest, j)).0 <= x <= pair_in(rest, j).1;
                        assert(run_in(bytes, j).0 <= x <= run_in(bytes, j).1);
                    }
                    if says(bytes, count, true, x) {
                        let j = choose|j: int|
                            0 <= j < n && (#[trigger] run_in(bytes, j)).0 <= x <= run_in(
                                bytes,
                                j,
                            ).1;
                        assert(pair_in(rest, j).0 <= x <= pair_in(rest, j).1);
                    }
                }
                assert forall|j: int| 0 <= j < n implies (#[trigger] run_in(bytes, j)).1
                    <= 65535 by {
                    assert(pair_in(rest, j).1 <= 65535);
                }
                assert forall|i: int, j: int| 0 <= i < j < n implies (#[trigger] run_in(
                    bytes,
                    i,
                )).1 < (#[trigger] run_in(bytes, j)).0 by {
                    assert(pair_in(rest, i).1 < pair_in(rest, j).0);
                }
            } else if sound(bytes, count, true) {
                assert forall|j: int| 0 <= j < n implies (#[trigger] pair_in(rest, j)).1
                    <= 65535 by {
                    assert(run_in(bytes, j).1 <= 65535);
                }
                assert forall|i: int, j: int| 0 <= i < j < n implies (#[trigger] pair_in(
                    rest,
                    i,
                )).1 < (#[trigger] pair_in(rest, j)).0 by {
                    assert(run_in(bytes, i).1 < run_in(bytes, j).0);
                }
                if n > 0 {
                    assert(pair_in(rest, 0).0 >= 0);
                }
            }
        }
    }
}

proof fn lemma_store_said(bytes: Seq<u8>, count: nat, as_runs: bool)
    ensures
        decode_store(bytes, count, as_runs) is Ok <==> sound(bytes, count, as_runs),
        decode_store(bytes, count, as_runs) matches Ok((set, taken)) ==> taken == takes(
            bytes,
            count,
            as_runs,
        ) && forall|x: int| 0 <= x < 65536 ==> (#[trigger] set.contains(x) <==> says(
            bytes,
            count,
            as_runs,
            x,
        )),
{
    if as_runs {
        lemma_store_of_runs(bytes, count);
    } else if count > 4096 {
        if bytes.len() >= 8192 {
            let a = decode_words(bytes);
            let b = in_words_of(bytes);
            assert forall|x: int| 0 <= x < 65536 implies #[trigger] a(x) == b(x) by {
                let w = x / 64;
                assert(bytes.skip(8 * w).take(8) =~= bytes.subrange(8 * w, 8 * w + 8));
                assert(decode_word(bytes, w) == le_value(bytes.subrange(8 * w, 8 * w + 8)));
            }
            lemma_same_members(a, b);
            assert forall|x: int| 0 <= x < 65536 implies (#[trigger] lows(a).contains(x)
                <==> says(bytes, count, as_runs, x)) by {
                assert(a(x) == b(x));
            }
        }
    } else {
        lemma_list_said(bytes, count, -1);
        if count > 0 {
            assert(member_in(bytes, 0) >= 0);
        }
    }
}

// ---------------------------------------------------------------------------
// The file.
// ---------------------------------------------------------------------------

/// Two bytes of a file.
pub open spec fn half_at(file: Seq<u8>, at: int) -> int {
    le_value(file.subrange(at, at + 2)) as int
}

/// Four bytes of a file.
pub open spec fn word_of(file: Seq<u8>, at: int) -> int {
    le_value(file.subrange(at, at + 4)) as int
}

/// Whether a file says that some of its containers are runs.
pub open spec fn with_runs(file: Seq<u8>) -> bool {
    word_of(file, 0) % 65536 == 12347
}

/// How many containers a file says it has.
pub open spec fn containers(file: Seq<u8>) -> int {
    if with_runs(file) {
        word_of(file, 0) / 65536 + 1
    } else {
        word_of(file, 4)
    }
}

/// Where the keys of a file start.
pub open spec fn keys_at(file: Seq<u8>) -> int {
    if with_runs(file) {
        4 + (containers(file) + 7) / 8
    } else {
        8
    }
}

/// Whether a file says where its containers start.
pub open spec fn with_offsets(file: Seq<u8>) -> bool {
    !with_runs(file) || containers(file) >= 4
}

/// Where the first container of a file is.
pub open spec fn bodies_at(file: Seq<u8>) -> int {
    keys_at(file) + if with_offsets(file) {
        8 * containers(file)
    } else {
        4 * containers(file)
    }
}

/// How many members container `i` of a file says it has.
pub open spec fn stated(file: Seq<u8>, i: int) -> nat {
    (half_at(file, keys_at(file) + 4 * i + 2) + 1) as nat
}

/// Whether a file says that its container `i` is runs.
pub open spec fn runs_at(file: Seq<u8>, i: int) -> bool {
    with_runs(file) && bit(file[4 + i / 8] as u64, i % 8)
}

/// Where container `i` of a file starts, one behind another.
pub open spec fn container_at(file: Seq<u8>, i: int) -> int
    decreases i,
{
    if i <= 0 {
        bodies_at(file)
    } else {
        let at = container_at(file, i - 1);
        at + takes(file.skip(at), stated(file, i - 1), runs_at(file, i - 1))
    }
}

/// Container `i` of a file is where the file says, if it says, and sound.
pub open spec fn container_ok(file: Seq<u8>, i: int) -> bool {
    let at = container_at(file, i);
    &&& with_offsets(file) ==> word_of(file, keys_at(file) + 4 * containers(file) + 4 * i) == at
    &&& sound(file.skip(at), stated(file, i), runs_at(file, i))
}

/// Container `i` of a file holds an ordinal.
pub open spec fn container_has(file: Seq<u8>, i: int, d: u32) -> bool {
    &&& half_at(file, keys_at(file) + 4 * i) == d / 65536
    &&& says(
        file.skip(container_at(file, i)),
        stated(file, i),
        runs_at(file, i),
        d as int % 65536,
    )
}

/// Key `j` of some keys, and one less than the members of its container.
spec fn key_in(bytes: Seq<u8>, j: int) -> int {
    half_at(bytes, 4 * j)
}

proof fn lemma_keys_said(bytes: Seq<u8>, n: nat, last: int)
    ensures
        decode_keys(bytes, n, last) is Ok <==> {
            &&& 4 * n <= bytes.len()
            &&& n > 0 ==> key_in(bytes, 0) > last
            &&& forall|i: int, j: int|
                0 <= i < j < n ==> #[trigger] key_in(bytes, i) < #[trigger] key_in(bytes, j)
        },
        decode_keys(bytes, n, last) matches Ok(keys) ==> keys.len() == n && forall|j: int|
            0 <= j < n ==> (#[trigger] keys[j]).0 == key_in(bytes, j) && keys[j].1 == half_at(
                bytes,
                4 * j + 2,
            ) + 1,
    decreases n,
{
    if n > 0 && bytes.len() >= 4 {
        let rest = bytes.skip(4);
        let m = (n - 1) as nat;
        let key = key_in(bytes, 0);
        assert(bytes.take(2) =~= bytes.subrange(0, 2));
        assert(bytes.skip(2).take(2) =~= bytes.subrange(2, 4));
        lemma_le_value(bytes.subrange(0, 2));
        lemma_le_unfold(0);
        lemma_keys_said(rest, m, key);
        assert forall|j: int| 0 <= j < m && 4 * n <= bytes.len() implies #[trigger] key_in(rest, j)
            == key_in(bytes, j + 1) && half_at(rest, 4 * j + 2) == half_at(
            bytes,
            4 * (j + 1) + 2,
        ) by {
            assert(rest.subrange(4 * j, 4 * j + 2) =~= bytes.subrange(
                4 * (j + 1),
                4 * (j + 1) + 2,
            ));
            assert(rest.subrange(4 * j + 2, 4 * j + 4) =~= bytes.subrange(
                4 * (j + 1) + 2,
                4 * (j + 1) + 4,
            ));
        }
        if decode_keys(bytes, n, last) is Ok {
            assert forall|i: int, j: int| 0 <= i < j < n implies #[trigger] key_in(bytes, i)
                < #[trigger] key_in(bytes, j) by {
                assert(key_in(rest, j - 1) == key_in(bytes, j));
                if i > 0 {
                    assert(key_in(rest, i - 1) == key_in(bytes, i));
                } else if j > 1 {
                    assert(key_in(rest, 0) < key_in(rest, j - 1));
                }
            }
            let keys = decode_keys(bytes, n, last)->Ok_0;
            let had = decode_keys(rest, m, key)->Ok_0;
            assert forall|j: int| 0 <= j < n implies (#[trigger] keys[j]).0 == key_in(bytes, j)
                && keys[j].1 == half_at(bytes, 4 * j + 2) + 1 by {
                if j > 0 {
                    assert(keys[j] == had[j - 1]);
                    assert(key_in(rest, j - 1) == key_in(bytes, j));
                }
            }
        } else if 4 * n <= bytes.len() && key > last && (forall|i: int, j: int|
            0 <= i < j < n ==> #[trigger] key_in(bytes, i) < #[trigger] key_in(bytes, j)) {
            if m > 0 {
                assert(key_in(rest, 0) == key_in(bytes, 1));
            }
            assert forall|i: int, j: int| 0 <= i < j < m implies #[trigger] key_in(rest, i)
                < #[trigger] key_in(rest, j) by {
                assert(key_in(bytes, i + 1) < key_in(bytes, j + 1));
            }
        }
    }
}

proof fn lemma_offsets_said(bytes: Seq<u8>, n: nat)
    ensures
        decode_offsets(bytes, n) is Ok <==> 4 * n <= bytes.len(),
        decode_offsets(bytes, n) matches Ok(offsets) ==> offsets.len() == n && forall|j: int|
            0 <= j < n ==> #[trigger] offsets[j] == word_of(bytes, 4 * j),
    decreases n,
{
    if n > 0 && bytes.len() >= 4 {
        let rest = bytes.skip(4);
        let m = (n - 1) as nat;
        lemma_offsets_said(rest, m);
        assert(bytes.take(4) =~= bytes.subrange(0, 4));
        if decode_offsets(bytes, n) is Ok {
            let offsets = decode_offsets(bytes, n)->Ok_0;
            let had = decode_offsets(rest, m)->Ok_0;
            assert forall|j: int| 0 <= j < n implies #[trigger] offsets[j] == word_of(
                bytes,
                4 * j,
            ) by {
                if j > 0 {
                    assert(offsets[j] == had[j - 1]);
                    assert(rest.subrange(4 * (j - 1), 4 * (j - 1) + 4) =~= bytes.subrange(
                        4 * j,
                        4 * j + 4,
                    ));
                }
            }
        }
    }
}

/// The keys, the offsets and the flags a file was read to have are what its bytes say.
spec fn read_front(
    file: Seq<u8>,
    keys: Seq<(u16, nat)>,
    offsets: Seq<nat>,
    flags: Seq<u8>,
) -> bool {
    &&& keys.len() == containers(file)
    &&& forall|i: int|
        0 <= i < keys.len() ==> (#[trigger] keys[i]).0 == half_at(file, keys_at(file) + 4 * i)
            && keys[i].1 == stated(file, i)
    &&& forall|i: int| 0 <= i < keys.len() ==> #[trigger] flagged(flags, i) == runs_at(file, i)
    &&& with_offsets(file) ==> offsets.len() == keys.len() && forall|i: int|
        0 <= i < keys.len() ==> #[trigger] offsets[i] == word_of(
            file,
            keys_at(file) + 4 * containers(file) + 4 * i,
        )
    &&& !with_offsets(file) ==> offsets.len() == 0
}

proof fn lemma_bodies_said(
    file: Seq<u8>,
    keys: Seq<(u16, nat)>,
    offsets: Seq<nat>,
    flags: Seq<u8>,
    i: int,
)
    requires
        read_front(file, keys, offsets, flags),
        0 <= i <= keys.len(),
        0 <= container_at(file, i) <= file.len(),
    ensures
        ({
            let read = decode_bodies(
                file.len(),
                file.skip(container_at(file, i)),
                keys,
                offsets,
                flags,
                i,
            );
            &&& read is Ok <==> forall|k: int| i <= k < keys.len() ==> #[trigger] container_ok(
                file,
                k,
            )
            &&& read matches Ok(set) ==> forall|d: u32| #[trigger]
                set.contains(d) <==> exists|k: int|
                    i <= k < keys.len() && #[trigger] container_has(file, k, d)
        }),
    decreases keys.len() - i,
{
    if i < keys.len() {
        let at = container_at(file, i);
        let bytes = file.skip(at);
        let as_runs = flagged(flags, i);
        let count = keys[i].1;
        assert(as_runs == runs_at(file, i));
        lemma_store_said(bytes, count, as_runs);
        let read = decode_bodies(file.len(), bytes, keys, offsets, flags, i);
        if container_ok(file, i) {
            let next = container_at(file, i + 1);
            assert(next == at + takes(bytes, count, as_runs));
            assert(next <= file.len());
            assert(bytes.skip(takes(bytes, count, as_runs) as int) =~= file.skip(next));
            lemma_bodies_said(file, keys, offsets, flags, i + 1);
            let rest = decode_bodies(file.len(), file.skip(next), keys, offsets, flags, i + 1);
            assert(read is Ok == rest is Ok);
            if read is Ok {
                let set = read->Ok_0;
                let had = rest->Ok_0;
                let own = (decode_store(bytes, count, as_runs)->Ok_0).0;
                assert forall|d: u32| #[trigger] set.contains(d) <==> exists|k: int|
                    i <= k < keys.len() && #[trigger] container_has(file, k, d) by {
                    assert(set.contains(d) == (had.contains(d) || placed(own, keys[i].0).contains(
                        d,
                    )));
                    assert(placed(own, keys[i].0).contains(d) == container_has(file, i, d));
                    if had.contains(d) {
                        let k = choose|k: int|
                            i + 1 <= k < keys.len() && #[trigger] container_has(file, k, d);
                        assert(container_has(file, k, d));
                    }
                    if exists|k: int| i <= k < keys.len() && #[trigger] container_has(file, k, d) {
                        let k = choose|k: int|
                            i <= k < keys.len() && #[trigger] container_has(file, k, d);
                        if k > i {
                            assert(container_has(file, k, d));
                        }
                    }
                }
            }
        } else {
            assert(read is Err);
        }
    }
}

/// The keys of a file ascend.
pub open spec fn keys_rise(file: Seq<u8>) -> bool {
    forall|i: int, j: int|
        0 <= i < j < containers(file) ==> #[trigger] key_of(file, i) < #[trigger] key_of(file, j)
}

/// The key of container `i` of a file.
pub open spec fn key_of(file: Seq<u8>, i: int) -> int {
    half_at(file, keys_at(file) + 4 * i)
}

proof fn lemma_rest_said(file: Seq<u8>, flags: Seq<u8>)
    requires
        keys_at(file) <= file.len(),
        0 <= keys_at(file),
        0 <= containers(file),
        forall|i: int|
            0 <= i < containers(file) ==> #[trigger] flagged(flags, i) == runs_at(file, i),
    ensures
        ({
            let n = containers(file);
            let read = decode_rest(
                file.len(),
                file.skip(keys_at(file)),
                n as nat,
                with_runs(file),
                flags,
            );
            &&& read is Ok <==> bodies_at(file) <= file.len() && keys_rise(file) && forall|k: int|
                0 <= k < n ==> #[trigger] container_ok(file, k)
            &&& read matches Ok(set) ==> forall|d: u32| #[trigger]
                set.contains(d) <==> exists|k: int|
                    0 <= k < n && #[trigger] container_has(file, k, d)
        }),
{
    let n = containers(file) as nat;
    let lead = keys_at(file);
    let bytes = file.skip(lead);
    lemma_keys_said(bytes, n, -1);
    if lead + 4 * n <= file.len() {
        assert forall|i: int| 0 <= i < n implies #[trigger] key_in(bytes, i) == key_of(file, i)
            && half_at(bytes, 4 * i + 2) == half_at(file, lead + 4 * i + 2) by {
            assert(bytes.subrange(4 * i, 4 * i + 2) =~= file.subrange(
                lead + 4 * i,
                lead + 4 * i + 2,
            ));
            assert(bytes.subrange(4 * i + 2, 4 * i + 4) =~= file.subrange(
                lead + 4 * i + 2,
                lead + 4 * i + 4,
            ));
        }
        if keys_rise(file) {
            assert forall|i: int, j: int| 0 <= i < j < n implies #[trigger] key_in(bytes, i)
                < #[trigger] key_in(bytes, j) by {
                assert(key_of(file, i) < key_of(file, j));
            }
            if n > 0 {
                assert(key_in(bytes, 0) >= 0);
            }
        }
        if decode_keys(bytes, n, -1) is Ok {
            let keys = decode_keys(bytes, n, -1)->Ok_0;
            assert forall|i: int, j: int| 0 <= i < j < n implies #[trigger] key_of(file, i)
                < #[trigger] key_of(file, j) by {
                assert(key_in(bytes, i) == key_of(file, i));
                assert(key_in(bytes, j) == key_of(file, j));
            }
            assert forall|i: int| 0 <= i < n implies (#[trigger] keys[i]).0 == half_at(
                file,
                lead + 4 * i,
            ) && keys[i].1 == stated(file, i) by {
                assert(key_in(bytes, i) == key_of(file, i));
            }
            let rest = bytes.skip(4 * n as int);
            assert(rest =~= file.skip(lead + 4 * n));
            if with_offsets(file) && n > 0 {
                lemma_offsets_said(rest, n);
                if bodies_at(file) <= file.len() {
                    let offsets = decode_offsets(rest, n)->Ok_0;
                    assert forall|i: int| 0 <= i < n implies #[trigger] offsets[i] == word_of(
                        file,
                        lead + 4 * n + 4 * i,
                    ) by {
                        assert(rest.subrange(4 * i, 4 * i + 4) =~= file.subrange(
                            lead + 4 * n + 4 * i,
                            lead + 4 * n + 4 * i + 4,
                        ));
                    }
                    assert(rest.skip(4 * n as int) =~= file.skip(bodies_at(file)));
                    lemma_bodies_said(file, keys, offsets, flags, 0);
                }
            } else {
                assert(file.skip(bodies_at(file)) =~= rest);
                lemma_bodies_said(file, keys, Seq::empty(), flags, 0);
            }
        }
    }
}

/// What a file is read as. It is read exactly where it starts with one of the two cookies,
/// its front is all there, its keys ascend, each container is where the file says it is,
/// where it says, and each is sound. What it is read as is then the ordinals its
/// containers hold, each under its key.
pub proof fn law_a_file_is_read_as_what_it_says(file: Seq<u8>)
    ensures
        ({
            let n = containers(file);
            &&& decoded(file) is Ok <==> {
                &&& file.len() >= 4
                &&& with_runs(file) || (word_of(file, 0) == 12346 && file.len() >= 8)
                &&& bodies_at(file) <= file.len()
                &&& keys_rise(file)
                &&& forall|k: int| 0 <= k < n ==> #[trigger] container_ok(file, k)
            }
            &&& decoded(file) matches Ok(set) ==> forall|d: u32| #[trigger]
                set.contains(d) <==> exists|k: int|
                    0 <= k < n && #[trigger] container_has(file, k, d)
        }),
{
    if file.len() >= 4 {
        assert(file.take(4) =~= file.subrange(0, 4));
        let rest = file.skip(4);
        let n = containers(file);
        if with_runs(file) {
            let f = (n + 7) / 8;
            if rest.len() >= f {
                let flags = rest.take(f);
                assert(rest.skip(f) =~= file.skip(keys_at(file)));
                assert forall|i: int| 0 <= i < n implies #[trigger] flagged(flags, i) == runs_at(
                    file,
                    i,
                ) by {
                    assert(flags[i / 8] == file[4 + i / 8]);
                }
                lemma_rest_said(file, flags);
            }
        } else if word_of(file, 0) == 12346 && file.len() >= 8 {
            assert(rest.take(4) =~= file.subrange(4, 8));
            assert(rest.skip(4) =~= file.skip(8));
            lemma_rest_said(file, Seq::empty());
        }
    }
}

} // verus!

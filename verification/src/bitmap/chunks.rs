//! The chunks of a bitmap: which exist, and what is in them.
use super::store::{cheapest, lemma_same_members, members, stretches, Held, Store, WalkStore};
use crate::count::{
    below, count, lemma_count_none, lemma_count_set, lemma_count_shift, lemma_count_split,
};
use vstd::prelude::*;

verus! {

/// The members of one stretch of 65536 ordinals.
#[derive(Debug)]
pub struct Chunk {
    pub key: u16,
    pub store: Store,
}

/// Ascending by key, and never holding an empty chunk.
pub open spec fn chunks_ok(chunks: Seq<Chunk>) -> bool {
    &&& forall|i: int|
        0 <= i < chunks.len() ==> (#[trigger] chunks[i]).store.wf() && members(
            chunks[i].store.set(),
        ) > 0
    &&& forall|i: int, j: int|
        0 <= i < j < chunks.len() ==> (#[trigger] chunks[i]).key < (#[trigger] chunks[j]).key
}

/// Whether one of the chunks from `from` on holds the ordinal `d`.
pub open spec fn held_from(chunks: Seq<Chunk>, from: int, d: int) -> bool {
    exists|i: int|
        from <= i < chunks.len() && (#[trigger] chunks[i]).key == d / 65536
            && chunks[i].store.holds(d % 65536)
}

/// Whether one of the chunks holds the ordinal `d`.
pub open spec fn chunks_hold(chunks: Seq<Chunk>, d: int) -> bool {
    held_from(chunks, 0, d)
}

/// Each of the first `n` chunks is held whichever way is smallest.
pub open spec fn settled(chunks: Seq<Chunk>, n: int) -> bool {
    forall|i: int|
        0 <= i < n ==> (#[trigger] chunks[i]).store.held() == cheapest(
            members(chunks[i].store.set()),
            stretches(chunks[i].store.set()),
        )
}

/// The ordinals the chunks hold.
pub open spec fn ordinals(chunks: Seq<Chunk>) -> Set<u32> {
    Set::new(|d: u32| chunks_hold(chunks, d as int))
}

pub proof fn lemma_held_step(chunks: Seq<Chunk>, from: int, d: int)
    requires
        0 <= from < chunks.len(),
    ensures
        held_from(chunks, from, d) == (held_from(chunks, from + 1, d) || (chunks[from].key == d
            / 65536 && chunks[from].store.holds(d % 65536))),
{
    if held_from(chunks, from, d) {
        let i = choose|i: int|
            from <= i < chunks.len() && (#[trigger] chunks[i]).key == d / 65536
                && chunks[i].store.holds(d % 65536);
        if i > from {
            assert(held_from(chunks, from + 1, d));
        }
    }
    if held_from(chunks, from + 1, d) {
        let i = choose|i: int|
            from + 1 <= i < chunks.len() && (#[trigger] chunks[i]).key == d / 65536
                && chunks[i].store.holds(d % 65536);
        assert(held_from(chunks, from, d));
    }
}

/// What a chunk list holds of an ordinal is what the chunk of its key holds.
pub proof fn lemma_held_at(chunks: Seq<Chunk>, at: int, d: int)
    requires
        chunks_ok(chunks),
        0 <= at < chunks.len(),
        chunks[at].key == d / 65536,
    ensures
        chunks_hold(chunks, d) == chunks[at].store.holds(d % 65536),
{
    if chunks_hold(chunks, d) {
        let i = choose|i: int|
            0 <= i < chunks.len() && (#[trigger] chunks[i]).key == d / 65536
                && chunks[i].store.holds(d % 65536);
        if i < at {
            assert(chunks[i].key < chunks[at].key);
        } else if i > at {
            assert(chunks[at].key < chunks[i].key);
        }
    }
}

/// An ordinal split into its chunk's key and its place in the chunk.
pub proof fn lemma_join(key: int, low: int)
    requires
        0 <= key < 65536,
        0 <= low < 65536,
    ensures
        (key * 65536 + low) / 65536 == key,
        (key * 65536 + low) % 65536 == low,
        0 <= key * 65536 + low < 0x1_0000_0000,
{
}

/// Every chunk holds something.
pub proof fn lemma_chunk_member(chunks: Seq<Chunk>, at: int) -> (d: int)
    requires
        chunks_ok(chunks),
        0 <= at < chunks.len(),
    ensures
        0 <= d < 0x1_0000_0000,
        d / 65536 == chunks[at].key,
        chunks_hold(chunks, d),
{
    let f = chunks[at].store.set();
    let low = crate::count::lemma_count_found(f, 0, 65536);
    lemma_join(chunks[at].key as int, low);
    let d = chunks[at].key * 65536 + low;
    assert(chunks[at].key == d / 65536 && chunks[at].store.holds(d % 65536));
    d
}

/// Splits an ordinal into the chunk that holds it and its place inside it.
pub fn split(ordinal: u32) -> (parts: (u16, u16))
    ensures
        parts.0 == ordinal as int / 65536,
        parts.1 == ordinal as int % 65536,
{
    ((ordinal / 65536) as u16, (ordinal % 65536) as u16)
}

/// The index of the chunk holding `key`, or where one would go.
pub fn seek(chunks: &Vec<Chunk>, key: u16) -> (found: core::result::Result<usize, usize>)
    requires
        chunks_ok(chunks@),
    ensures
        match found {
            Ok(at) => at < chunks@.len() && chunks@[at as int].key == key,
            Err(at) => at <= chunks@.len() && (forall|i: int|
                0 <= i < at ==> (#[trigger] chunks@[i]).key < key) && (forall|i: int|
                at <= i < chunks@.len() ==> key < (#[trigger] chunks@[i]).key),
        },
{
    let mut lo: usize = 0;
    let mut hi: usize = chunks.len();
    while lo < hi
        invariant
            lo <= hi <= chunks@.len(),
            chunks_ok(chunks@),
            forall|i: int| 0 <= i < lo ==> (#[trigger] chunks@[i]).key < key,
            forall|i: int| hi <= i < chunks@.len() ==> key < (#[trigger] chunks@[i]).key,
        decreases hi - lo,
    {
        let mid: usize = lo + (hi - lo) / 2;
        let found: u16 = chunks[mid].key;
        if found < key {
            lo = mid + 1;
        } else if found > key {
            hi = mid;
        } else {
            return Ok(mid);
        }
    }
    Err(lo)
}

proof fn lemma_no_key(chunks: Seq<Chunk>, d: int)
    requires
        forall|i: int| 0 <= i < chunks.len() ==> (#[trigger] chunks[i]).key != d / 65536,
    ensures
        !chunks_hold(chunks, d),
{
}

/// A chunk put between two others.
proof fn lemma_inserted(before: Seq<Chunk>, at: int, chunk: Chunk)
    requires
        chunks_ok(before),
        0 <= at <= before.len(),
        chunk.store.wf(),
        members(chunk.store.set()) > 0,
        forall|i: int| 0 <= i < at ==> (#[trigger] before[i]).key < chunk.key,
        forall|i: int| at <= i < before.len() ==> chunk.key < (#[trigger] before[i]).key,
    ensures
        chunks_ok(before.insert(at, chunk)),
        forall|d: int|
            #[trigger] chunks_hold(before.insert(at, chunk), d) == (chunks_hold(before, d) || (d
                / 65536 == chunk.key && chunk.store.holds(d % 65536))),
{
    let after = before.insert(at, chunk);
    assert forall|i: int| 0 <= i < after.len() implies (#[trigger] after[i]) == (if i < at {
        before[i]
    } else if i == at {
        chunk
    } else {
        before[i - 1]
    }) by {}
    assert forall|d: int| #[trigger] chunks_hold(after, d) == (chunks_hold(before, d) || (d / 65536
        == chunk.key && chunk.store.holds(d % 65536))) by {
        if chunks_hold(before, d) {
            let i = choose|i: int|
                0 <= i < before.len() && (#[trigger] before[i]).key == d / 65536
                    && before[i].store.holds(d % 65536);
            let j = if i < at {
                i
            } else {
                i + 1
            };
            assert(after[j].key == d / 65536);
        }
        if d / 65536 == chunk.key && chunk.store.holds(d % 65536) {
            assert(after[at].key == d / 65536);
        }
        if chunks_hold(after, d) {
            let i = choose|i: int|
                0 <= i < after.len() && (#[trigger] after[i]).key == d / 65536
                    && after[i].store.holds(d % 65536);
            if i != at {
                let j = if i < at {
                    i
                } else {
                    i - 1
                };
                assert(before[j].key == d / 65536);
            }
        }
    }
}

/// A chunk taken out.
proof fn lemma_removed(before: Seq<Chunk>, at: int)
    requires
        chunks_ok(before),
        0 <= at < before.len(),
    ensures
        chunks_ok(before.remove(at)),
        forall|d: int|
            #[trigger] chunks_hold(before.remove(at), d) == (chunks_hold(before, d) && d / 65536
                != before[at].key),
{
    let after = before.remove(at);
    assert forall|i: int| 0 <= i < after.len() implies (#[trigger] after[i]) == (if i < at {
        before[i]
    } else {
        before[i + 1]
    }) by {}
    assert forall|d: int| #[trigger] chunks_hold(after, d) == (chunks_hold(before, d) && d / 65536
        != before[at].key) by {
        if chunks_hold(before, d) && d / 65536 != before[at].key {
            let i = choose|i: int|
                0 <= i < before.len() && (#[trigger] before[i]).key == d / 65536
                    && before[i].store.holds(d % 65536);
            let j = if i < at {
                i
            } else {
                i - 1
            };
            assert(after[j].key == d / 65536);
        }
        if chunks_hold(after, d) {
            let i = choose|i: int|
                0 <= i < after.len() && (#[trigger] after[i]).key == d / 65536
                    && after[i].store.holds(d % 65536);
            let j = if i < at {
                i
            } else {
                i + 1
            };
            assert(before[j].key == d / 65536);
            if i < at {
                assert(before[i].key < before[at].key);
            } else {
                assert(before[at].key < before[j].key);
            }
        }
    }
}

/// A chunk's members replaced.
proof fn lemma_replaced(before: Seq<Chunk>, at: int, chunk: Chunk)
    requires
        chunks_ok(before),
        0 <= at < before.len(),
        chunk.key == before[at].key,
        chunk.store.wf(),
        members(chunk.store.set()) > 0,
    ensures
        chunks_ok(before.update(at, chunk)),
        forall|d: int|
            #[trigger] chunks_hold(before.update(at, chunk), d) == if d / 65536 == chunk.key {
                chunk.store.holds(d % 65536)
            } else {
                chunks_hold(before, d)
            },
{
    let after = before.update(at, chunk);
    assert forall|i: int| 0 <= i < after.len() implies (#[trigger] after[i]) == (if i == at {
        chunk
    } else {
        before[i]
    }) by {}
    assert forall|d: int| #[trigger] chunks_hold(after, d) == if d / 65536 == chunk.key {
        chunk.store.holds(d % 65536)
    } else {
        chunks_hold(before, d)
    } by {
        if d / 65536 == chunk.key {
            lemma_held_at(after, at, d);
        } else {
            if chunks_hold(before, d) {
                let i = choose|i: int|
                    0 <= i < before.len() && (#[trigger] before[i]).key == d / 65536
                        && before[i].store.holds(d % 65536);
                assert(after[i].key == d / 65536);
            }
            if chunks_hold(after, d) {
                let i = choose|i: int|
                    0 <= i < after.len() && (#[trigger] after[i]).key == d / 65536
                        && after[i].store.holds(d % 65536);
                assert(before[i].key == d / 65536);
            }
        }
    }
}

/// The form the chunk of a key is held in, or nothing if there is no such chunk.
pub open spec fn form_at(chunks: Seq<Chunk>, key: int) -> Option<Held> {
    if exists|i: int| 0 <= i < chunks.len() && (#[trigger] chunks[i]).key == key {
        let i = choose|i: int| 0 <= i < chunks.len() && (#[trigger] chunks[i]).key == key;
        Some(chunks[i].store.held())
    } else {
        None
    }
}

/// A key has one chunk.
pub proof fn lemma_form_at(chunks: Seq<Chunk>, at: int)
    requires
        chunks_ok(chunks),
        0 <= at < chunks.len(),
    ensures
        form_at(chunks, chunks[at].key as int) == Some(chunks[at].store.held()),
{
    let key = chunks[at].key as int;
    let i = choose|i: int| 0 <= i < chunks.len() && (#[trigger] chunks[i]).key == key;
    assert(0 <= i < chunks.len() && chunks[i].key == key);
    if i < at {
        assert(chunks[i].key < chunks[at].key);
    } else if at < i {
        assert(chunks[at].key < chunks[i].key);
    }
}

/// Chunk lists that agree on the chunk of a key hold it in the same form.
proof fn lemma_form_kept(a: Seq<Chunk>, b: Seq<Chunk>, key: int)
    requires
        chunks_ok(a),
        chunks_ok(b),
        forall|i: int|
            0 <= i < a.len() && (#[trigger] a[i]).key == key ==> exists|j: int|
                0 <= j < b.len() && #[trigger] b[j] == a[i],
        forall|j: int|
            0 <= j < b.len() && (#[trigger] b[j]).key == key ==> exists|i: int|
                0 <= i < a.len() && #[trigger] a[i] == b[j],
    ensures
        form_at(a, key) == form_at(b, key),
{
    if exists|i: int| 0 <= i < a.len() && (#[trigger] a[i]).key == key {
        let i = choose|i: int| 0 <= i < a.len() && (#[trigger] a[i]).key == key;
        let j = choose|j: int| 0 <= j < b.len() && #[trigger] b[j] == a[i];
        lemma_form_at(a, i);
        lemma_form_at(b, j);
    }
}

proof fn lemma_forms_updated(before: Seq<Chunk>, at: int, chunk: Chunk)
    requires
        chunks_ok(before),
        0 <= at < before.len(),
        chunk.key == before[at].key,
        chunks_ok(before.update(at, chunk)),
    ensures
        forall|key: int|
            key != chunk.key ==> #[trigger] form_at(before.update(at, chunk), key) == form_at(
                before,
                key,
            ),
{
    let after = before.update(at, chunk);
    assert forall|key: int| key != chunk.key implies #[trigger] form_at(after, key) == form_at(
        before,
        key,
    ) by {
        assert forall|i: int| 0 <= i < after.len() && (#[trigger] after[i]).key == key implies exists|
            j: int,
        | 0 <= j < before.len() && #[trigger] before[j] == after[i] by {
            assert(before[i] == after[i]);
        }
        assert forall|i: int| 0 <= i < before.len() && (#[trigger] before[i]).key
            == key implies exists|j: int| 0 <= j < after.len() && #[trigger] after[j] == before[i] by {
            assert(after[i] == before[i]);
        }
        lemma_form_kept(after, before, key);
    }
}

proof fn lemma_forms_inserted(before: Seq<Chunk>, at: int, chunk: Chunk)
    requires
        chunks_ok(before),
        0 <= at <= before.len(),
        chunks_ok(before.insert(at, chunk)),
    ensures
        forall|key: int|
            key != chunk.key ==> #[trigger] form_at(before.insert(at, chunk), key) == form_at(
                before,
                key,
            ),
{
    let after = before.insert(at, chunk);
    assert forall|key: int| key != chunk.key implies #[trigger] form_at(after, key) == form_at(
        before,
        key,
    ) by {
        assert forall|i: int| 0 <= i < after.len() && (#[trigger] after[i]).key == key implies exists|
            j: int,
        | 0 <= j < before.len() && #[trigger] before[j] == after[i] by {
            let j = if i < at {
                i
            } else {
                i - 1
            };
            assert(after[at] == chunk);
            assert(before[j] == after[i]);
        }
        assert forall|i: int| 0 <= i < before.len() && (#[trigger] before[i]).key
            == key implies exists|j: int| 0 <= j < after.len() && #[trigger] after[j] == before[i] by {
            let j = if i < at {
                i
            } else {
                i + 1
            };
            assert(after[j] == before[i]);
        }
        lemma_form_kept(after, before, key);
    }
}

proof fn lemma_forms_removed(before: Seq<Chunk>, at: int)
    requires
        chunks_ok(before),
        0 <= at < before.len(),
        chunks_ok(before.remove(at)),
    ensures
        forall|key: int|
            (exists|i: int|
                0 <= i < before.remove(at).len() && (#[trigger] before.remove(at)[i]).key == key)
                ==> #[trigger] form_at(before.remove(at), key) == form_at(before, key),
{
    let after = before.remove(at);
    assert forall|key: int|
        (exists|i: int|
            0 <= i < after.len() && (#[trigger] after[i]).key == key) implies #[trigger] form_at(
        after,
        key,
    ) == form_at(before, key) by {
        let i = choose|i: int| 0 <= i < after.len() && (#[trigger] after[i]).key == key;
        let j = if i < at {
            i
        } else {
            i + 1
        };
        assert(before[j] == after[i]);
        lemma_form_at(after, i);
        lemma_form_at(before, j);
    }
}

/// The form a chunk is held in once an ordinal is put in it: a new chunk is an
/// array, and an array that has outgrown the words is held whichever way is
/// smallest.
pub open spec fn form_with(was: Option<Held>, added: bool, members: nat, stretches: nat) -> Held {
    match was {
        None => Held::Array,
        Some(held) => if held == Held::Array && added && members > 4096 {
            cheapest(members, stretches)
        } else {
            held
        },
    }
}

/// Adds an ordinal and reports whether it was not already there.
pub fn chunks_insert(chunks: &mut Vec<Chunk>, ordinal: u32) -> (added: bool)
    requires
        chunks_ok(old(chunks)@),
    ensures
        chunks_ok(final(chunks)@),
        added == !chunks_hold(old(chunks)@, ordinal as int),
        forall|d: int|
            0 <= d < 0x1_0000_0000 ==> (#[trigger] chunks_hold(final(chunks)@, d) == (chunks_hold(
                old(chunks)@,
                d,
            ) || d == ordinal)),
        forall|key: int|
            key != ordinal as int / 65536 ==> #[trigger] form_at(final(chunks)@, key) == form_at(
                old(chunks)@,
                key,
            ),
        exists|i: int|
            0 <= i < final(chunks)@.len() && (#[trigger] final(chunks)@[i]).key == ordinal as int
                / 65536 && final(chunks)@[i].store.held() == form_with(
                form_at(old(chunks)@, ordinal as int / 65536),
                added,
                members(final(chunks)@[i].store.set()),
                stretches(final(chunks)@[i].store.set()),
            ),
{
    let ghost before = chunks@;
    let (key, low) = split(ordinal);
    match seek(chunks, key) {
        Ok(at) => {
            let ghost prior = chunks@[at as int];
            proof {
                lemma_held_at(before, at as int, ordinal as int);
            }
            let added = chunks[at].store.insert(low);
            proof {
                let chunk = chunks@[at as int];
                assert(chunk.store.holds(low as int));
                assert(chunk.store.set()(low as int));
                crate::count::lemma_count_some(chunk.store.set(), 0, 65536, low as int);
                assert(chunks@ =~= before.update(at as int, chunk));
                lemma_replaced(before, at as int, chunk);
                assert forall|d: int| 0 <= d < 0x1_0000_0000 implies #[trigger] chunks_hold(
                    chunks@,
                    d,
                ) == (chunks_hold(before, d) || d == ordinal) by {
                    if d / 65536 == key {
                        lemma_held_at(before, at as int, d);
                        assert(chunk.store.holds(d % 65536) == (prior.store.holds(d % 65536) || d
                            % 65536 == low));
                    }
                }
                lemma_form_at(before, at as int);
                lemma_forms_updated(before, at as int, chunk);
                assert(chunks@[at as int].key == ordinal as int / 65536);
            }
            added
        },
        Err(at) => {
            proof {
                lemma_no_key(before, ordinal as int);
            }
            let mut list: Vec<u16> = Vec::new();
            list.push(low);
            let chunk = Chunk { key, store: Store::Array(list) };
            proof {
                assert(list@ =~= seq![low]);
                assert forall|x: int| 0 <= x < 65536 implies chunk.store.holds(x) == (x == low) by {
                    if x == low {
                        assert(list@[0] == x as u16);
                    }
                }
                assert(chunk.store.set()(low as int));
                crate::count::lemma_count_some(chunk.store.set(), 0, 65536, low as int);
                lemma_inserted(before, at as int, chunk);
            }
            chunks.insert(at, chunk);
            proof {
                lemma_forms_inserted(before, at as int, chunk);
                assert(chunks@[at as int].key == ordinal as int / 65536);
            }
            true
        },
    }
}

/// Removes an ordinal and reports whether it was there.
pub fn chunks_remove(chunks: &mut Vec<Chunk>, ordinal: u32) -> (removed: bool)
    requires
        chunks_ok(old(chunks)@),
    ensures
        chunks_ok(final(chunks)@),
        removed == chunks_hold(old(chunks)@, ordinal as int),
        forall|d: int|
            0 <= d < 0x1_0000_0000 ==> (#[trigger] chunks_hold(final(chunks)@, d) == (chunks_hold(
                old(chunks)@,
                d,
            ) && d != ordinal)),
        forall|key: int|
            (exists|i: int| 0 <= i < final(chunks)@.len() && (#[trigger] final(chunks)@[i]).key
                == key) ==> #[trigger] form_at(final(chunks)@, key) == form_at(old(chunks)@, key),
{
    let ghost before = chunks@;
    let (key, low) = split(ordinal);
    match seek(chunks, key) {
        Err(_) => {
            proof {
                lemma_no_key(before, ordinal as int);
            }
            false
        },
        Ok(at) => {
            let ghost prior = chunks@[at as int];
            proof {
                lemma_held_at(before, at as int, ordinal as int);
            }
            let removed = chunks[at].store.remove(low);
            let ghost chunk = chunks@[at as int];
            let ghost between = chunks@;
            assert(between =~= before.update(at as int, chunk));
            if chunks[at].store.is_empty() {
                chunks.remove(at);
                proof {
                    assert(chunks@ =~= before.remove(at as int));
                    lemma_removed(before, at as int);
                    lemma_forms_removed(before, at as int);
                    assert forall|d: int| 0 <= d < 0x1_0000_0000 implies #[trigger] chunks_hold(
                        chunks@,
                        d,
                    ) == (chunks_hold(before, d) && d != ordinal) by {
                        if d / 65536 == key {
                            lemma_held_at(before, at as int, d);
                            assert(chunk.store.holds(d % 65536) == (prior.store.holds(d % 65536)
                                && d % 65536 != low));
                        }
                    }
                }
            } else {
                proof {
                    lemma_replaced(before, at as int, chunk);
                    lemma_forms_updated(before, at as int, chunk);
                    lemma_form_at(before, at as int);
                    lemma_form_at(chunks@, at as int);
                    assert forall|d: int| 0 <= d < 0x1_0000_0000 implies #[trigger] chunks_hold(
                        chunks@,
                        d,
                    ) == (chunks_hold(before, d) && d != ordinal) by {
                        if d / 65536 == key {
                            lemma_held_at(before, at as int, d);
                            assert(chunk.store.holds(d % 65536) == (prior.store.holds(d % 65536)
                                && d % 65536 != low));
                        }
                    }
                }
            }
            removed
        },
    }
}

/// Reports whether the ordinal is in one of the chunks.
pub fn chunks_contain(chunks: &Vec<Chunk>, ordinal: u32) -> (held: bool)
    requires
        chunks_ok(chunks@),
    ensures
        held == chunks_hold(chunks@, ordinal as int),
{
    let (key, low) = split(ordinal);
    match seek(chunks, key) {
        Ok(at) => {
            proof {
                lemma_held_at(chunks@, at as int, ordinal as int);
            }
            chunks[at].store.contains(low)
        },
        Err(_) => {
            proof {
                lemma_no_key(chunks@, ordinal as int);
            }
            false
        },
    }
}

/// The chunks as a predicate on ordinals.
pub open spec fn chunks_set(chunks: Seq<Chunk>) -> spec_fn(int) -> bool {
    |d: int| chunks_hold(chunks, d)
}

/// The first ordinal past the chunks before `i`.
pub open spec fn reach(chunks: Seq<Chunk>, i: int) -> int {
    if i <= 0 {
        0
    } else {
        (chunks[i - 1].key + 1) * 65536
    }
}

/// Nothing lies between one chunk and the next.
proof fn lemma_reach(chunks: Seq<Chunk>, i: int)
    requires
        chunks_ok(chunks),
        0 <= i <= chunks.len(),
    ensures
        i < chunks.len() ==> reach(chunks, i) <= chunks[i].key * 65536,
        forall|d: int|
            reach(chunks, i) <= d && (i < chunks.len() ==> d < chunks[i].key * 65536)
                ==> !#[trigger] chunks_hold(chunks, d),
{
    if 0 < i < chunks.len() {
        assert(chunks[i - 1].key < chunks[i].key);
    }
    assert forall|d: int|
        reach(chunks, i) <= d && (i < chunks.len() ==> d < chunks[i].key * 65536) implies !
    #[trigger] chunks_hold(chunks, d) by {
        if chunks_hold(chunks, d) {
            let k = choose|k: int|
                0 <= k < chunks.len() && (#[trigger] chunks[k]).key == d / 65536
                    && chunks[k].store.holds(d % 65536);
            if k < i {
                if k < i - 1 {
                    assert(chunks[k].key < chunks[i - 1].key);
                }
                assert(d / 65536 <= chunks[i - 1].key);
            } else {
                if k > i {
                    assert(chunks[i].key < chunks[k].key);
                }
                assert(d / 65536 >= chunks[i].key);
            }
        }
    }
}

/// Up to the end of chunk `i`, the chunks count as their members add up.
pub proof fn lemma_chunk_count(chunks: Seq<Chunk>, i: int)
    requires
        chunks_ok(chunks),
        0 <= i < chunks.len(),
    ensures
        count(chunks_set(chunks), 0, reach(chunks, i + 1)) == count(
            chunks_set(chunks),
            0,
            reach(chunks, i),
        ) + members(chunks[i].store.set()),
{
    let f = chunks_set(chunks);
    let g = chunks[i].store.set();
    let base = chunks[i].key * 65536;
    lemma_reach(chunks, i);
    lemma_count_split(f, 0, reach(chunks, i), base + 65536);
    lemma_count_split(f, reach(chunks, i), base, base + 65536);
    lemma_count_none(f, reach(chunks, i), base);
    assert forall|x: int| 0 <= x < 65536 implies #[trigger] g(x) == f(x + base) by {
        lemma_join(chunks[i].key as int, x);
        lemma_held_at(chunks, i, x + base);
    }
    lemma_count_shift(g, f, 0, 65536, base);
}

/// The set of the ordinals has as many elements as the chunks count.
pub proof fn lemma_ordinals_len(chunks: Seq<Chunk>)
    requires
        chunks_ok(chunks),
    ensures
        ordinals(chunks).finite(),
        ordinals(chunks).len() == count(chunks_set(chunks), 0, 0x1_0000_0000),
        ordinals(chunks).len() == count(chunks_set(chunks), 0, reach(chunks, chunks.len() as int)),
{
    let f = chunks_set(chunks);
    lemma_count_set(f, 0x1_0000_0000);
    assert(below(f, 0x1_0000_0000) =~= ordinals(chunks));
    let n = chunks.len() as int;
    lemma_reach(chunks, n);
    lemma_count_split(f, 0, reach(chunks, n), 0x1_0000_0000);
    lemma_count_none(f, reach(chunks, n), 0x1_0000_0000);
}

/// How many ordinals the chunks hold.
pub fn chunks_len(chunks: &Vec<Chunk>) -> (n: u64)
    requires
        chunks_ok(chunks@),
    ensures
        n == ordinals(chunks@).len(),
        n <= 0x1_0000_0000,
{
    let ghost f = chunks_set(chunks@);
    proof {
        lemma_ordinals_len(chunks@);
        crate::count::lemma_count_bound(f, 0, 0x1_0000_0000);
    }
    let mut total: u64 = 0;
    let mut i: usize = 0;
    while i < chunks.len()
        invariant
            i <= chunks@.len(),
            chunks_ok(chunks@),
            f == chunks_set(chunks@),
            total == count(f, 0, reach(chunks@, i as int)),
            count(f, 0, reach(chunks@, chunks@.len() as int)) <= 0x1_0000_0000,
        decreases chunks.len() - i,
    {
        proof {
            lemma_chunk_count(chunks@, i as int);
            let r = reach(chunks@, i + 1);
            let end = reach(chunks@, chunks@.len() as int);
            if i + 1 < chunks@.len() {
                assert(chunks@[i as int].key < chunks@[chunks@.len() - 1].key);
            }
            lemma_count_split(f, 0, r, end);
        }
        total = total + chunks[i].store.len() as u64;
        i = i + 1;
    }
    total
}

/// The largest ordinal the chunks hold.
pub fn chunks_max(chunks: &Vec<Chunk>) -> (largest: Option<u32>)
    requires
        chunks_ok(chunks@),
    ensures
        match largest {
            Some(m) => chunks_hold(chunks@, m as int) && forall|d: int|
                #[trigger] chunks_hold(chunks@, d) ==> d <= m,
            None => chunks@.len() == 0,
        },
{
    if chunks.len() == 0 {
        return None;
    }
    let n: usize = chunks.len();
    let key: u16 = chunks[n - 1].key;
    match chunks[n - 1].store.last() {
        Some(low) => {
            proof {
                lemma_join(key as int, low as int);
                let d = key * 65536 + low;
                lemma_held_at(chunks@, n - 1, d);
                assert forall|d: int| #[trigger] chunks_hold(chunks@, d) implies d <= key * 65536
                    + low by {
                    let i = choose|i: int|
                        0 <= i < chunks@.len() && (#[trigger] chunks@[i]).key == d / 65536
                            && chunks@[i].store.holds(d % 65536);
                    if i < n - 1 {
                        assert(chunks@[i].key < chunks@[n - 1].key);
                    } else {
                        assert(d % 65536 <= low);
                    }
                }
            }
            Some(key as u32 * 65536 + low as u32)
        },
        None => {
            proof {
                chunks@[n - 1].store.lemma_empty();
            }
            None
        },
    }
}

/// Keeps only the ordinals that are also in `other`.
pub fn chunks_intersect(chunks: &mut Vec<Chunk>, other: &Vec<Chunk>)
    requires
        chunks_ok(old(chunks)@),
        chunks_ok(other@),
    ensures
        chunks_ok(final(chunks)@),
        settled(final(chunks)@, final(chunks)@.len() as int),
        forall|d: int|
            0 <= d < 0x1_0000_0000 ==> (#[trigger] chunks_hold(final(chunks)@, d) == (chunks_hold(
                old(chunks)@,
                d,
            ) && chunks_hold(other@, d))),
{
    let ghost before = chunks@;
    let mut theirs: usize = 0;
    let mut i: usize = 0;
    while i < chunks.len()
        invariant
            i <= chunks@.len(),
            theirs <= other@.len(),
            chunks_ok(chunks@),
            chunks_ok(other@),
            settled(chunks@, i as int),
            forall|k: int|
                0 <= k < theirs && i < chunks@.len() ==> (#[trigger] other@[k]).key
                    < chunks@[i as int].key,
            // Nothing of both has been dropped, and the chunks already met hold
            // nothing else.
            forall|d: int|
                0 <= d < 0x1_0000_0000 ==> ((chunks_hold(before, d) && chunks_hold(other@, d)) == (
                #[trigger] chunks_hold(chunks@, d) && chunks_hold(other@, d))),
            forall|d: int|
                0 <= d < 0x1_0000_0000 && #[trigger] chunks_hold(chunks@, d) && !held_from(
                    chunks@,
                    i as int,
                    d,
                ) ==> chunks_hold(other@, d),
        decreases chunks.len() - i,
    {
        let key: u16 = chunks[i].key;
        let ghost had = chunks@;
        while theirs < other.len() && other[theirs].key < key
            invariant
                theirs <= other@.len(),
                forall|k: int| 0 <= k < theirs ==> (#[trigger] other@[k]).key < key,
            decreases other.len() - theirs,
        {
            theirs = theirs + 1;
        }
        let mut keep: bool = false;
        if theirs < other.len() && other[theirs].key == key {
            chunks[i].store.intersect(&other[theirs].store);
            keep = !chunks[i].store.is_empty();
        }
        let ghost chunk = chunks@[i as int];
        proof {
            assert(chunks@ =~= had.update(i as int, chunk));
            assert forall|d: int| 0 <= d < 0x1_0000_0000 && d / 65536 == key implies (chunks_hold(
                had,
                d,
            ) && chunks_hold(other@, d)) == (keep && chunk.store.holds(d % 65536)) by {
                lemma_held_at(had, i as int, d);
                if theirs < other@.len() && other@[theirs as int].key == key {
                    lemma_held_at(other@, theirs as int, d);
                    assert(chunk.store.holds(d % 65536) == (had[i as int].store.holds(d % 65536)
                        && other@[theirs as int].store.holds(d % 65536)));
                } else {
                    assert forall|k: int| 0 <= k < other@.len() implies (#[trigger] other@[k]).key
                        != key by {
                        if k > theirs {
                            assert(other@[theirs as int].key < other@[k].key);
                        }
                    }
                    lemma_no_key(other@, d);
                }
            }
        }
        if keep {
            proof {
                lemma_replaced(had, i as int, chunk);
                assert forall|d: int| 0 <= d < 0x1_0000_0000 implies (chunks_hold(before, d)
                    && chunks_hold(other@, d)) == (#[trigger] chunks_hold(chunks@, d)
                    && chunks_hold(other@, d)) by {
                    assert((chunks_hold(before, d) && chunks_hold(other@, d)) == (chunks_hold(
                        had,
                        d,
                    ) && chunks_hold(other@, d)));
                }
                assert forall|d: int|
                    0 <= d < 0x1_0000_0000 && #[trigger] chunks_hold(chunks@, d) && !held_from(
                        chunks@,
                        i + 1,
                        d,
                    ) implies chunks_hold(other@, d) by {
                    if d / 65536 != key {
                        assert(chunks_hold(had, d));
                        lemma_held_step(had, i as int, d);
                        lemma_held_alike(had, chunks@, i + 1, d);
                    }
                }
                if i + 1 < chunks@.len() {
                    assert(chunks@[i as int].key < chunks@[i + 1].key);
                }
            }
            i = i + 1;
        } else {
            chunks.remove(i);
            proof {
                assert(chunks@ =~= had.remove(i as int));
                lemma_removed(had, i as int);
                assert forall|d: int| 0 <= d < 0x1_0000_0000 implies (chunks_hold(before, d)
                    && chunks_hold(other@, d)) == (#[trigger] chunks_hold(chunks@, d)
                    && chunks_hold(other@, d)) by {
                    assert((chunks_hold(before, d) && chunks_hold(other@, d)) == (chunks_hold(
                        had,
                        d,
                    ) && chunks_hold(other@, d)));
                }
                assert forall|d: int|
                    0 <= d < 0x1_0000_0000 && #[trigger] chunks_hold(chunks@, d) && !held_from(
                        chunks@,
                        i as int,
                        d,
                    ) implies chunks_hold(other@, d) by {
                    assert(chunks_hold(had, d));
                    if held_from(had, i as int, d) {
                        let k = choose|k: int|
                            i <= k < had.len() && (#[trigger] had[k]).key == d / 65536
                                && had[k].store.holds(d % 65536);
                        assert(k != i);
                        assert(chunks@[k - 1] == had[k]);
                        assert(held_from(chunks@, i as int, d));
                    }
                }
                if i < chunks@.len() {
                    assert(had[i as int].key < had[i + 1].key);
                }
            }
        }
    }
    proof {
        assert forall|d: int| 0 <= d < 0x1_0000_0000 implies #[trigger] chunks_hold(chunks@, d) == (
        chunks_hold(before, d) && chunks_hold(other@, d)) by {
            assert(!held_from(chunks@, i as int, d));
        }
    }
}

/// Chunk lists that are the same from `from` on hold the same there.
proof fn lemma_held_alike(a: Seq<Chunk>, b: Seq<Chunk>, from: int, d: int)
    requires
        a.len() == b.len(),
        0 <= from,
        forall|i: int| from <= i < a.len() ==> #[trigger] a[i] == b[i],
    ensures
        held_from(a, from, d) == held_from(b, from, d),
{
    if held_from(a, from, d) {
        let i = choose|i: int|
            from <= i < a.len() && (#[trigger] a[i]).key == d / 65536 && a[i].store.holds(
                d % 65536,
            );
        assert(b[i].key == d / 65536);
    }
    if held_from(b, from, d) {
        let i = choose|i: int|
            from <= i < b.len() && (#[trigger] b[i]).key == d / 65536 && b[i].store.holds(
                d % 65536,
            );
        assert(a[i].key == d / 65536);
    }
}

/// Removes every ordinal of `other`.
pub fn chunks_difference(chunks: &mut Vec<Chunk>, other: &Vec<Chunk>)
    requires
        chunks_ok(old(chunks)@),
        chunks_ok(other@),
    ensures
        chunks_ok(final(chunks)@),
        forall|d: int|
            0 <= d < 0x1_0000_0000 ==> (#[trigger] chunks_hold(final(chunks)@, d) == (chunks_hold(
                old(chunks)@,
                d,
            ) && !chunks_hold(other@, d))),
        settled(final(chunks)@, final(chunks)@.len() as int),
{
    let ghost before = chunks@;
    let mut theirs: usize = 0;
    while theirs < other.len()
        invariant
            theirs <= other@.len(),
            chunks_ok(chunks@),
            chunks_ok(other@),
            forall|d: int|
                0 <= d < 0x1_0000_0000 ==> (#[trigger] chunks_hold(chunks@, d) == (chunks_hold(
                    before,
                    d,
                ) && (!chunks_hold(other@, d) || held_from(other@, theirs as int, d)))),
        decreases other.len() - theirs,
    {
        let key: u16 = other[theirs].key;
        let ghost had = chunks@;
        match seek(chunks, key) {
            Ok(at) => {
                chunks[at].store.difference(&other[theirs].store);
                let ghost chunk = chunks@[at as int];
                assert(chunks@ =~= had.update(at as int, chunk));
                let empty: bool = chunks[at].store.is_empty();
                if empty {
                    chunks.remove(at);
                    proof {
                        assert(chunks@ =~= had.remove(at as int));
                        lemma_removed(had, at as int);
                    }
                } else {
                    proof {
                        lemma_replaced(had, at as int, chunk);
                    }
                }
                proof {
                    assert forall|d: int| 0 <= d < 0x1_0000_0000 implies #[trigger] chunks_hold(
                        chunks@,
                        d,
                    ) == (chunks_hold(before, d) && (!chunks_hold(other@, d) || held_from(
                        other@,
                        theirs + 1,
                        d,
                    ))) by {
                        lemma_held_step(other@, theirs as int, d);
                        assert(chunks_hold(had, d) == (chunks_hold(before, d) && (!chunks_hold(
                            other@,
                            d,
                        ) || held_from(other@, theirs as int, d))));
                        if d / 65536 == key {
                            lemma_held_at(had, at as int, d);
                            lemma_held_at(other@, theirs as int, d);
                            lemma_key_past(other@, theirs as int, d);
                            assert(chunk.store.holds(d % 65536) == (had[at as int].store.holds(
                                d % 65536,
                            ) && !other@[theirs as int].store.holds(d % 65536)));
                        }
                    }
                }
            },
            Err(_) => {
                proof {
                    assert forall|d: int| 0 <= d < 0x1_0000_0000 implies #[trigger] chunks_hold(
                        chunks@,
                        d,
                    ) == (chunks_hold(before, d) && (!chunks_hold(other@, d) || held_from(
                        other@,
                        theirs + 1,
                        d,
                    ))) by {
                        lemma_held_step(other@, theirs as int, d);
                        if d / 65536 == key {
                            lemma_no_key(had, d);
                            lemma_key_past(other@, theirs as int, d);
                        }
                    }
                }
            },
        }
        theirs = theirs + 1;
    }
    chunks_settle(chunks);
}

/// Holds each chunk whichever way is smallest.
fn chunks_settle(chunks: &mut Vec<Chunk>)
    requires
        chunks_ok(old(chunks)@),
    ensures
        chunks_ok(final(chunks)@),
        settled(final(chunks)@, final(chunks)@.len() as int),
        forall|d: int|
            0 <= d < 0x1_0000_0000 ==> (#[trigger] chunks_hold(final(chunks)@, d) == chunks_hold(
                old(chunks)@,
                d,
            )),
{
    let ghost before = chunks@;
    let mut i: usize = 0;
    while i < chunks.len()
        invariant
            i <= chunks@.len(),
            chunks_ok(chunks@),
            settled(chunks@, i as int),
            forall|d: int|
                0 <= d < 0x1_0000_0000 ==> (#[trigger] chunks_hold(chunks@, d) == chunks_hold(
                    before,
                    d,
                )),
        decreases chunks.len() - i,
    {
        let ghost had = chunks@;
        chunks[i].store.shrink();
        proof {
            let chunk = chunks@[i as int];
            let f = chunk.store.set();
            let g = had[i as int].store.set();
            assert(chunks@ =~= had.update(i as int, chunk));
            assert forall|x: int| 0 <= x < 65536 implies #[trigger] f(x) == g(x) by {
                assert(chunk.store.holds(x) == had[i as int].store.holds(x));
            }
            lemma_same_members(f, g);
            lemma_replaced(had, i as int, chunk);
            assert forall|k: int| 0 <= k < i + 1 implies (#[trigger] chunks@[k]).store.held()
                == cheapest(members(chunks@[k].store.set()), stretches(chunks@[k].store.set())) by {
                if k < i {
                    assert(chunks@[k] == had[k]);
                }
            }
            assert forall|d: int| 0 <= d < 0x1_0000_0000 implies #[trigger] chunks_hold(chunks@, d)
                == chunks_hold(before, d) by {
                assert(chunks_hold(had, d) == chunks_hold(before, d));
                if d / 65536 == chunk.key {
                    lemma_held_at(had, i as int, d);
                    assert(chunk.store.holds(d % 65536) == had[i as int].store.holds(d % 65536));
                }
            }
        }
        i = i + 1;
    }
}

/// No later chunk has the key of an earlier one.
proof fn lemma_key_past(chunks: Seq<Chunk>, at: int, d: int)
    requires
        chunks_ok(chunks),
        0 <= at < chunks.len(),
        chunks[at].key == d / 65536,
    ensures
        !held_from(chunks, at + 1, d),
{
    if held_from(chunks, at + 1, d) {
        let i = choose|i: int|
            at + 1 <= i < chunks.len() && (#[trigger] chunks[i]).key == d / 65536
                && chunks[i].store.holds(d % 65536);
        assert(chunks[at].key < chunks[i].key);
    }
}

/// Adds every ordinal of `other`.
pub fn chunks_union(chunks: &mut Vec<Chunk>, other: &Vec<Chunk>)
    requires
        chunks_ok(old(chunks)@),
        chunks_ok(other@),
    ensures
        chunks_ok(final(chunks)@),
        forall|d: int|
            0 <= d < 0x1_0000_0000 ==> (#[trigger] chunks_hold(final(chunks)@, d) == (chunks_hold(
                old(chunks)@,
                d,
            ) || chunks_hold(other@, d))),
        settled(final(chunks)@, final(chunks)@.len() as int),
{
    let ghost before = chunks@;
    let mut theirs: usize = 0;
    while theirs < other.len()
        invariant
            theirs <= other@.len(),
            chunks_ok(chunks@),
            chunks_ok(other@),
            forall|d: int|
                0 <= d < 0x1_0000_0000 ==> ((chunks_hold(before, d) || chunks_hold(other@, d)) == (
                #[trigger] chunks_hold(chunks@, d) || held_from(other@, theirs as int, d))),
        decreases other.len() - theirs,
    {
        let key: u16 = other[theirs].key;
        let ghost had = chunks@;
        match seek(chunks, key) {
            Ok(at) => {
                chunks[at].store.union(&other[theirs].store);
                let ghost chunk = chunks@[at as int];
                proof {
                    assert(chunks@ =~= had.update(at as int, chunk));
                    let x = crate::count::lemma_count_found(had[at as int].store.set(), 0, 65536);
                    assert(chunk.store.holds(x) == (had[at as int].store.holds(x)
                        || other@[theirs as int].store.holds(x)));
                    assert(chunk.store.set()(x));
                    crate::count::lemma_count_some(chunk.store.set(), 0, 65536, x);
                    lemma_replaced(had, at as int, chunk);
                    assert forall|d: int| 0 <= d < 0x1_0000_0000 implies (chunks_hold(before, d)
                        || chunks_hold(other@, d)) == (#[trigger] chunks_hold(chunks@, d)
                        || held_from(other@, theirs + 1, d)) by {
                        lemma_held_step(other@, theirs as int, d);
                        assert((chunks_hold(before, d) || chunks_hold(other@, d)) == (chunks_hold(
                            had,
                            d,
                        ) || held_from(other@, theirs as int, d)));
                        if d / 65536 == key {
                            lemma_held_at(had, at as int, d);
                            assert(chunk.store.holds(d % 65536) == (had[at as int].store.holds(
                                d % 65536,
                            ) || other@[theirs as int].store.holds(d % 65536)));
                        }
                    }
                }
            },
            Err(at) => {
                let store = other[theirs].store.copy();
                let chunk = Chunk { key, store };
                proof {
                    let f = other@[theirs as int].store.set();
                    let g = chunk.store.set();
                    assert forall|x: int| 0 <= x < 65536 implies #[trigger] f(x) == g(x) by {
                        assert(chunk.store.holds(x) == other@[theirs as int].store.holds(x));
                    }
                    lemma_same_members(f, g);
                    let x = crate::count::lemma_count_found(f, 0, 65536);
                    assert(chunk.store.holds(x) == other@[theirs as int].store.holds(x));
                    assert(chunk.store.set()(x));
                    crate::count::lemma_count_some(chunk.store.set(), 0, 65536, x);
                    lemma_inserted(had, at as int, chunk);
                    assert forall|d: int| 0 <= d < 0x1_0000_0000 implies (chunks_hold(before, d)
                        || chunks_hold(other@, d)) == (chunks_hold(had, d) || (d / 65536 == key
                        && chunk.store.holds(d % 65536)) || held_from(other@, theirs + 1, d)) by {
                        lemma_held_step(other@, theirs as int, d);
                        assert((chunks_hold(before, d) || chunks_hold(other@, d)) == (chunks_hold(
                            had,
                            d,
                        ) || held_from(other@, theirs as int, d)));
                        assert(chunk.store.holds(d % 65536) == other@[theirs as int].store.holds(
                            d % 65536,
                        ));
                    }
                }
                chunks.insert(at, chunk);
            },
        }
        theirs = theirs + 1;
    }
    chunks_settle(chunks);
}

/// A second copy of the chunks.
pub fn chunks_copy(chunks: &Vec<Chunk>) -> (out: Vec<Chunk>)
    requires
        chunks_ok(chunks@),
    ensures
        chunks_ok(out@),
        forms(out@) == forms(chunks@),
        forall|d: int|
            0 <= d < 0x1_0000_0000 ==> (#[trigger] chunks_hold(out@, d) == chunks_hold(
                chunks@,
                d,
            )),
{
    let mut out: Vec<Chunk> = Vec::new();
    let mut i: usize = 0;
    while i < chunks.len()
        invariant
            i <= chunks@.len(),
            out@.len() == i,
            chunks_ok(chunks@),
            forall|k: int|
                0 <= k < i ==> (#[trigger] out@[k]).key == chunks@[k].key && out@[k].store.wf()
                    && out@[k].store.held() == chunks@[k].store.held() && (forall|x: int|
                    #[trigger] out@[k].store.holds(x) == chunks@[k].store.holds(x)),
        decreases chunks.len() - i,
    {
        let store = chunks[i].store.copy();
        out.push(Chunk { key: chunks[i].key, store });
        i = i + 1;
    }
    proof {
        assert forall|k: int| 0 <= k < out@.len() implies (#[trigger] out@[k]).store.wf()
            && members(out@[k].store.set()) > 0 by {
            let x = crate::count::lemma_count_found(chunks@[k].store.set(), 0, 65536);
            assert(out@[k].store.holds(x) == chunks@[k].store.holds(x));
            assert(out@[k].store.set()(x));
            crate::count::lemma_count_some(out@[k].store.set(), 0, 65536, x);
        }
        assert forall|a: int, b: int| 0 <= a < b < out@.len() implies (#[trigger] out@[a]).key < (
        #[trigger] out@[b]).key by {
            assert(chunks@[a].key < chunks@[b].key);
        }
        assert forall|d: int| 0 <= d < 0x1_0000_0000 implies #[trigger] chunks_hold(out@, d)
            == chunks_hold(chunks@, d) by {
            if chunks_hold(out@, d) {
                let k = choose|k: int|
                    0 <= k < out@.len() && (#[trigger] out@[k]).key == d / 65536
                        && out@[k].store.holds(d % 65536);
                assert(chunks@[k].key == d / 65536);
            }
            if chunks_hold(chunks@, d) {
                let k = choose|k: int|
                    0 <= k < chunks@.len() && (#[trigger] chunks@[k]).key == d / 65536
                        && chunks@[k].store.holds(d % 65536);
                assert(out@[k].key == d / 65536);
                assert(out@[k].store.holds(d % 65536) == chunks@[k].store.holds(d % 65536));
            }
        }
        assert(forms(out@) =~= forms(chunks@));
    }
    out
}

/// The form each chunk is held in, in order.
pub open spec fn forms(chunks: Seq<Chunk>) -> Seq<Held> {
    Seq::new(chunks.len(), |i: int| chunks[i].store.held())
}

/// Ascending ordinals, across every chunk and every representation.
#[derive(Debug)]
pub struct Iter<'a> {
    pub chunks: &'a Vec<Chunk>,
    pub chunk: usize,
    /// The next entry of an array, or the run being walked.
    pub at: usize,
    /// How far into that run the walk has got.
    pub offset: u32,
    /// The remaining bits of the word being drained.
    pub word: u64,
    pub word_index: usize,
    pub primed: bool,
}

impl<'a> Iter<'a> {
    /// The walk over the chunk the iteration has reached.
    pub open spec fn walk(&self) -> WalkStore<'a> {
        WalkStore {
            store: &self.chunks@[self.chunk as int].store,
            at: self.at,
            offset: self.offset,
            word: self.word,
            word_index: self.word_index,
            primed: self.primed,
        }
    }

    pub open spec fn wf(&self) -> bool {
        &&& chunks_ok(self.chunks@)
        &&& self.chunk <= self.chunks@.len()
        &&& self.chunk < self.chunks@.len() ==> self.walk().wf()
    }

    /// Whether the ordinal `d` is still to come.
    pub open spec fn left(&self, d: int) -> bool {
        ||| self.chunk < self.chunks@.len() && self.chunks@[self.chunk as int].key == d / 65536
            && self.walk().left(d % 65536)
        ||| held_from(self.chunks@, self.chunk + 1, d)
    }

    /// A walk over the chunks from the first one.
    pub fn over(chunks: &'a Vec<Chunk>) -> (iter: Self)
        requires
            chunks_ok(chunks@),
        ensures
            iter.wf(),
            iter.chunks == chunks,
            forall|d: int| #[trigger] iter.left(d) == chunks_hold(chunks@, d),
    {
        let iter = Iter {
            chunks,
            chunk: 0,
            at: 0,
            offset: 0,
            word: 0,
            word_index: 0,
            primed: false,
        };
        if chunks.len() > 0 {
            let walk = WalkStore::new(&chunks[0].store);
            proof {
                assert(iter.walk() == walk);
                assert forall|d: int| #[trigger] iter.left(d) == chunks_hold(chunks@, d) by {
                    lemma_held_step(chunks@, 0, d);
                    assert(walk.left(d % 65536) == chunks@[0].store.holds(d % 65536));
                }
            }
        }
        iter
    }

    /// The smallest ordinal that is still to come.
    pub fn next(&mut self) -> (ordinal: Option<u32>)
        requires
            old(self).wf(),
        ensures
            final(self).wf(),
            final(self).chunks == old(self).chunks,
            match ordinal {
                Some(m) => {
                    &&& old(self).left(m as int)
                    &&& forall|d: int| 0 <= d && #[trigger] old(self).left(d) ==> d >= m
                    &&& forall|d: int|
                        0 <= d ==> (#[trigger] final(self).left(d) == (old(self).left(d) && d
                            != m))
                },
                None => {
                    &&& forall|d: int| !#[trigger] old(self).left(d)
                    &&& forall|d: int| !#[trigger] final(self).left(d)
                },
            },
    {
        while self.chunk < self.chunks.len()
            invariant
                self.wf(),
                self.chunks == old(self).chunks,
                forall|d: int| #[trigger] self.left(d) == old(self).left(d),
            decreases self.chunks.len() - self.chunk,
        {
            let ghost prior = *self;
            let key: u16 = self.chunks[self.chunk].key;
            let mut walk = WalkStore {
                store: &self.chunks[self.chunk].store,
                at: self.at,
                offset: self.offset,
                word: self.word,
                word_index: self.word_index,
                primed: self.primed,
            };
            let ghost walked = walk;
            assert(walked == prior.walk());
            let next = walk.next();
            self.at = walk.at;
            self.offset = walk.offset;
            self.word = walk.word;
            self.word_index = walk.word_index;
            self.primed = walk.primed;
            assert(self.walk() == walk);
            match next {
                Some(low) => {
                    let m: u32 = key as u32 * 65536 + low as u32;
                    proof {
                        lemma_join(key as int, low as int);
                        assert forall|d: int| 0 <= d && #[trigger] prior.left(d) implies d >= m by {
                            if held_from(prior.chunks@, prior.chunk + 1, d) {
                                lemma_later(prior.chunks@, prior.chunk as int, d);
                            } else {
                                assert(walked.left(d % 65536));
                            }
                        }
                        assert forall|d: int| 0 <= d implies #[trigger] self.left(d) == (prior.left(
                            d,
                        ) && d != m) by {
                            assert(walk.left(d % 65536) == (walked.left(d % 65536) && d % 65536
                                != low));
                            if held_from(prior.chunks@, prior.chunk + 1, d) {
                                lemma_later(prior.chunks@, prior.chunk as int, d);
                            }
                        }
                        assert(prior.left(m as int)) by {
                            assert(walked.left(low as int));
                        }
                        assert(old(self).left(m as int));
                        assert forall|d: int| 0 <= d && #[trigger] old(self).left(d) implies d
                            >= m by {
                            assert(prior.left(d));
                        }
                        assert forall|d: int| 0 <= d implies #[trigger] self.left(d) == (old(
                            self,
                        ).left(d) && d != m) by {
                            assert(prior.left(d) == old(self).left(d));
                        }
                    }
                    return Some(m);
                },
                None => {
                    self.chunk = self.chunk + 1;
                    self.at = 0;
                    self.offset = 0;
                    self.word = 0;
                    self.word_index = 0;
                    self.primed = false;
                    if self.chunk < self.chunks.len() {
                        let fresh = WalkStore::new(&self.chunks[self.chunk].store);
                        proof {
                            assert(self.walk() == fresh);
                            assert forall|d: int| #[trigger] self.left(d) == old(self).left(d) by {
                                assert(prior.left(d) == old(self).left(d));
                                assert(!walked.left(d % 65536));
                                lemma_held_step(self.chunks@, self.chunk as int, d);
                                assert(fresh.left(d % 65536)
                                    == self.chunks@[self.chunk as int].store.holds(d % 65536));
                            }
                        }
                    } else {
                        proof {
                            assert forall|d: int| #[trigger] self.left(d) == old(self).left(d) by {
                                assert(prior.left(d) == old(self).left(d));
                                assert(!walked.left(d % 65536));
                            }
                        }
                    }
                },
            }
        }
        proof {
            assert forall|d: int| !#[trigger] old(self).left(d) by {
                assert(self.left(d) == old(self).left(d));
            }
        }
        None
    }
}

/// What a later chunk holds is larger than anything of an earlier one.
proof fn lemma_later(chunks: Seq<Chunk>, at: int, d: int)
    requires
        chunks_ok(chunks),
        0 <= at < chunks.len(),
        held_from(chunks, at + 1, d),
    ensures
        d / 65536 > chunks[at].key,
        d >= (chunks[at].key + 1) * 65536,
{
    let i = choose|i: int|
        at + 1 <= i < chunks.len() && (#[trigger] chunks[i]).key == d / 65536
            && chunks[i].store.holds(d % 65536);
    assert(chunks[at].key < chunks[i].key);
}

} // verus!

//! A vocabulary and one posting chain per term in it.
//!
//! A chain is a list of chunks of one arena. A chunk starts with the place of
//! the next one and goes on with pairs of a document gap and a frequency, as
//! variable length integers. A chunk is closed as soon as a pair might not fit,
//! so a pair never straddles two chunks.
use super::vocabulary::{Vocabulary, NONE};
use crate::codec::{
    get_uvarint, law_uvarint_round_trip, le_bytes, le_value, lemma_le_bytes, lemma_le_unfold,
    lemma_uvarint_bytes, put_u32, put_uvarint, uvarint_bytes,
};
use crate::error::{Error, Result};
use crate::order::before;
use vstd::prelude::*;

verus! {

/// The size of one link in a term's posting chain, in bytes.
///
/// Small enough that a term appearing in one document does not pay for a
/// kilobyte, large enough that a term appearing in a million documents does not
/// spend its time following pointers.
pub const CHUNK: usize = 64;

/// The bytes at the front of a chunk holding the offset of the next one.
pub const LINK: usize = 4;

/// The bytes in a chunk that hold postings.
pub const PAYLOAD: usize = 60;

/// The most a document gap and a frequency can take, as two 32 bit varints.
pub const MAX_PAIR: usize = 10;

// ---------------------------------------------------------------------------
// What a chain holds.
// ---------------------------------------------------------------------------

/// One chunk of a chain: where it is, and the gaps and frequencies in it.
pub struct Link {
    pub at: int,
    pub pairs: Seq<(u32, u32)>,
}

pub open spec fn pair_bytes(pair: (u32, u32)) -> Seq<u8> {
    uvarint_bytes(pair.0 as nat) + uvarint_bytes(pair.1 as nat)
}

pub open spec fn pairs_bytes(pairs: Seq<(u32, u32)>) -> Seq<u8>
    decreases pairs.len(),
{
    if pairs.len() == 0 {
        Seq::empty()
    } else {
        pair_bytes(pairs[0]) + pairs_bytes(pairs.skip(1))
    }
}

/// The chunk is in the arena and holds its pairs.
#[verifier::opaque]
pub open spec fn chunk_ok(arena: Seq<u8>, link: Link) -> bool {
    let bytes = pairs_bytes(link.pairs);
    &&& 0 <= link.at <= u32::MAX
    &&& link.at % 64 == 0
    &&& link.at + 64 <= arena.len()
    &&& bytes.len() <= 60
    &&& arena.subrange(link.at + 4, link.at + 4 + bytes.len()) == bytes
    &&& forall|j: int|
        0 <= j < link.pairs.len() ==> pairs_bytes(#[trigger] link.pairs.take(j)).len() <= 50
}

/// Every chunk of the chain is in the arena, and each but the last is full and
/// names the next.
pub open spec fn chain_ok(arena: Seq<u8>, chain: Seq<Link>) -> bool {
    &&& chain.len() > 0
    &&& forall|k: int| 0 <= k < chain.len() ==> chunk_ok(arena, #[trigger] chain[k])
    &&& forall|k: int|
        0 <= k < chain.len() - 1 ==> pairs_bytes((#[trigger] chain[k]).pairs).len() > 50
            && le_value(arena.subrange(chain[k].at, chain[k].at + 4)) == chain[k + 1].at
}

/// No chunk is in two places.
#[verifier::opaque]
pub open spec fn apart(chains: Seq<Seq<Link>>) -> bool {
    forall|i: int, k: int, j: int, l: int|
        0 <= i < chains.len() && 0 <= k < chains[i].len() && 0 <= j < chains.len() && 0 <= l
            < chains[j].len() && (#[trigger] chains[i][k]).at == (#[trigger] chains[j][l]).at
            ==> i == j && k == l
}

/// The gaps and frequencies of a chain, in order.
pub open spec fn flat(chain: Seq<Link>) -> Seq<(u32, u32)>
    decreases chain.len(),
{
    if chain.len() == 0 {
        Seq::empty()
    } else {
        flat(chain.drop_last()) + chain.last().pairs
    }
}

/// The documents and frequencies that gaps and frequencies stand for: the first
/// gap is a document, and each other one is how far the next document is on.
pub open spec fn unfold(pairs: Seq<(u32, u32)>) -> Seq<(u32, u32)>
    decreases pairs.len(),
{
    if pairs.len() == 0 {
        Seq::empty()
    } else {
        let had = unfold(pairs.drop_last());
        let (gap, frequency) = pairs.last();
        if had.len() == 0 {
            had.push((gap, frequency))
        } else {
            had.push(((had.last().0 + gap) as u32, frequency))
        }
    }
}

/// No document number is past what 32 bits hold.
pub open spec fn exact(pairs: Seq<(u32, u32)>) -> bool
    decreases pairs.len(),
{
    pairs.len() <= 1 || (exact(pairs.drop_last()) && unfold(pairs.drop_last()).last().0
        + pairs.last().0 <= u32::MAX)
}

pub proof fn lemma_exact_take(pairs: Seq<(u32, u32)>, n: int)
    requires
        0 <= n <= pairs.len(),
        exact(pairs),
    ensures
        exact(pairs.take(n)),
    decreases pairs.len(),
{
    if n == pairs.len() {
        assert(pairs.take(n) =~= pairs);
    } else {
        if pairs.len() > 1 {
            lemma_exact_take(pairs.drop_last(), n);
        }
        assert(pairs.drop_last().take(n) =~= pairs.take(n));
    }
}

pub proof fn lemma_unfold_len(pairs: Seq<(u32, u32)>)
    ensures
        unfold(pairs).len() == pairs.len(),
    decreases pairs.len(),
{
    if pairs.len() > 0 {
        lemma_unfold_len(pairs.drop_last());
    }
}

pub proof fn lemma_unfold_take(pairs: Seq<(u32, u32)>, n: int)
    requires
        0 <= n <= pairs.len(),
    ensures
        unfold(pairs.take(n)) == unfold(pairs).take(n),
    decreases pairs.len(),
{
    lemma_unfold_len(pairs);
    if n == pairs.len() {
        assert(pairs.take(n) =~= pairs);
        assert(unfold(pairs).take(n) =~= unfold(pairs));
    } else {
        lemma_unfold_take(pairs.drop_last(), n);
        lemma_unfold_len(pairs.drop_last());
        assert(pairs.drop_last().take(n) =~= pairs.take(n));
        assert(unfold(pairs).take(n) =~= unfold(pairs.drop_last()).take(n));
    }
}

proof fn lemma_pair_len(pair: (u32, u32))
    ensures
        2 <= pair_bytes(pair).len() <= 10,
{
    lemma_uvarint_bytes(pair.0 as nat);
    lemma_uvarint_bytes(pair.1 as nat);
    vstd::arithmetic::power2::lemma2_to64();
    vstd::arithmetic::power2::lemma2_to64_rest();
    assert(pair.0 < vstd::arithmetic::power2::pow2(7 * 5));
    assert(pair.1 < vstd::arithmetic::power2::pow2(7 * 5));
}

proof fn lemma_pairs_push(pairs: Seq<(u32, u32)>, pair: (u32, u32))
    ensures
        pairs_bytes(pairs.push(pair)) == pairs_bytes(pairs) + pair_bytes(pair),
    decreases pairs.len(),
{
    let longer = pairs.push(pair);
    if pairs.len() == 0 {
        assert(longer.skip(1) =~= Seq::<(u32, u32)>::empty());
        assert(longer[0] == pair);
        assert(pairs_bytes(longer.skip(1)) =~= Seq::<u8>::empty());
        assert(pairs_bytes(longer) =~= pairs_bytes(pairs) + pair_bytes(pair));
    } else {
        lemma_pairs_push(pairs.skip(1), pair);
        assert(longer.skip(1) =~= pairs.skip(1).push(pair));
        assert(pairs_bytes(longer) =~= pairs_bytes(pairs) + pair_bytes(pair));
    }
}

proof fn lemma_pairs_split(pairs: Seq<(u32, u32)>, j: int)
    requires
        0 <= j <= pairs.len(),
    ensures
        pairs_bytes(pairs) == pairs_bytes(pairs.take(j)) + pairs_bytes(pairs.skip(j)),
    decreases j,
{
    if j == 0 {
        assert(pairs.take(0) =~= Seq::<(u32, u32)>::empty());
        assert(pairs.skip(0) =~= pairs);
        assert(pairs_bytes(pairs) =~= pairs_bytes(pairs.take(j)) + pairs_bytes(pairs.skip(j)));
    } else {
        lemma_pairs_split(pairs.skip(1), j - 1);
        assert(pairs.take(j)[0] == pairs[0]);
        assert(pairs.take(j).skip(1) =~= pairs.skip(1).take(j - 1));
        assert(pairs.skip(1).skip(j - 1) =~= pairs.skip(j));
        assert(pairs_bytes(pairs) =~= pairs_bytes(pairs.take(j)) + pairs_bytes(pairs.skip(j)));
    }
}

proof fn lemma_chunk_bounds(arena: Seq<u8>, link: Link)
    requires
        chunk_ok(arena, link),
    ensures
        0 <= link.at <= u32::MAX,
        link.at % 64 == 0,
        link.at + 64 <= arena.len(),
        pairs_bytes(link.pairs).len() <= 60,
{
    reveal(chunk_ok);
}

/// A chunk with nothing in it.
proof fn lemma_new_chunk(arena: Seq<u8>, at: int)
    requires
        0 <= at <= u32::MAX,
        at % 64 == 0,
        at + 64 <= arena.len(),
    ensures
        chunk_ok(arena, Link { at, pairs: Seq::empty() }),
{
    reveal(chunk_ok);
    assert(arena.subrange(at + 4, at + 4) =~= Seq::<u8>::empty());
}

/// A chunk with one more pair in it.
proof fn lemma_grown_chunk(old_arena: Seq<u8>, arena: Seq<u8>, end: Link, pair: (u32, u32))
    requires
        chunk_ok(old_arena, end),
        arena.len() == old_arena.len(),
        pairs_bytes(end.pairs).len() <= 50,
        ({
            let start = end.at + 4 + pairs_bytes(end.pairs).len();
            &&& arena.subrange(start, start + pair_bytes(pair).len()) == pair_bytes(pair)
            &&& forall|i: int|
                0 <= i < old_arena.len() && !(start <= i < start + pair_bytes(pair).len())
                    ==> #[trigger] arena[i] == old_arena[i]
        }),
    ensures
        chunk_ok(arena, Link { at: end.at, pairs: end.pairs.push(pair) }),
        pairs_bytes(end.pairs.push(pair)).len() == pairs_bytes(end.pairs).len() + pair_bytes(
            pair,
        ).len(),
{
    reveal(chunk_ok);
    let tail = end.at;
    let link = Link { at: end.at, pairs: end.pairs.push(pair) };
    let had = pairs_bytes(end.pairs).len() as int;
    let size = pair_bytes(pair).len() as int;
    let start = tail + 4 + had;
    let bytes = pairs_bytes(link.pairs);
    lemma_pair_len(pair);
    lemma_pairs_push(end.pairs, pair);
    assert(arena.subrange(tail + 4, tail + 4 + bytes.len()) =~= bytes) by {
        assert forall|i: int| 0 <= i < bytes.len() implies arena[tail + 4 + i] == bytes[i] by {
            if i < had {
                assert(old_arena.subrange(tail + 4, tail + 4 + had)[i] == pairs_bytes(
                    end.pairs,
                )[i]);
            } else {
                assert(arena.subrange(start, start + size)[i - had] == pair_bytes(pair)[i - had]);
            }
        }
    }
    assert forall|j: int| 0 <= j < link.pairs.len() implies pairs_bytes(
        #[trigger] link.pairs.take(j),
    ).len() <= 50 by {
        if j < end.pairs.len() {
            assert(link.pairs.take(j) =~= end.pairs.take(j));
        } else {
            assert(link.pairs.take(j) =~= end.pairs);
        }
    }
}

proof fn lemma_apart(chains: Seq<Seq<Link>>, i: int, k: int, j: int, l: int)
    requires
        apart(chains),
        0 <= i < chains.len(),
        0 <= k < chains[i].len(),
        0 <= j < chains.len(),
        0 <= l < chains[j].len(),
        i != j || k != l,
    ensures
        chains[i][k].at != chains[j][l].at,
{
    reveal(apart);
}

/// A chunk that is not in any chain added to one.
proof fn lemma_apart_push(chains: Seq<Seq<Link>>, at: int, link: Link)
    requires
        apart(chains),
        0 <= at < chains.len(),
        forall|i: int, k: int|
            0 <= i < chains.len() && 0 <= k < chains[i].len() ==> (#[trigger] chains[i][k]).at
                != link.at,
    ensures
        apart(chains.update(at, chains[at].push(link))),
{
    reveal(apart);
    let now = chains.update(at, chains[at].push(link));
    assert forall|i: int, k: int, j: int, l: int|
        0 <= i < now.len() && 0 <= k < now[i].len() && 0 <= j < now.len() && 0 <= l < now[j].len()
            && (#[trigger] now[i][k]).at == (#[trigger] now[j][l]).at implies i == j && k == l by {
        if k < chains[i].len() {
            assert(now[i][k] == chains[i][k]);
        }
        if l < chains[j].len() {
            assert(now[j][l] == chains[j][l]);
        }
    }
}

/// A chunk of a chain that holds something else where it was.
proof fn lemma_apart_update(chains: Seq<Seq<Link>>, at: int, k: int, link: Link)
    requires
        apart(chains),
        0 <= at < chains.len(),
        0 <= k < chains[at].len(),
        link.at == chains[at][k].at,
    ensures
        apart(chains.update(at, chains[at].update(k, link))),
{
    reveal(apart);
    let now = chains.update(at, chains[at].update(k, link));
    assert forall|i: int, k: int, j: int, l: int|
        0 <= i < now.len() && 0 <= k < now[i].len() && 0 <= j < now.len() && 0 <= l < now[j].len()
            && (#[trigger] now[i][k]).at == (#[trigger] now[j][l]).at implies i == j && k == l by {
        assert(now[i][k].at == chains[i][k].at);
        assert(now[j][l].at == chains[j][l].at);
    }
}

/// A chunk is as it was where nothing of it was written over.
proof fn lemma_frame(old_arena: Seq<u8>, arena: Seq<u8>, link: Link, lo: int, hi: int)
    requires
        chunk_ok(old_arena, link),
        old_arena.len() <= arena.len(),
        forall|i: int|
            0 <= i < old_arena.len() && !(lo <= i < hi) ==> #[trigger] arena[i] == old_arena[i],
        hi <= link.at + 4 || lo >= link.at + 4 + pairs_bytes(link.pairs).len(),
    ensures
        chunk_ok(arena, link),
        hi <= link.at || lo >= link.at + 4 ==> arena.subrange(link.at, link.at + 4)
            == old_arena.subrange(link.at, link.at + 4),
{
    reveal(chunk_ok);
    let n = pairs_bytes(link.pairs).len();
    assert(arena.subrange(link.at + 4, link.at + 4 + n) =~= old_arena.subrange(
        link.at + 4,
        link.at + 4 + n,
    ));
    if hi <= link.at || lo >= link.at + 4 {
        assert(arena.subrange(link.at, link.at + 4) =~= old_arena.subrange(link.at, link.at + 4));
    }
}

/// A chain of which no chunk was written over is as it was.
proof fn lemma_chain_frame(old_arena: Seq<u8>, arena: Seq<u8>, chain: Seq<Link>, at: int)
    requires
        chain_ok(old_arena, chain),
        old_arena.len() <= arena.len(),
        at % 64 == 0,
        forall|i: int|
            0 <= i < old_arena.len() && !(at <= i < at + 64) ==> #[trigger] arena[i]
                == old_arena[i],
        forall|k: int| 0 <= k < chain.len() ==> (#[trigger] chain[k]).at != at,
    ensures
        chain_ok(arena, chain),
{
    assert forall|k: int| 0 <= k < chain.len() implies chunk_ok(arena, #[trigger] chain[k]) by {
        lemma_chunk_bounds(old_arena, chain[k]);
        lemma_frame(old_arena, arena, chain[k], at, at + 64);
    }
    assert forall|k: int| 0 <= k < chain.len() - 1 implies pairs_bytes(
        (#[trigger] chain[k]).pairs,
    ).len() > 50 && le_value(arena.subrange(chain[k].at, chain[k].at + 4)) == chain[k + 1].at by {
        lemma_chunk_bounds(old_arena, chain[k]);
        lemma_frame(old_arena, arena, chain[k], at, at + 64);
    }
}

/// The chains are in the arena, no chunk of them in two places.
pub open spec fn heap_ok(arena: Seq<u8>, chains: Seq<Seq<Link>>) -> bool {
    &&& arena.len() % 64 == 0
    &&& apart(chains)
    &&& forall|id: int| 0 <= id < chains.len() ==> chain_ok(arena, #[trigger] chains[id])
}

/// Chains other than the one written to are as they were.
proof fn lemma_others(
    old_arena: Seq<u8>,
    arena: Seq<u8>,
    chains: Seq<Seq<Link>>,
    at: int,
    id: int,
)
    requires
        heap_ok(old_arena, chains),
        0 <= at < chains.len(),
        0 <= id < chains.len(),
        id != at,
        old_arena.len() <= arena.len(),
        forall|i: int|
            0 <= i < old_arena.len() && !(chains[at].last().at <= i < chains[at].last().at + 64)
                ==> #[trigger] arena[i] == old_arena[i],
    ensures
        chain_ok(arena, chains[id]),
{
    let tail = chains[at].last().at;
    let last = chains[at].len() - 1;
    assert(chain_ok(old_arena, chains[at]));
    lemma_chunk_bounds(old_arena, chains[at][last]);
    assert(chain_ok(old_arena, chains[id]));
    assert forall|k: int| 0 <= k < chains[id].len() implies (#[trigger] chains[id][k]).at
        != tail by {
        lemma_apart(chains, id, k, at, last);
    }
    lemma_chain_frame(old_arena, arena, chains[id], tail);
}

/// A chain of one new chunk.
proof fn lemma_heap_start(
    old_arena: Seq<u8>,
    arena: Seq<u8>,
    chains: Seq<Seq<Link>>,
    link: Link,
)
    requires
        heap_ok(old_arena, chains),
        arena.len() == old_arena.len() + 64,
        link.at == old_arena.len(),
        chunk_ok(arena, link),
        forall|i: int| 0 <= i < old_arena.len() ==> #[trigger] arena[i] == old_arena[i],
    ensures
        heap_ok(arena, chains.push(seq![link])),
{
    let now = chains.push(seq![link]);
    assert forall|i: int, k: int| 0 <= i < chains.len() && 0 <= k < chains[i].len() implies (
    #[trigger] chains[i][k]).at != link.at by {
        assert(chain_ok(old_arena, chains[i]));
        lemma_chunk_bounds(old_arena, chains[i][k]);
    }
    assert forall|id: int| 0 <= id < now.len() implies chain_ok(arena, #[trigger] now[id]) by {
        if id < chains.len() {
            assert(now[id] == chains[id]);
            assert forall|k: int| 0 <= k < chains[id].len() implies (
            #[trigger] chains[id][k]).at != link.at by {}
            lemma_chain_frame(old_arena, arena, chains[id], link.at);
        }
    }
    assert(apart(now)) by {
        reveal(apart);
        assert forall|i: int, k: int, j: int, l: int|
            0 <= i < now.len() && 0 <= k < now[i].len() && 0 <= j < now.len() && 0 <= l
                < now[j].len() && (#[trigger] now[i][k]).at == (#[trigger] now[j][l]).at implies i
            == j && k == l by {
            if i < chains.len() {
                assert(now[i][k] == chains[i][k]);
            }
            if j < chains.len() {
                assert(now[j][l] == chains[j][l]);
            }
        }
    }
}

/// A chain given another chunk, which the one before it now names.
proof fn lemma_heap_extend(
    old_arena: Seq<u8>,
    arena: Seq<u8>,
    chains: Seq<Seq<Link>>,
    at: int,
    next: u32,
)
    requires
        heap_ok(old_arena, chains),
        0 <= at < chains.len(),
        next == old_arena.len(),
        arena.len() == old_arena.len() + 64,
        pairs_bytes(chains[at].last().pairs).len() > 50,
        le_value(arena.subrange(chains[at].last().at, chains[at].last().at + 4)) == next,
        forall|i: int|
            0 <= i < old_arena.len() && !(chains[at].last().at <= i < chains[at].last().at + 4)
                ==> #[trigger] arena[i] == old_arena[i],
    ensures
        heap_ok(
            arena,
            chains.update(at, chains[at].push(Link { at: next as int, pairs: Seq::empty() })),
        ),
        flat(chains[at].push(Link { at: next as int, pairs: Seq::empty() })) == flat(chains[at]),
{
    let chain = chains[at];
    let end = chain.len() - 1;
    let tail = chain.last().at;
    let link = Link { at: next as int, pairs: Seq::empty() };
    let longer = chain.push(link);
    let now = chains.update(at, longer);
    assert(chain_ok(old_arena, chain));
    lemma_chunk_bounds(old_arena, chain[end]);
    lemma_new_chunk(arena, next as int);
    assert forall|k: int| 0 <= k < longer.len() implies chunk_ok(arena, #[trigger] longer[k]) by {
        if k < chain.len() {
            assert(longer[k] == chain[k]);
            lemma_chunk_bounds(old_arena, chain[k]);
            lemma_frame(old_arena, arena, chain[k], tail, tail + 4);
        }
    }
    assert forall|k: int| 0 <= k < longer.len() - 1 implies pairs_bytes(
        (#[trigger] longer[k]).pairs,
    ).len() > 50 && le_value(arena.subrange(longer[k].at, longer[k].at + 4)) == longer[k
        + 1].at by {
        assert(longer[k] == chain[k]);
        if k < end {
            assert(longer[k + 1] == chain[k + 1]);
            lemma_apart(chains, at, k, at, end);
            lemma_chunk_bounds(old_arena, chain[k]);
            lemma_frame(old_arena, arena, chain[k], tail, tail + 4);
        }
    }
    assert(chain_ok(arena, longer));
    assert forall|id: int| 0 <= id < now.len() implies chain_ok(arena, #[trigger] now[id]) by {
        if id != at {
            assert(now[id] == chains[id]);
            lemma_others(old_arena, arena, chains, at, id);
        }
    }
    assert forall|i: int, k: int| 0 <= i < chains.len() && 0 <= k < chains[i].len() implies (
    #[trigger] chains[i][k]).at != next by {
        assert(chain_ok(old_arena, chains[i]));
        lemma_chunk_bounds(old_arena, chains[i][k]);
    }
    lemma_apart_push(chains, at, link);
    assert(longer.drop_last() =~= chain);
    assert(flat(longer) =~= flat(chain));
}

/// A pair written after the others of a chain's last chunk.
#[verifier::rlimit(40)]
#[verifier::spinoff_prover]
proof fn lemma_heap_append(
    old_arena: Seq<u8>,
    arena: Seq<u8>,
    chains: Seq<Seq<Link>>,
    at: int,
    pair: (u32, u32),
)
    requires
        heap_ok(old_arena, chains),
        0 <= at < chains.len(),
        arena.len() == old_arena.len(),
        pairs_bytes(chains[at].last().pairs).len() <= 50,
        ({
            let start = chains[at].last().at + 4 + pairs_bytes(chains[at].last().pairs).len();
            &&& arena.subrange(start, start + pair_bytes(pair).len()) == pair_bytes(pair)
            &&& forall|i: int|
                0 <= i < old_arena.len() && !(start <= i < start + pair_bytes(pair).len())
                    ==> #[trigger] arena[i] == old_arena[i]
        }),
    ensures
        ({
            let chain = chains[at];
            let link = Link { at: chain.last().at, pairs: chain.last().pairs.push(pair) };
            let longer = chain.update(chain.len() - 1, link);
            &&& heap_ok(arena, chains.update(at, longer))
            &&& flat(longer) == flat(chain).push(pair)
            &&& pairs_bytes(link.pairs).len() == pairs_bytes(chain.last().pairs).len()
                + pair_bytes(pair).len()
        }),
{
    let chain = chains[at];
    let last = chain.len() - 1;
    let end = chain[last];
    let link = Link { at: end.at, pairs: end.pairs.push(pair) };
    let longer = chain.update(last, link);
    let now = chains.update(at, longer);
    let start = end.at + 4 + pairs_bytes(end.pairs).len();
    let size = pair_bytes(pair).len() as int;
    assert(chain_ok(old_arena, chain));
    lemma_chunk_bounds(old_arena, end);
    lemma_pair_len(pair);
    lemma_grown_chunk(old_arena, arena, end, pair);
    assert forall|k: int| 0 <= k < longer.len() implies chunk_ok(arena, #[trigger] longer[k]) by {
        if k < last {
            assert(longer[k] == chain[k]);
            lemma_apart(chains, at, k, at, last);
            lemma_chunk_bounds(old_arena, chain[k]);
            lemma_frame(old_arena, arena, chain[k], start, start + size);
        }
    }
    assert forall|k: int| 0 <= k < longer.len() - 1 implies pairs_bytes(
        (#[trigger] longer[k]).pairs,
    ).len() > 50 && le_value(arena.subrange(longer[k].at, longer[k].at + 4)) == longer[k
        + 1].at by {
        assert(longer[k] == chain[k]);
        assert(longer[k + 1].at == chain[k + 1].at);
        lemma_apart(chains, at, k, at, last);
        lemma_chunk_bounds(old_arena, chain[k]);
        lemma_frame(old_arena, arena, chain[k], start, start + size);
    }
    assert(chain_ok(arena, longer));
    assert forall|id: int| 0 <= id < now.len() implies chain_ok(arena, #[trigger] now[id]) by {
        if id != at {
            assert(now[id] == chains[id]);
            lemma_others(old_arena, arena, chains, at, id);
        }
    }
    lemma_apart_update(chains, at, last, link);
    assert(longer.drop_last() =~= chain.drop_last());
    assert(flat(longer) =~= flat(chain).push(pair));
}

/// Puts bytes into an arena.
fn write_at(arena: &mut Vec<u8>, start: usize, bytes: &Vec<u8>)
    requires
        start + bytes@.len() <= old(arena)@.len(),
    ensures
        final(arena)@.len() == old(arena)@.len(),
        final(arena)@.subrange(start as int, start + bytes@.len()) == bytes@,
        forall|i: int|
            0 <= i < old(arena)@.len() && !(start <= i < start + bytes@.len())
                ==> #[trigger] final(arena)@[i] == old(arena)@[i],
{
    let ghost before = arena@;
    let mut k: usize = 0;
    while k < bytes.len()
        invariant
            k <= bytes@.len(),
            start + bytes@.len() <= arena@.len(),
            arena@.len() == before.len(),
            forall|i: int| 0 <= i < k ==> arena@[start + i] == #[trigger] bytes@[i],
            forall|i: int|
                0 <= i < before.len() && !(start <= i < start + k) ==> #[trigger] arena@[i]
                    == before[i],
        decreases bytes.len() - k,
    {
        assert(start + k < arena.len());
        arena.set(start + k, bytes[k]);
        k = k + 1;
    }
    assert(arena@.subrange(start as int, start + bytes@.len()) =~= bytes@);
}

/// The term at a place is not among those before it.
pub open spec fn is_first(terms: Seq<Seq<u8>>, i: int) -> bool {
    !terms.take(i).contains(terms[i])
}

/// How many distinct terms among the first `n` of some are not among `names`.
pub open spec fn fresh(names: Seq<Seq<u8>>, terms: Seq<Seq<u8>>, n: int) -> nat
    decreases n,
{
    if n <= 0 {
        0
    } else if is_first(terms, n - 1) && !names.contains(terms[n - 1]) {
        fresh(names, terms, n - 1) + 1
    } else {
        fresh(names, terms, n - 1)
    }
}

/// How many bytes those take.
pub open spec fn fresh_bytes(names: Seq<Seq<u8>>, terms: Seq<Seq<u8>>, n: int) -> nat
    decreases n,
{
    if n <= 0 {
        0
    } else if is_first(terms, n - 1) && !names.contains(terms[n - 1]) {
        fresh_bytes(names, terms, n - 1) + terms[n - 1].len()
    } else {
        fresh_bytes(names, terms, n - 1)
    }
}

/// How many distinct terms among the first `n` of some are of a set.
pub open spec fn distinct_in(set: Set<Seq<u8>>, terms: Seq<Seq<u8>>, n: int) -> nat
    decreases n,
{
    if n <= 0 {
        0
    } else if is_first(terms, n - 1) && set.contains(terms[n - 1]) {
        distinct_in(set, terms, n - 1) + 1
    } else {
        distinct_in(set, terms, n - 1)
    }
}

pub proof fn lemma_fresh_grows(names: Seq<Seq<u8>>, terms: Seq<Seq<u8>>, n: int, m: int)
    requires
        0 <= n <= m,
    ensures
        fresh(names, terms, n) <= fresh(names, terms, m),
    decreases m - n,
{
    if n < m {
        lemma_fresh_grows(names, terms, n, m - 1);
    }
}

/// There are no more distinct terms than terms.
pub proof fn lemma_fresh_bound(
    names: Seq<Seq<u8>>,
    full: Set<Seq<u8>>,
    terms: Seq<Seq<u8>>,
    n: int,
)
    requires
        0 <= n <= terms.len(),
        forall|i: int| 0 <= i < terms.len() ==> (#[trigger] terms[i]).len() <= 255,
    ensures
        fresh(names, terms, n) <= n,
        fresh_bytes(names, terms, n) <= 255 * n,
        distinct_in(full, terms, n) <= n,
    decreases n,
{
    if n > 0 {
        lemma_fresh_bound(names, full, terms, n - 1);
        assert(terms[n - 1].len() <= 255);
    }
}

/// How many of the chains of some terms have no room in their last chunk.
pub open spec fn wanting(touched: Seq<u32>, used: Seq<u32>) -> nat
    decreases touched.len(),
{
    if touched.len() == 0 {
        0
    } else {
        wanting(touched.drop_last(), used) + if used[touched.last() as int] > 50 {
            1nat
        } else {
            0nat
        }
    }
}

pub proof fn lemma_wanting_same(touched: Seq<u32>, used: Seq<u32>, now: Seq<u32>)
    requires
        forall|k: int|
            0 <= k < touched.len() ==> used[(#[trigger] touched[k]) as int]
                == now[touched[k] as int],
    ensures
        wanting(touched, used) == wanting(touched, now),
    decreases touched.len(),
{
    if touched.len() > 0 {
        let rest = touched.drop_last();
        assert forall|k: int| 0 <= k < rest.len() implies used[(#[trigger] rest[k]) as int]
            == now[rest[k] as int] by {
            assert(rest[k] == touched[k]);
        }
        lemma_wanting_same(rest, used, now);
        assert(used[touched[touched.len() - 1] as int] == now[touched[touched.len() - 1] as int]);
    }
}

proof fn lemma_wanting_grows(touched: Seq<u32>, used: Seq<u32>, n: int)
    requires
        0 <= n <= touched.len(),
    ensures
        wanting(touched.take(n), used) <= wanting(touched, used),
    decreases touched.len(),
{
    if n == touched.len() {
        assert(touched.take(n) =~= touched);
    } else {
        lemma_wanting_grows(touched.drop_last(), used, n);
        assert(touched.drop_last().take(n) =~= touched.take(n));
    }
}

/// How many bytes of chunks can be addressed: where each starts is 32 bits.
pub const REACH: u64 = 0x1_0000_0000;

/// A vocabulary and one posting chain per term in it.
pub struct Accumulator {
    pub vocabulary: Vocabulary,
    pub arena: Vec<u8>,
    pub head: Vec<u32>,
    pub tail: Vec<u32>,
    pub used: Vec<u32>,
    pub documents: Vec<u32>,
    pub last: Vec<u32>,
    /// The document a term was last counted in, plus one.
    pub stamp: Vec<u32>,
    /// How often a term occurs in the document being counted.
    pub frequency: Vec<u32>,
    /// The terms counted in the document being counted, so that flushing does
    /// not have to walk the whole vocabulary.
    pub touched: Vec<u32>,
    pub scratch: Vec<u8>,
    /// The chunks of each term's chain.
    pub chains: Ghost<Seq<Seq<Link>>>,
}

impl Accumulator {
    /// The documents and frequencies of a term.
    pub open spec fn list(&self, id: int) -> Seq<(u32, u32)> {
        unfold(flat(self.chains@[id]))
    }

    /// The chains are where the arena says.
    pub open spec fn linked(&self) -> bool {
        let n = self.head@.len();
        &&& self.tail@.len() == n
        &&& self.used@.len() == n
        &&& self.documents@.len() == n
        &&& self.last@.len() == n
        &&& self.stamp@.len() == n
        &&& self.frequency@.len() == n
        &&& self.chains@.len() == n
        &&& heap_ok(self.arena@, self.chains@)
        &&& forall|id: int| 0 <= id < n ==> #[trigger] self.kept(id)
    }

    /// What is kept beside a term's chain is right.
    pub open spec fn kept(&self, id: int) -> bool {
        let chain = self.chains@[id];
        &&& self.head@[id] == chain[0].at
        &&& self.tail@[id] == chain.last().at
        &&& self.used@[id] == pairs_bytes(chain.last().pairs).len()
        &&& self.documents@[id] == flat(chain).len()
        &&& exact(flat(chain))
        &&& self.documents@[id] > 0 ==> self.last@[id] == self.list(id).last().0
    }

    pub open spec fn wf(&self) -> bool {
        &&& self.vocabulary.wf()
        &&& self.head@.len() == self.vocabulary@.len()
        &&& self.linked()
    }

    /// A term's chain has no room in its last chunk.
    pub open spec fn full_at(&self, term: Seq<u8>, id: int) -> bool {
        &&& 0 <= id < self.vocabulary@.len()
        &&& self.vocabulary@[id] == term
        &&& self.used@[id] > 50
    }

    /// The terms whose chains have no room in their last chunk.
    pub open spec fn full(&self) -> Set<Seq<u8>> {
        Set::new(|term: Seq<u8>| exists|id: int| #[trigger] self.full_at(term, id))
    }

    pub fn new() -> (accumulator: Self)
        ensures
            accumulator.wf(),
            accumulator.vocabulary@ == Seq::<Seq<u8>>::empty(),
            accumulator.touched@.len() == 0,
            accumulator.arena@.len() == 0,
            accumulator.vocabulary.arena@.len() == 0,
    {
        proof {
            reveal(apart);
        }
        Accumulator {
            vocabulary: Vocabulary::new(),
            arena: Vec::new(),
            head: Vec::new(),
            tail: Vec::new(),
            used: Vec::new(),
            documents: Vec::new(),
            last: Vec::new(),
            stamp: Vec::new(),
            frequency: Vec::new(),
            touched: Vec::new(),
            scratch: Vec::new(),
            chains: Ghost(Seq::empty()),
        }
    }

    /// Adds an empty chunk and returns where it starts.
    fn chunk(&mut self) -> (at: u32)
        requires
            old(self).arena@.len() <= u32::MAX,
        ensures
            at == old(self).arena@.len(),
            final(self).arena@.len() == old(self).arena@.len() + 64,
            final(self).arena@.subrange(0, at as int) == old(self).arena@,
            final(self).arena@.subrange(at as int, at + 4) == le_bytes(NONE as nat, 4),
            *final(self) == (Accumulator {
                arena: final(self).arena,
                scratch: final(self).scratch,
                ..*old(self)
            }),
    {
        let at: u32 = self.arena.len() as u32;
        let ghost before = self.arena@;
        let mut i: usize = 0;
        while i < CHUNK
            invariant
                i <= 64,
                self.arena@.len() == before.len() + i,
                forall|k: int| 0 <= k < before.len() ==> self.arena@[k] == before[k],
                *self == (Accumulator { arena: self.arena, ..*old(self) }),
            decreases 64 - i,
        {
            self.arena.push(0);
            i = i + 1;
        }
        self.scratch.clear();
        put_u32(&mut self.scratch, NONE);
        proof {
            lemma_le_bytes(NONE as nat, 4);
            assert(self.scratch@ =~= le_bytes(NONE as nat, 4));
        }
        write_at(&mut self.arena, at as usize, &self.scratch);
        assert(self.arena@.subrange(0, at as int) =~= before);
        at
    }

    /// Gives a new term an empty chain.
    fn start(&mut self)
        requires
            old(self).linked(),
            old(self).arena@.len() + 64 <= REACH,
        ensures
            final(self).linked(),
            final(self).head@.len() == old(self).head@.len() + 1,
            final(self).arena@.len() == old(self).arena@.len() + 64,
            final(self).vocabulary == old(self).vocabulary,
            final(self).touched == old(self).touched,
            forall|id: int|
                0 <= id < old(self).head@.len() ==> final(self).chains@[id] == #[trigger] old(
                    self,
                ).chains@[id],
            final(self).used@ == old(self).used@.push(0),
            final(self).documents@ == old(self).documents@.push(0),
            final(self).last@ == old(self).last@.push(0),
            final(self).stamp@ == old(self).stamp@.push(0),
            final(self).frequency@ == old(self).frequency@.push(0),
            flat(final(self).chains@[old(self).head@.len() as int]) == Seq::<(u32, u32)>::empty(),
    {
        let ghost was = *self;
        let chunk: u32 = self.chunk();
        self.head.push(chunk);
        self.tail.push(chunk);
        self.used.push(0);
        self.documents.push(0);
        self.last.push(0);
        self.stamp.push(0);
        self.frequency.push(0);
        let ghost link = Link { at: chunk as int, pairs: Seq::empty() };
        self.chains = Ghost(self.chains@.push(seq![link]));
        proof {
            let n = was.head@.len() as int;
            lemma_new_chunk(self.arena@, chunk as int);
            assert forall|i: int| 0 <= i < was.arena@.len() implies #[trigger] self.arena@[i]
                == was.arena@[i] by {
                assert(self.arena@.subrange(0, chunk as int)[i] == was.arena@[i]);
            }
            lemma_heap_start(was.arena@, self.arena@, was.chains@, link);
            reveal_with_fuel(flat, 2);
            assert(seq![link].drop_last() =~= Seq::<Link>::empty());
            assert(flat(seq![link]) =~= Seq::<(u32, u32)>::empty());
            assert forall|id: int| 0 <= id < self.head@.len() implies #[trigger] self.kept(id) by {
                if id < n {
                    assert(was.kept(id));
                    assert(self.chains@[id] == was.chains@[id]);
                }
            }
        }
    }

    /// Gives a term's chain another chunk, when the last one is full.
    fn extend(&mut self, at: usize)
        requires
            old(self).linked(),
            at < old(self).head@.len(),
            old(self).used@[at as int] > 50,
            old(self).arena@.len() + 64 <= REACH,
        ensures
            final(self).linked(),
            final(self).head@.len() == old(self).head@.len(),
            final(self).arena@.len() == old(self).arena@.len() + 64,
            final(self).used@[at as int] == 0,
            flat(final(self).chains@[at as int]) == flat(old(self).chains@[at as int]),
            forall|id: int|
                0 <= id < old(self).head@.len() && id != at ==> final(self).chains@[id]
                    == #[trigger] old(self).chains@[id],
            final(self).vocabulary == old(self).vocabulary,
            final(self).touched == old(self).touched,
            final(self).documents == old(self).documents,
            final(self).last == old(self).last,
            final(self).stamp == old(self).stamp,
            final(self).frequency == old(self).frequency,
    {
        let ghost was = *self;
        let ghost chain = self.chains@[at as int];
        proof {
            assert(was.kept(at as int));
            assert(chain_ok(was.arena@, chain));
            lemma_chunk_bounds(was.arena@, chain[chain.len() - 1]);
        }
        let next: u32 = self.chunk();
        let ghost grown = self.arena@;
        assert forall|i: int| 0 <= i < was.arena@.len() implies #[trigger] grown[i]
            == was.arena@[i] by {
            assert(grown.subrange(0, next as int)[i] == was.arena@[i]);
        }
        self.scratch.clear();
        put_u32(&mut self.scratch, next);
        proof {
            lemma_le_unfold(0);
            lemma_le_bytes(next as nat, 4);
            assert(self.scratch@ =~= le_bytes(next as nat, 4));
        }
        let tail: usize = self.tail[at] as usize;
        write_at(&mut self.arena, tail, &self.scratch);
        self.tail.set(at, next);
        self.used.set(at, 0);
        let ghost link = Link { at: next as int, pairs: Seq::empty() };
        self.chains = Ghost(self.chains@.update(at as int, chain.push(link)));
        proof {
            lemma_heap_extend(was.arena@, self.arena@, was.chains@, at as int, next);
            assert forall|id: int| 0 <= id < self.head@.len() implies #[trigger] self.kept(id) by {
                assert(was.kept(id));
                if id != at {
                    assert(self.chains@[id] == was.chains@[id]);
                }
            }
        }
    }

    /// Writes one document gap and frequency into a term's chain.
    fn append(&mut self, at: usize, gap: u32, frequency: u32, doc: u32)
        requires
            old(self).linked(),
            at < old(self).head@.len(),
            old(self).used@[at as int] > 50 ==> old(self).arena@.len() + 64 <= REACH,
            old(self).documents@[at as int] < u32::MAX,
            doc == if old(self).documents@[at as int] == 0 {
                gap as int
            } else {
                old(self).last@[at as int] + gap
            },
        ensures
            final(self).linked(),
            final(self).head@.len() == old(self).head@.len(),
            final(self).arena@.len() == old(self).arena@.len() + if old(self).used@[at as int] > 50 {
                64int
            } else {
                0
            },
            old(self).used@[at as int] > 50 ==> final(self).used@[at as int] <= 50,
            final(self).list(at as int) == old(self).list(at as int).push((doc, frequency)),
            forall|id: int|
                0 <= id < old(self).head@.len() && id != at ==> final(self).chains@[id]
                    == #[trigger] old(self).chains@[id],
            final(self).vocabulary == old(self).vocabulary,
            final(self).touched == old(self).touched,
            final(self).stamp == old(self).stamp,
            final(self).frequency == old(self).frequency,
    {
        let ghost entry = *self;
        proof {
            assert(entry.kept(at as int));
            assert(chain_ok(self.arena@, self.chains@[at as int]));
            let c = self.chains@[at as int];
            lemma_chunk_bounds(self.arena@, c[c.len() - 1]);
        }
        if self.used[at] as usize + MAX_PAIR > PAYLOAD {
            self.extend(at);
        }
        let ghost was = *self;
        let ghost chain = self.chains@[at as int];
        let ghost pair = (gap, frequency);
        proof {
            assert(was.kept(at as int));
            assert(chain_ok(was.arena@, chain));
            lemma_chunk_bounds(was.arena@, chain[chain.len() - 1]);
            assert(flat(chain) == flat(entry.chains@[at as int]));
            lemma_pair_len(pair);
        }
        self.scratch.clear();
        put_uvarint(&mut self.scratch, gap as u64);
        put_uvarint(&mut self.scratch, frequency as u64);
        assert(self.scratch@ =~= pair_bytes(pair));
        let start: usize = self.tail[at] as usize + LINK + self.used[at] as usize;
        write_at(&mut self.arena, start, &self.scratch);
        let taken: u32 = self.scratch.len() as u32;
        let used: u32 = self.used[at] + taken;
        self.used.set(at, used);
        let documents: u32 = self.documents[at] + 1;
        self.documents.set(at, documents);
        self.last.set(at, doc);
        let ghost link = Link { at: chain.last().at, pairs: chain.last().pairs.push(pair) };
        let ghost longer = chain.update(chain.len() - 1, link);
        self.chains = Ghost(self.chains@.update(at as int, longer));
        proof {
            lemma_heap_append(was.arena@, self.arena@, was.chains@, at as int, pair);
            lemma_unfold_len(flat(chain));
            assert(flat(longer).drop_last() =~= flat(chain));
            assert(self.list(at as int) =~= entry.list(at as int).push((doc, frequency)));
            assert forall|id: int| 0 <= id < self.head@.len() implies #[trigger] self.kept(id) by {
                assert(was.kept(id));
                if id != at {
                    assert(self.chains@[id] == was.chains@[id]);
                } else {
                    assert(longer[0].at == chain[0].at);
                    assert(longer.last() == link);
                }
            }
        }
    }

    /// The terms of the document being counted have been counted so far.
    pub open spec fn counted(&self, terms: Seq<Seq<u8>>, stamp: u32) -> bool {
        &&& forall|i: int|
            0 <= i < terms.len() ==> self.vocabulary@.contains(#[trigger] terms[i])
        &&& forall|id: int|
            0 <= id < self.vocabulary@.len() ==> {
                let often = occurrences(terms, #[trigger] self.vocabulary@[id]);
                &&& (self.stamp@[id] == stamp) == (often > 0)
                &&& often > 0 ==> self.frequency@[id] == often
            }
        &&& self.touched@.no_duplicates()
        &&& forall|k: int|
            0 <= k < self.touched@.len() ==> (#[trigger] self.touched@[k]) < self.vocabulary@.len()
                && self.stamp@[self.touched@[k] as int] == stamp
        &&& forall|id: int|
            0 <= id < self.vocabulary@.len() && #[trigger] self.stamp@[id] == stamp
                ==> self.touched@.contains(id as u32)
    }

    /// Counts one occurrence of a term in the document `stamp` names.
    pub fn count(&mut self, term: &[u8], stamp: u32, terms: Ghost<Seq<Seq<u8>>>)
        requires
            old(self).wf(),
            old(self).counted(terms@, stamp),
            old(self).vocabulary@.contains(term@) || (old(self).arena@.len() + 64 <= REACH && old(
                self,
            ).vocabulary.room(term@.len())),
            terms@.len() < u32::MAX,
            stamp > 0,
        ensures
            final(self).wf(),
            final(self).counted(terms@.push(term@), stamp),
            if old(self).vocabulary@.contains(term@) {
                &&& final(self).arena@.len() == old(self).arena@.len()
                &&& final(self).vocabulary@ == old(self).vocabulary@
                &&& final(self).vocabulary.arena@.len() == old(self).vocabulary.arena@.len()
                &&& final(self).used@ == old(self).used@
            } else {
                &&& final(self).arena@.len() == old(self).arena@.len() + 64
                &&& final(self).vocabulary@ == old(self).vocabulary@.push(term@)
                &&& final(self).vocabulary.arena@.len() == old(self).vocabulary.arena@.len()
                    + term@.len()
                &&& final(self).used@ == old(self).used@.push(0)
            },
            if terms@.contains(term@) {
                final(self).touched@ == old(self).touched@
            } else {
                &&& final(self).touched@.len() == old(self).touched@.len() + 1
                &&& final(self).touched@.drop_last() == old(self).touched@
                &&& final(self).touched@.last() < final(self).vocabulary@.len()
                &&& final(self).vocabulary@[final(self).touched@.last() as int] == term@
            },
            forall|id: int|
                0 <= id < old(self).vocabulary@.len() ==> {
                    &&& final(self).vocabulary@[id] == #[trigger] old(self).vocabulary@[id]
                    &&& final(self).chains@[id] == old(self).chains@[id]
                    &&& final(self).documents@[id] == old(self).documents@[id]
                    &&& final(self).last@[id] == old(self).last@[id]
                    &&& final(self).stamp@[id] == old(self).stamp@[id] || final(self).stamp@[id]
                        == stamp
                },
            forall|id: int|
                old(self).vocabulary@.len() <= id < final(self).vocabulary@.len() ==> {
                    &&& #[trigger] final(self).list(id) == Seq::<(u32, u32)>::empty()
                    &&& final(self).documents@[id] == 0
                    &&& final(self).vocabulary@[id] == term@
                    &&& final(self).stamp@[id] == stamp
                },
            final(self).vocabulary@.contains(term@),
    {
        let ghost was = *self;
        let ghost names = self.vocabulary@;
        proof {
            if terms@.contains(term@) {
                let i = terms@.index_of(term@);
                assert(names.contains(terms@[i]));
                lemma_occurrences_bound(terms@, term@);
            }
        }
        let id: u32 = self.vocabulary.intern(term);
        let at: usize = id as usize;
        proof {
            assert forall|k: int| 0 <= k < self.head@.len() implies #[trigger] self.kept(k) by {
                assert(was.kept(k));
            }
            assert(self.linked());
        }
        if at == self.head.len() {
            self.start();
        }
        let ghost between = *self;
        proof {
            assert(self.vocabulary@[at as int] == term@);
            assert forall|k: int| 0 <= k < names.len() implies self.vocabulary@[k] == names[k] by {}
            lemma_occurrences_push(terms@, term@);
            lemma_occurrences_bound(terms@, term@);
            if at < names.len() {
                assert(names[at as int] == term@);
            } else {
                lemma_occurrences_absent(terms@, term@, names);
            }
        }
        if self.stamp[at] == stamp {
            let more: u32 = self.frequency[at] + 1;
            self.frequency.set(at, more);
        } else {
            self.stamp.set(at, stamp);
            self.frequency.set(at, 1);
            self.touched.push(id);
        }
        proof {
            assert forall|k: int| 0 <= k < self.head@.len() implies #[trigger] self.kept(k) by {
                assert(between.kept(k));
            }
            assert(self.linked());
            let longer = terms@.push(term@);
            assert forall|i: int| 0 <= i < longer.len() implies self.vocabulary@.contains(
                #[trigger] longer[i],
            ) by {
                if i < terms@.len() {
                    assert(names.contains(terms@[i]));
                    let k = names.index_of(terms@[i]);
                    assert(self.vocabulary@[k] == terms@[i]);
                } else {
                    assert(self.vocabulary@[at as int] == term@);
                }
            }
            assert forall|k: int| 0 <= k < self.vocabulary@.len() implies {
                let often = occurrences(longer, #[trigger] self.vocabulary@[k]);
                &&& (self.stamp@[k] == stamp) == (often > 0)
                &&& often > 0 ==> self.frequency@[k] == often
            } by {
                lemma_occurrences_step(terms@, term@, self.vocabulary@[k]);
                if k != at {
                    assert(self.vocabulary@[k] != self.vocabulary@[at as int]);
                    assert(k < names.len());
                    assert(was.vocabulary@[k] == self.vocabulary@[k]);
                }
            }
            assert forall|k: int| 0 <= k < self.touched@.len() implies (
            #[trigger] self.touched@[k]) < self.vocabulary@.len() && self.stamp@[self.touched@[k] as int]
                == stamp by {
                if k < was.touched@.len() {
                    assert(was.touched@[k] < names.len());
                }
            }
            assert(self.touched@.no_duplicates()) by {
                if self.touched@.len() > was.touched@.len() {
                    assert forall|a: int, b: int|
                        0 <= a < b < self.touched@.len() implies self.touched@[a]
                        != self.touched@[b] by {
                        if b == was.touched@.len() {
                            assert(was.touched@[a] < names.len());
                            assert(was.stamp@[was.touched@[a] as int] == stamp);
                        }
                    }
                }
            }
            assert forall|k: int|
                0 <= k < self.vocabulary@.len() && #[trigger] self.stamp@[k] == stamp implies self.touched@.contains(
            k as u32) by {
                if k == at && between.stamp@[at as int] != stamp {
                    assert(self.touched@[was.touched@.len() as int] == id);
                } else {
                    assert(k < names.len());
                    assert(was.stamp@[k] == stamp);
                    let j = was.touched@.index_of(k as u32);
                    assert(was.touched@.contains(k as u32));
                    assert(self.touched@[j] == k as u32);
                }
            }
        }
    }

    /// Appends everything counted for `doc` to the chains it belongs to.
    pub fn flush(&mut self, doc: u32, stamp: u32, terms: Ghost<Seq<Seq<u8>>>)
        requires
            old(self).wf(),
            old(self).counted(terms@, stamp),
            old(self).arena@.len() + 64 * wanting(old(self).touched@, old(self).used@) <= REACH,
            doc < u32::MAX,
            forall|id: int|
                0 <= id < old(self).vocabulary@.len() ==> #[trigger] old(self).documents@[id] <= doc
                    && (old(self).documents@[id] > 0 ==> old(self).last@[id] < doc),
        ensures
            final(self).wf(),
            final(self).vocabulary == old(self).vocabulary,
            final(self).stamp == old(self).stamp,
            final(self).touched@.len() == 0,
            final(self).arena@.len() == old(self).arena@.len() + 64 * wanting(
                old(self).touched@,
                old(self).used@,
            ),
            forall|id: int|
                0 <= id < old(self).vocabulary@.len() ==> {
                    let often = occurrences(terms@, old(self).vocabulary@[id]);
                    &&& often == 0 ==> #[trigger] final(self).used@[id] == old(self).used@[id]
                    &&& often > 0 && old(self).used@[id] > 50 ==> final(self).used@[id] <= 50
                },
            forall|id: int|
                0 <= id < old(self).vocabulary@.len() ==> #[trigger] final(self).list(id) == if occurrences(
                    terms@,
                    old(self).vocabulary@[id],
                ) > 0 {
                    old(self).list(id).push(
                        (doc, occurrences(terms@, old(self).vocabulary@[id]) as u32),
                    )
                } else {
                    old(self).list(id)
                },
    {
        let ghost was = *self;
        let mut index: usize = 0;
        while index < self.touched.len()
            invariant
                index <= self.touched@.len(),
                was.wf(),
                was.counted(terms@, stamp),
                self.linked(),
                self.vocabulary == was.vocabulary,
                self.head@.len() == was.head@.len(),
                self.touched == was.touched,
                self.stamp == was.stamp,
                self.frequency == was.frequency,
                self.arena@.len() == was.arena@.len() + 64 * wanting(
                    was.touched@.take(index as int),
                    was.used@,
                ),
                was.arena@.len() + 64 * wanting(was.touched@, was.used@) <= REACH,
                forall|id: int|
                    0 <= id < was.vocabulary@.len() && was.touched@.take(index as int).contains(
                        id as u32,
                    ) && was.used@[id] > 50 ==> #[trigger] self.used@[id] <= 50,
                doc < u32::MAX,
                forall|id: int|
                    0 <= id < was.vocabulary@.len() ==> #[trigger] was.documents@[id] <= doc && (
                    was.documents@[id] > 0 ==> was.last@[id] < doc),
                forall|id: int|
                    0 <= id < was.vocabulary@.len() && was.touched@.take(index as int).contains(
                        id as u32,
                    ) ==> #[trigger] self.list(id) == was.list(id).push(
                        (doc, was.frequency@[id]),
                    ),
                forall|id: int|
                    0 <= id < was.vocabulary@.len() && !was.touched@.take(index as int).contains(
                        id as u32,
                    ) ==> #[trigger] self.chains@[id] == was.chains@[id],
            decreases self.touched.len() - index,
        {
            let id: u32 = self.touched[index];
            let at: usize = id as usize;
            let ghost before = *self;
            let ghost done = was.touched@.take(index as int);
            proof {
                assert(was.touched@[index as int] < was.vocabulary@.len());
                assert(!done.contains(id)) by {
                    if done.contains(id) {
                        let k = done.index_of(id);
                        assert(was.touched@[k] == was.touched@[index as int]);
                    }
                }
                assert(self.chains@[at as int] == was.chains@[at as int]);
                assert(self.kept(at as int));
                assert(was.kept(at as int));
                assert(was.documents@[at as int] <= doc);
                lemma_unfold_len(flat(self.chains@[at as int]));
                let more = was.touched@.take(index + 1);
                assert(more.drop_last() =~= done);
                lemma_wanting_grows(was.touched@, was.used@, index + 1);
            }
            let gap: u32 = if self.documents[at] == 0 {
                doc
            } else {
                doc - self.last[at]
            };
            let often: u32 = self.frequency[at];
            self.append(at, gap, often, doc);
            proof {
                let more = was.touched@.take(index + 1);
                assert(more =~= done.push(id));
                assert forall|k: int|
                    0 <= k < was.vocabulary@.len() && more.contains(k as u32) && was.used@[k]
                        > 50 implies #[trigger] self.used@[k] <= 50 by {
                    if k != at {
                        let j = more.index_of(k as u32);
                        assert(done[j] == k as u32);
                        assert(before.kept(k));
                        assert(self.kept(k));
                        assert(self.chains@[k] == before.chains@[k]);
                    }
                }
                assert forall|k: int|
                    0 <= k < was.vocabulary@.len() && more.contains(
                        k as u32,
                    ) implies #[trigger] self.list(k) == was.list(k).push(
                    (doc, was.frequency@[k]),
                ) by {
                    if k != at {
                        let j = more.index_of(k as u32);
                        assert(done[j] == k as u32);
                        assert(self.chains@[k] == before.chains@[k]);
                        assert(self.list(k) == before.list(k));
                    }
                }
                assert forall|k: int|
                    0 <= k < was.vocabulary@.len() && !more.contains(
                        k as u32,
                    ) implies #[trigger] self.chains@[k] == was.chains@[k] by {
                    assert(!done.contains(k as u32)) by {
                        if done.contains(k as u32) {
                            let j = done.index_of(k as u32);
                            assert(more[j] == k as u32);
                        }
                    }
                    assert(more[index as int] == id);
                    assert(k != at);
                    assert(before.chains@[k] == was.chains@[k]);
                    assert(self.chains@[k] == before.chains@[k]);
                }
            }
            index = index + 1;
        }
        proof {
            assert(was.touched@.take(index as int) =~= was.touched@);
            assert forall|id: int| 0 <= id < was.vocabulary@.len() implies {
                let often = occurrences(terms@, was.vocabulary@[id]);
                &&& often == 0 ==> #[trigger] self.used@[id] == was.used@[id]
                &&& often > 0 && was.used@[id] > 50 ==> self.used@[id] <= 50
            } by {
                if occurrences(terms@, was.vocabulary@[id]) > 0 {
                    assert(was.stamp@[id] == stamp);
                    assert(was.touched@.contains(id as u32));
                } else {
                    assert(!was.touched@.contains(id as u32)) by {
                        if was.touched@.contains(id as u32) {
                            let k = was.touched@.index_of(id as u32);
                            assert(was.touched@[k] < was.vocabulary@.len());
                        }
                    }
                    assert(self.chains@[id] == was.chains@[id]);
                    assert(self.kept(id));
                    assert(was.kept(id));
                }
            }
            assert forall|id: int| 0 <= id < was.vocabulary@.len() implies #[trigger] self.list(id)
                == if occurrences(terms@, was.vocabulary@[id]) > 0 {
                was.list(id).push((doc, occurrences(terms@, was.vocabulary@[id]) as u32))
            } else {
                was.list(id)
            } by {
                let often = occurrences(terms@, was.vocabulary@[id]);
                if often > 0 {
                    assert(was.stamp@[id] == stamp);
                    assert(was.touched@.contains(id as u32));
                } else {
                    assert(!was.touched@.contains(id as u32)) by {
                        if was.touched@.contains(id as u32) {
                            let k = was.touched@.index_of(id as u32);
                            assert(was.touched@[k] < was.vocabulary@.len());
                        }
                    }
                    assert(self.chains@[id] == was.chains@[id]);
                }
            }
        }
        let ghost finished = *self;
        self.touched.clear();
        proof {
            assert forall|k: int| 0 <= k < self.head@.len() implies #[trigger] self.kept(k) by {
                assert(finished.kept(k));
            }
            assert forall|k: int| 0 <= k < self.head@.len() implies #[trigger] self.list(k)
                == finished.list(k) by {}
        }
    }

    /// Walks a term's chain onto a list, shifting every document by `base`.
    ///
    /// The shift is what lets a part that numbered its documents from zero sit
    /// after another part in one segment. Reports [`Error::Overflow`] if a
    /// shifted document is past what an identifier can name.
    pub fn walk(&self, id: u32, base: u32, list: &mut Vec<(u32, u32)>) -> (walked: Result<()>)
        requires
            self.wf(),
            id < self.vocabulary@.len(),
        ensures
            (forall|i: int|
                0 <= i < self.list(id as int).len() ==> (#[trigger] self.list(id as int)[i]).0 + base
                    <= u32::MAX) ==> walked is Ok && final(list)@ == old(list)@ + shifted(
                self.list(id as int),
                base,
            ),
            (exists|i: int|
                0 <= i < self.list(id as int).len() && (#[trigger] self.list(id as int)[i]).0 + base
                    > u32::MAX) ==> (walked matches Err(e) && e == Error::Overflow),
    {
        let ghost chain = self.chains@[id as int];
        let ghost pairs = flat(chain);
        let ghost whole = self.list(id as int);
        let ghost before = list@;
        proof {
            assert(self.kept(id as int));
            assert(chain_ok(self.arena@, chain));
            lemma_unfold_len(pairs);
            lemma_flat_from(chain, 0);
            assert(chain.skip(0) =~= chain);
            assert(pairs.skip(0) =~= pairs);
            assert(chain[0].pairs.take(0) =~= Seq::<(u32, u32)>::empty());
            assert(chain[0].pairs.skip(0) =~= chain[0].pairs);
            assert(shifted(whole, base).take(0) =~= Seq::<(u32, u32)>::empty());
        }
        let at: usize = id as usize;
        let mut chunk: usize = self.head[at] as usize;
        let mut offset: usize = 0;
        let mut doc: u32 = 0;
        let mut index: u32 = 0;
        let ghost mut c: int = 0;
        let ghost mut j: int = 0;
        while index < self.documents[at]
            invariant
                self.wf(),
                id < self.vocabulary@.len(),
                at == id,
                chain == self.chains@[id as int],
                chain_ok(self.arena@, chain),
                pairs == flat(chain),
                exact(pairs),
                whole == self.list(id as int),
                whole == unfold(pairs),
                whole.len() == pairs.len(),
                self.documents@[at as int] == pairs.len(),
                index <= pairs.len(),
                0 <= c < chain.len(),
                0 <= j <= chain[c].pairs.len(),
                chunk == chain[c].at,
                offset <= 60,
                offset == pairs_bytes(chain[c].pairs.take(j)).len(),
                pairs.skip(index as int) == chain[c].pairs.skip(j) + from(chain, c + 1),
                index > 0 ==> doc == whole[index - 1].0,
                list@ == before + shifted(whole, base).take(index as int),
                forall|i: int| 0 <= i < index ==> (#[trigger] whole[i]).0 + base <= u32::MAX,
            decreases pairs.len() - index,
        {
            proof {
                lemma_chain_place(self.arena@, chain, c, j, pairs.skip(index as int));
            }
            if offset + MAX_PAIR > PAYLOAD {
                chunk = next_chunk(&self.arena, chunk, Ghost(chain), Ghost(c));
                offset = 0;
                proof {
                    c = c + 1;
                    j = 0;
                    assert(chain[c].pairs.take(0) =~= Seq::<(u32, u32)>::empty());
                    lemma_chain_place(self.arena@, chain, c, j, pairs.skip(index as int));
                }
            }
            let (gap, frequency, next) = read_pair(
                &self.arena,
                chunk,
                offset,
                Ghost(chain[c]),
                Ghost(j),
            );
            offset = next;
            proof {
                lemma_walk_step(pairs, index as int);
                assert(pairs.skip(index as int)[0] == pairs[index as int]);
                assert(chain[c].pairs.skip(j)[0] == chain[c].pairs[j]);
                assert(pairs[index as int] == (gap, frequency));
            }
            doc = if index == 0 {
                gap
            } else {
                doc + gap
            };
            assert(doc == whole[index as int].0);
            if doc > u32::MAX - base {
                assert(whole[index as int].0 + base > u32::MAX);
                return Err(Error::Overflow);
            }
            list.push((doc + base, frequency));
            proof {
                assert(shifted(whole, base).take(index + 1) =~= shifted(whole, base).take(
                    index as int,
                ).push(((whole[index as int].0 + base) as u32, whole[index as int].1)));
                assert(pairs.skip(index + 1) =~= pairs.skip(index as int).skip(1));
                assert(chain[c].pairs.skip(j + 1) =~= chain[c].pairs.skip(j).skip(1));
                assert(pairs.skip(index + 1) =~= chain[c].pairs.skip(j + 1) + from(chain, c + 1));
                j = j + 1;
            }
            index = index + 1;
        }
        assert(shifted(whole, base).take(index as int) =~= shifted(whole, base));
        Ok(())
    }
}

/// Where the chunk after chunk `c` of a chain is.
fn next_chunk(arena: &Vec<u8>, chunk: usize, chain: Ghost<Seq<Link>>, c: Ghost<int>) -> (next:
    usize)
    requires
        chain_ok(arena@, chain@),
        0 <= c@ < chain@.len() - 1,
        chunk == chain@[c@].at,
    ensures
        next == chain@[c@ + 1].at,
{
    proof {
        lemma_chunk_bounds(arena@, chain@[c@]);
        lemma_chunk_bounds(arena@, chain@[c@ + 1]);
        assert(le_value(arena@.subrange(chain@[c@].at, chain@[c@].at + 4)) == chain@[c@ + 1].at);
    }
    assert(chunk + 64 <= arena.len());
    let link = vstd::slice::slice_subrange(arena.as_slice(), chunk, chunk + LINK);
    match crate::codec::get_u32(link) {
        Ok((next, _)) => {
            assert(link@.take(4) =~= link@);
            next as usize
        },
        Err(_) => {
            assert(false);
            0
        },
    }
}

/// Reads pair `j` of a chunk, `offset` bytes into what it holds, and says how
/// far it ends.
fn read_pair(arena: &Vec<u8>, chunk: usize, offset: usize, link: Ghost<Link>, j: Ghost<int>) -> (
    read: (u32, u32, usize))
    requires
        chunk_ok(arena@, link@),
        0 <= j@ < link@.pairs.len(),
        chunk == link@.at,
        offset == pairs_bytes(link@.pairs.take(j@)).len(),
    ensures
        (read.0, read.1) == link@.pairs[j@],
        read.2 == pairs_bytes(link@.pairs.take(j@ + 1)).len(),
        read.2 <= 60,
{
    let ghost pair = link@.pairs[j@];
    proof {
        lemma_chunk_bounds(arena@, link@);
        lemma_chunk_rest(arena@, link@, j@);
        lemma_pair_len(pair);
        lemma_pairs_push(link@.pairs.take(j@), pair);
        assert(link@.pairs.take(j@ + 1) =~= link@.pairs.take(j@).push(pair));
    }
    assert(chunk + 64 <= arena.len());
    let start: usize = chunk + LINK + offset;
    let bytes = vstd::slice::slice_subrange(arena.as_slice(), start, chunk + CHUNK);
    let ghost tail = choose|tail: Seq<u8>|
        bytes@ == uvarint_bytes(pair.0 as nat) + (#[trigger] (uvarint_bytes(pair.1 as nat)
            + tail));
    proof {
        law_uvarint_round_trip(pair.0 as u64, uvarint_bytes(pair.1 as nat) + tail);
        law_uvarint_round_trip(pair.1 as u64, tail);
    }
    match get_uvarint(bytes) {
        Ok((gap, rest)) => match get_uvarint(rest) {
            Ok((frequency, rest)) => {
                assert(rest@ == tail);
                (gap as u32, frequency as u32, PAYLOAD - rest.len())
            },
            Err(_) => {
                assert(false);
                (0, 0, 0)
            },
        },
        Err(_) => {
            assert(false);
            (0, 0, 0)
        },
    }
}

/// Where a walk that has pairs left stands: at a pair, or at the end of a full
/// chunk that another follows.
proof fn lemma_chain_place(
    arena: Seq<u8>,
    chain: Seq<Link>,
    c: int,
    j: int,
    left: Seq<(u32, u32)>,
)
    requires
        chain_ok(arena, chain),
        0 <= c < chain.len(),
        0 <= j <= chain[c].pairs.len(),
        left == chain[c].pairs.skip(j) + from(chain, c + 1),
        left.len() > 0,
    ensures
        pairs_bytes(chain[c].pairs.take(j)).len() <= 50 ==> j < chain[c].pairs.len(),
        pairs_bytes(chain[c].pairs.take(j)).len() > 50 ==> c + 1 < chain.len() && left
            == chain[c + 1].pairs.skip(0) + from(chain, c + 2) && (pairs_bytes(
            chain[c + 1].pairs.take(0),
        ).len() == 0),
{
    if pairs_bytes(chain[c].pairs.take(j)).len() > 50 {
        lemma_chunk_prefix(arena, chain[c], j);
    }
    if j == chain[c].pairs.len() {
        assert(chain[c].pairs.take(j) =~= chain[c].pairs);
        assert(chain[c].pairs.skip(j) =~= Seq::<(u32, u32)>::empty());
        if c + 1 < chain.len() {
            assert(pairs_bytes(chain[c].pairs).len() > 50);
            lemma_from_step(chain, c + 1);
            assert(chain[c + 1].pairs.skip(0) =~= chain[c + 1].pairs);
            assert(chain[c + 1].pairs.take(0) =~= Seq::<(u32, u32)>::empty());
            assert(left =~= chain[c + 1].pairs.skip(0) + from(chain, c + 2));
        } else {
            assert(from(chain, c + 1) =~= Seq::<(u32, u32)>::empty());
        }
    }
}

/// The next document is as far on as the gap says.
proof fn lemma_walk_step(pairs: Seq<(u32, u32)>, i: int)
    requires
        0 <= i < pairs.len(),
        exact(pairs),
    ensures
        unfold(pairs).len() == pairs.len(),
        unfold(pairs)[i].1 == pairs[i].1,
        unfold(pairs)[i].0 == if i == 0 {
            pairs[i].0 as int
        } else {
            unfold(pairs)[i - 1].0 + pairs[i].0
        },
{
    lemma_unfold_len(pairs);
    lemma_exact_take(pairs, i + 1);
    lemma_unfold_take(pairs, i);
    lemma_unfold_take(pairs, i + 1);
    let taken = pairs.take(i + 1);
    assert(taken.drop_last() =~= pairs.take(i));
    lemma_unfold_len(pairs.take(i));
    assert(unfold(pairs).take(i + 1)[i] == unfold(pairs)[i]);
    if i > 0 {
        assert(unfold(pairs).take(i).last() == unfold(pairs)[i - 1]);
    }
}

/// How often a term occurs in a document.
pub open spec fn occurrences(terms: Seq<Seq<u8>>, term: Seq<u8>) -> nat
    decreases terms.len(),
{
    if terms.len() == 0 {
        0
    } else {
        occurrences(terms.drop_last(), term) + if terms.last() == term {
            1nat
        } else {
            0nat
        }
    }
}

/// Every document of a list moved on by `base`.
pub open spec fn shifted(list: Seq<(u32, u32)>, base: u32) -> Seq<(u32, u32)> {
    list.map_values(|posting: (u32, u32)| ((posting.0 + base) as u32, posting.1))
}

proof fn lemma_occurrences_push(terms: Seq<Seq<u8>>, term: Seq<u8>)
    ensures
        occurrences(terms.push(term), term) == occurrences(terms, term) + 1,
{
    assert(terms.push(term).drop_last() =~= terms);
}

proof fn lemma_occurrences_step(terms: Seq<Seq<u8>>, term: Seq<u8>, other: Seq<u8>)
    ensures
        occurrences(terms.push(term), other) == occurrences(terms, other) + if term == other {
            1nat
        } else {
            0nat
        },
{
    assert(terms.push(term).drop_last() =~= terms);
}

pub proof fn lemma_occurrences_bound(terms: Seq<Seq<u8>>, term: Seq<u8>)
    ensures
        occurrences(terms, term) <= terms.len(),
        occurrences(terms, term) > 0 <==> terms.contains(term),
    decreases terms.len(),
{
    if terms.len() > 0 {
        let rest = terms.drop_last();
        lemma_occurrences_bound(rest, term);
        if terms.contains(term) {
            let k = terms.index_of(term);
            if k < rest.len() {
                assert(rest[k] == term);
            }
        }
        if rest.contains(term) {
            let k = rest.index_of(term);
            assert(terms[k] == term);
        }
        if terms.last() == term {
            assert(terms[terms.len() - 1] == term);
        }
    }
}

/// A term that is not in a vocabulary does not occur in a document that is.
proof fn lemma_occurrences_absent(terms: Seq<Seq<u8>>, term: Seq<u8>, names: Seq<Seq<u8>>)
    requires
        !names.contains(term),
        forall|i: int| 0 <= i < terms.len() ==> names.contains(#[trigger] terms[i]),
    ensures
        occurrences(terms, term) == 0,
{
    lemma_occurrences_bound(terms, term);
    if terms.contains(term) {
        let k = terms.index_of(term);
        assert(names.contains(terms[k]));
    }
}

/// The pairs of a chain from chunk `c` on.
pub open spec fn from(chain: Seq<Link>, c: int) -> Seq<(u32, u32)>
    decreases chain.len() - c,
{
    if c < 0 || c >= chain.len() {
        Seq::empty()
    } else {
        chain[c].pairs + from(chain, c + 1)
    }
}

proof fn lemma_from_step(chain: Seq<Link>, c: int)
    requires
        0 <= c < chain.len(),
    ensures
        from(chain, c) == chain[c].pairs + from(chain, c + 1),
{
}

proof fn lemma_flat_from(chain: Seq<Link>, c: int)
    requires
        0 <= c <= chain.len(),
    ensures
        flat(chain) == flat(chain.take(c)) + from(chain, c),
        c == 0 ==> flat(chain) == from(chain, 0),
    decreases chain.len() - c,
{
    if c == chain.len() {
        assert(chain.take(c) =~= chain);
        assert(flat(chain) =~= flat(chain.take(c)) + from(chain, c));
    } else {
        lemma_flat_from(chain, c + 1);
        let taken = chain.take(c + 1);
        assert(taken.drop_last() =~= chain.take(c));
        assert(taken.last() == chain[c]);
        assert(flat(chain) =~= flat(chain.take(c)) + from(chain, c));
    }
    if c == 0 {
        assert(chain.take(0) =~= Seq::<Link>::empty());
        assert(flat(chain) =~= from(chain, 0));
    }
}

/// Before the last pair of a chunk there is room for another.
proof fn lemma_chunk_prefix(arena: Seq<u8>, link: Link, j: int)
    requires
        chunk_ok(arena, link),
        0 <= j <= link.pairs.len(),
        pairs_bytes(link.pairs.take(j)).len() > 50,
    ensures
        j == link.pairs.len(),
{
    reveal(chunk_ok);
}

/// What a chunk holds from pair `j` on starts with that pair.
proof fn lemma_chunk_rest(arena: Seq<u8>, link: Link, j: int)
    requires
        chunk_ok(arena, link),
        0 <= j < link.pairs.len(),
    ensures
        ({
            let start = link.at + 4 + pairs_bytes(link.pairs.take(j)).len();
            &&& start + pair_bytes(link.pairs[j]).len() <= link.at + 64
            &&& exists|tail: Seq<u8>|
                arena.subrange(start, link.at + 64) == uvarint_bytes(link.pairs[j].0 as nat) + (
                #[trigger] (uvarint_bytes(link.pairs[j].1 as nat) + tail))
        }),
{
    reveal(chunk_ok);
    let pairs = link.pairs;
    let bytes = pairs_bytes(pairs);
    lemma_pairs_split(pairs, j);
    let rest = pairs.skip(j);
    assert(rest[0] == pairs[j]);
    let taken = pairs_bytes(pairs.take(j)).len() as int;
    let start = link.at + 4 + taken;
    let pair = pair_bytes(pairs[j]);
    assert(bytes =~= pairs_bytes(pairs.take(j)) + (pair + pairs_bytes(rest.skip(1))));
    let tail = arena.subrange(start + pair.len(), link.at + 64);
    assert(arena.subrange(start, link.at + 64) =~= uvarint_bytes(pairs[j].0 as nat) + (
    uvarint_bytes(pairs[j].1 as nat) + tail)) by {
        assert forall|i: int| 0 <= i < pair.len() implies arena[start + i] == pair[i] by {
            assert(arena.subrange(link.at + 4, link.at + 4 + bytes.len())[taken + i] == bytes[taken
                + i]);
            assert(bytes[taken + i] == (pair + pairs_bytes(rest.skip(1)))[i]);
        }
        assert(arena.subrange(start, link.at + 64) =~= pair + tail);
    }
}

} // verus!

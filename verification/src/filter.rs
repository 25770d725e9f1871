//! A small set that says no quickly and yes with a caveat.
//!
//! Each segment carries a bit set that every key it holds was hashed into. A key
//! that is absent from the set is absent from the segment, certainly, and a key
//! that is present in the set is probably in the segment and has to be looked up
//! properly.
//!
//! # Why the bits are in blocks
//!
//! A key picks one block of sixty four bytes first, and all of its bits are
//! inside that block. One block is one cache line when the section lands on a
//! boundary and two when it does not, so a probe costs one miss or two rather
//! than one for each bit.
//!
//! # No false negatives, ever
//!
//! A key that was inserted always tests present, and a reader that decides a
//! segment does not hold a key because the filter said no is right every time.
//! That is what makes it safe to skip a segment on the strength of it.
//!
//! A key is given by its 64 bit hash. What is said here holds whatever the hash
//! function is, as long as one key always has the one hash.
use crate::codec::{
    get_u32, le_bytes, le_value, lemma_le_bytes, lemma_le_unfold, lemma_le_value, put_u32,
    short, split_at,
};
use crate::error::{Error, Result};
use crate::file::clamped;
use crate::keys::write_bytes;
use vstd::prelude::*;

verus! {

/// How many bits each key gets, unless a caller asks for another number.
pub const BITS_PER_KEY: u8 = 10;

/// How many bytes a key's bits are confined to.
pub const BLOCK: usize = 64;

/// The same number as bits, which is what a position inside a block is taken
/// modulo.
pub const BLOCK_BITS: u32 = 512;

/// The fixed part in front of the bits.
pub const HEADER: usize = 12;

/// The most probes a key gets, whatever the bits per key works out to.
pub const MAX_PROBES: u8 = 8;

/// The bits per key times the natural log of two, rounded, and held to at least
/// one and at most eight.
pub open spec fn probes_of(bits: u8) -> int {
    let probes = (bits * 693 + 500) / 1000;
    if probes < 1 {
        1
    } else if probes > 8 {
        8
    } else {
        probes
    }
}

/// How many blocks a filter for that many keys has.
pub open spec fn blocks_of(keys: nat, bits: u8) -> int {
    let each = if bits == 0 {
        1
    } else {
        bits as int
    };
    let wanted = if keys * each > u64::MAX {
        u64::MAX as int
    } else {
        keys * each
    };
    let blocks = (wanted + 511) / 512;
    if blocks > u32::MAX {
        u32::MAX as int
    } else {
        blocks
    }
}

/// Where the bits of a key are walked from.
pub open spec fn first_of(hash: u64) -> u32 {
    hash as u32
}

/// How far apart they are, which is odd because an even step would walk half as
/// many positions as it should.
pub open spec fn step_of(first: u32) -> u32 {
    ((first << 15) | (first >> 17)) | 1
}

/// Which block a key lands in, from the half of the hash that its bits do not
/// come from.
pub open spec fn block_of(hash: u64, blocks: u32) -> int {
    ((hash >> 32) * blocks) / 0x1_0000_0000
}

/// The position of bit `k` of a key.
pub open spec fn mark(hash: u64, blocks: u32, k: int) -> int {
    512 * block_of(hash, blocks) + (first_of(hash) + k * step_of(first_of(hash))) % 512
}

/// Whether a position is set.
pub open spec fn is_set(bits: Seq<u8>, at: int) -> bool {
    (bits[at / 8] >> ((at % 8) as u8)) & 1 == 1
}

/// Whether a filter says a key might be in it.
pub open spec fn says_yes(bits: Seq<u8>, blocks: u32, probes: int, hash: u64) -> bool {
    blocks != 0 && forall|k: int| 0 <= k < probes ==> is_set(bits, #[trigger] mark(hash, blocks, k))
}

/// Whether some key of the filter marks a position.
pub open spec fn is_marked(hashes: Seq<u64>, blocks: u32, probes: int, at: int) -> bool {
    exists|i: int, k: int|
        0 <= i < hashes.len() && 0 <= k < probes && #[trigger] mark(hashes[i], blocks, k) == at
}

/// The bits of a filter over keys of those hashes: exactly the ones a key marks.
pub open spec fn are_bits(bits: Seq<u8>, hashes: Seq<u64>, blocks: u32, probes: int) -> bool {
    &&& bits.len() == 64 * blocks
    &&& forall|at: int|
        0 <= at < 512 * blocks ==> #[trigger] is_set(bits, at) == is_marked(
            hashes,
            blocks,
            probes,
            at,
        )
}

/// The bytes of a filter.
pub open spec fn filter_bytes(blocks: u32, keys: u32, probes: u8, bits: Seq<u8>) -> Seq<u8> {
    le_bytes(blocks as nat, 4) + le_bytes(keys as nat, 4) + seq![probes, 0, 0, 0] + bits
}

/// What the front of `input` says of a filter: how many blocks, how many keys,
/// how many probes, and the bits.
pub open spec fn opened(input: Seq<u8>) -> core::result::Result<
    (u32, u32, u8, Seq<u8>),
    Error,
> {
    if input.len() < 12 {
        Err(short(12, input.len()))
    } else {
        let blocks = le_value(input.take(4));
        if input.len() - 12 < 64 * blocks {
            Err(short(clamped((64 * blocks) as nat), (input.len() - 12) as nat))
        } else {
            Ok(
                (
                    blocks as u32,
                    le_value(input.subrange(4, 8)) as u32,
                    input[8],
                    input.subrange(12, (12 + 64 * blocks) as int),
                ),
            )
        }
    }
}

// ---------------------------------------------------------------------------
// Laws.
// ---------------------------------------------------------------------------

/// There are no false negatives: every key that was put in is one the filter says
/// yes to.
pub proof fn law_no_false_negatives(
    bits: Seq<u8>,
    hashes: Seq<u64>,
    blocks: u32,
    probes: int,
    i: int,
)
    requires
        blocks > 0,
        are_bits(bits, hashes, blocks, probes),
        0 <= i < hashes.len(),
    ensures
        says_yes(bits, blocks, probes, hashes[i]),
{
    assert forall|k: int| 0 <= k < probes implies is_set(
        bits,
        #[trigger] mark(hashes[i], blocks, k),
    ) by {
        lemma_mark_in_range(hashes[i], blocks, k);
        assert(is_marked(hashes, blocks, probes, mark(hashes[i], blocks, k)));
    }
}

/// A yes is for bits that were set: a filter says yes to a key exactly where putting the
/// key in would set no bit that is not set already, so that it says no to every key one
/// of whose bits no key in it has set.
pub proof fn law_a_yes_is_for_bits_that_are_set(
    bits: Seq<u8>,
    hashes: Seq<u64>,
    blocks: u32,
    probes: int,
    hash: u64,
)
    requires
        blocks > 0,
        are_bits(bits, hashes, blocks, probes),
    ensures
        says_yes(bits, blocks, probes, hash) <==> are_bits(
            bits,
            hashes.push(hash),
            blocks,
            probes,
        ),
        says_yes(bits, blocks, probes, hash) <==> forall|k: int|
            0 <= k < probes ==> is_marked(hashes, blocks, probes, #[trigger] mark(hash, blocks, k)),
        probes > 0 && hashes.len() == 0 ==> !says_yes(bits, blocks, probes, hash),
{
    let more = hashes.push(hash);
    assert forall|k: int| 0 <= k < probes implies is_set(bits, #[trigger] mark(hash, blocks, k))
        == is_marked(hashes, blocks, probes, mark(hash, blocks, k)) by {
        lemma_mark_in_range(hash, blocks, k);
    }
    assert forall|at: int| is_marked(hashes, blocks, probes, at) implies #[trigger] is_marked(
        more,
        blocks,
        probes,
        at,
    ) by {
        let (i, k) = choose|i: int, k: int|
            0 <= i < hashes.len() && 0 <= k < probes && #[trigger] mark(hashes[i], blocks, k) == at;
        assert(mark(more[i], blocks, k) == at);
    }
    assert forall|k: int| 0 <= k < probes implies #[trigger] is_marked(
        more,
        blocks,
        probes,
        mark(hash, blocks, k),
    ) by {
        assert(mark(more[hashes.len() as int], blocks, k) == mark(hash, blocks, k));
    }
    if says_yes(bits, blocks, probes, hash) {
        assert forall|at: int| 0 <= at < 512 * blocks implies #[trigger] is_set(bits, at)
            == is_marked(more, blocks, probes, at) by {
            if is_marked(more, blocks, probes, at) && !is_marked(hashes, blocks, probes, at) {
                let (i, k) = choose|i: int, k: int|
                    0 <= i < more.len() && 0 <= k < probes && #[trigger] mark(more[i], blocks, k)
                        == at;
                if i < hashes.len() {
                    assert(mark(hashes[i], blocks, k) == at);
                }
                assert(is_set(bits, mark(hash, blocks, k)));
            }
        }
    }
    if are_bits(bits, more, blocks, probes) {
        assert forall|k: int| 0 <= k < probes implies is_set(
            bits,
            #[trigger] mark(hash, blocks, k),
        ) by {
            lemma_mark_in_range(hash, blocks, k);
            assert(is_marked(more, blocks, probes, mark(hash, blocks, k)));
        }
    }
    if probes > 0 && hashes.len() == 0 {
        assert(!is_marked(hashes, blocks, probes, mark(hash, blocks, 0)));
    }
}

/// The bits of a key are all in one block of 64 bytes, and are as many as it has probes:
/// no two of them are the same.
pub proof fn law_a_key_has_its_bits_in_one_block(hash: u64, blocks: u32, a: int, b: int)
    requires
        blocks > 0,
        0 <= a < b < 8,
    ensures
        0 <= mark(hash, blocks, a) < 512 * blocks,
        mark(hash, blocks, a) / 512 == mark(hash, blocks, b) / 512,
        mark(hash, blocks, a) != mark(hash, blocks, b),
{
    lemma_mark_in_range(hash, blocks, a);
    let first = first_of(hash);
    let step = step_of(first);
    let apart = (b - a) as u64;
    assert((apart * (((first << 15) | (first >> 17)) | 1)) % 512 != 0) by (bit_vector)
        requires
            1 <= apart < 8,
    ;
    assert(b * step == a * step + apart * step) by (nonlinear_arith)
        requires
            b == a + apart,
    ;
    let x = first + a * step;
    let y = first + b * step;
    if x % 512 == y % 512 {
        vstd::arithmetic::div_mod::lemma_mod_equivalence(y, x, 512);
        assert(y - x == apart * step);
    }
}

/// A key has the number of bits nearest to the bits it was given times the natural log of
/// two, but at least one and at most eight; and a filter has no more blocks than the bits
/// of its keys need, and no fewer, as far as blocks can be counted.
pub proof fn law_a_filter_is_as_large_as_its_keys_need(keys: nat, bits: u8)
    ensures
        1 <= probes_of(bits) <= 8,
        probes_of(bits) < 8 ==> 693 * bits < 1000 * probes_of(bits) + 500,
        probes_of(bits) > 1 ==> 1000 * probes_of(bits) - 500 <= 693 * bits,
        keys == 0 ==> blocks_of(keys, bits) == 0,
        blocks_of(keys, bits) < u32::MAX ==> keys * bits <= 512 * blocks_of(keys, bits) && keys
            <= 512 * blocks_of(keys, bits),
        bits > 0 && blocks_of(keys, bits) > 0 ==> 512 * (blocks_of(keys, bits) - 1) < keys * bits,
        bits == 0 && blocks_of(keys, bits) > 0 ==> 512 * (blocks_of(keys, bits) - 1) < keys,
{
    assert(bits > 0 ==> keys * bits >= keys) by (nonlinear_arith);
    assert(bits == 0 ==> keys * bits == 0) by (nonlinear_arith);
    assert(keys == 0 ==> keys * bits == 0) by (nonlinear_arith);
}

/// A filter that was written is read back as it was, whatever follows it.
pub proof fn law_written_filter_is_read(
    blocks: u32,
    keys: u32,
    probes: u8,
    bits: Seq<u8>,
    rest: Seq<u8>,
)
    requires
        bits.len() == 64 * blocks,
    ensures
        opened(filter_bytes(blocks, keys, probes, bits) + rest) == Ok::<
            (u32, u32, u8, Seq<u8>),
            Error,
        >((blocks, keys, probes, bits)),
{
    let input = filter_bytes(blocks, keys, probes, bits) + rest;
    lemma_le_unfold(0);
    lemma_le_bytes(blocks as nat, 4);
    lemma_le_bytes(keys as nat, 4);
    assert(input.take(4) =~= le_bytes(blocks as nat, 4));
    assert(input.subrange(4, 8) =~= le_bytes(keys as nat, 4));
    assert(input.subrange(12, 12 + 64 * blocks) =~= bits);
}

/// A key lands inside the bits.
proof fn lemma_mark_in_range(hash: u64, blocks: u32, k: int)
    requires
        blocks > 0,
    ensures
        0 <= block_of(hash, blocks) < blocks,
        0 <= mark(hash, blocks, k) < 512 * blocks,
{
    let high = hash >> 32;
    assert(high <= 0xffff_ffff) by (bit_vector)
        requires
            high == hash >> 32,
    ;
    assert(0 <= high * blocks <= 0xffff_ffff * blocks) by (nonlinear_arith)
        requires
            high <= 0xffff_ffff,
            blocks >= 0,
    ;
}

// ---------------------------------------------------------------------------
// Writing.
// ---------------------------------------------------------------------------

/// How many bits to set per key, for a filter of this many bits per key.
pub fn probes_for(bits: u8) -> (probes: u8)
    ensures
        probes == probes_of(bits),
        1 <= probes <= 8,
{
    let probes: u32 = (bits as u32 * 693 + 500) / 1000;
    if probes < 1 {
        1
    } else if probes > MAX_PROBES as u32 {
        MAX_PROBES
    } else {
        probes as u8
    }
}

/// Which block a key lands in, and the two numbers its bits are walked with.
pub fn probe(hash: u64, blocks: u32) -> (found: (u32, u32, u32))
    requires
        blocks > 0,
    ensures
        found.0 == block_of(hash, blocks),
        found.0 < blocks,
        found.1 == first_of(hash),
        found.2 == step_of(found.1),
{
    proof {
        lemma_mark_in_range(hash, blocks, 0);
        let high = hash >> 32;
        assert(high <= 0xffff_ffff) by (bit_vector)
            requires
                high == hash >> 32,
        ;
        assert(0 <= high * blocks <= 0xffff_ffff * 0xffff_ffff) by (nonlinear_arith)
            requires
                high <= 0xffff_ffff,
                0 <= blocks <= 0xffff_ffff,
        ;
    }
    let high: u64 = hash >> 32;
    let product: u64 = high * blocks as u64;
    let block: u32 = (product / 0x1_0000_0000) as u32;
    let first: u32 = hash as u32;
    (block, first, ((first << 15) | (first >> 17)) | 1)
}

/// One step of the walk round a block.
proof fn lemma_walk(first: u32, step: u32, k: int, at: u32)
    requires
        0 <= k,
        at == (first + k * step) % 0x1_0000_0000,
    ensures
        at & 511 == (first + k * step) % 512,
        (at + step) % 0x1_0000_0000 == (first + (k + 1) * step) % 0x1_0000_0000,
{
    assert(at & 511 == at % 512) by (bit_vector);
    let total = first + k * step;
    vstd::arithmetic::div_mod::lemma_mod_mod(total, 512, 0x80_0000);
    assert((k + 1) * step == k * step + step) by (nonlinear_arith);
    vstd::arithmetic::div_mod::lemma_add_mod_noop(total, step as int, 0x1_0000_0000);
    assert(step as int % 0x1_0000_0000 == step);
}

/// Setting one bit of a byte.
proof fn lemma_set(byte: u8, bit: u32, k: u8)
    requires
        bit < 512,
        k < 8,
    ensures
        ((byte | (1u8 << ((bit & 7) as u8))) >> k) & 1 == 1 <==> (byte >> k) & 1 == 1 || k == bit
            % 8,
        (byte & (1u8 << ((bit & 7) as u8)) == 0) <==> (byte >> ((bit % 8) as u8)) & 1 != 1,
        bit >> 3 == bit / 8,
        bit & 7 < 8,
{
    assert(bit & 7 < 8) by (bit_vector);
    assert(((((byte | (1u8 << ((bit & 7) as u8))) >> k) & 1 == 1) == ((byte >> k) & 1 == 1 || k
        == bit % 8)) && ((byte & (1u8 << ((bit & 7) as u8)) == 0) == ((byte >> ((bit % 8) as u8))
        & 1 != 1)) && bit >> 3 == bit / 8) by (bit_vector)
        requires
            bit < 512,
            k < 8,
    ;
}

/// Builds a filter over a set of keys.
///
/// The size is fixed when the writer is made, from how many keys are coming,
/// because a bit set cannot be grown without rehashing everything in it.
pub struct Writer {
    blocks: u32,
    probes: u8,
    keys: u32,
    bits: Vec<u8>,
    hashes: Ghost<Seq<u64>>,
}

impl View for Writer {
    type V = Seq<u64>;

    /// The hashes of the keys that went in.
    closed spec fn view(&self) -> Seq<u64> {
        self.hashes@
    }
}

impl Writer {
    pub closed spec fn wf(&self) -> bool {
        &&& 1 <= self.probes <= 8
        &&& are_bits(self.bits@, self.hashes@, self.blocks, self.probes as int)
        &&& self.keys == self.counted()
        &&& 64 * self.blocks + 12 <= usize::MAX
    }

    /// How many blocks of 64 bytes the bits are.
    pub closed spec fn blocks(&self) -> u32 {
        self.blocks
    }

    /// How many bits each key sets.
    pub closed spec fn probes(&self) -> u8 {
        self.probes
    }

    /// How many keys are counted: those that went in, as far as the count goes.
    pub open spec fn counted(&self) -> u32 {
        if self@.len() < u32::MAX {
            self@.len() as u32
        } else {
            u32::MAX
        }
    }

    /// The bits that the keys have set.
    pub closed spec fn bits(&self) -> Seq<u8> {
        self.bits@
    }

    /// A filter sized for `keys` keys at [`BITS_PER_KEY`] bits each.
    pub fn new(keys: usize) -> (writer: Self)
        requires
            64 * blocks_of(keys as nat, BITS_PER_KEY) + 12 <= usize::MAX,
        ensures
            writer.wf(),
            writer@ == Seq::<u64>::empty(),
            writer.blocks() == blocks_of(keys as nat, BITS_PER_KEY),
            writer.probes() == probes_of(BITS_PER_KEY),
    {
        Self::with_bits(keys, BITS_PER_KEY)
    }

    /// A filter sized for `keys` keys at `bits` bits each.
    ///
    /// A filter for no keys holds no blocks and answers no to everything, which
    /// is the honest answer and costs twelve bytes.
    pub fn with_bits(keys: usize, bits: u8) -> (writer: Self)
        requires
            64 * blocks_of(keys as nat, bits) + 12 <= usize::MAX,
        ensures
            writer.wf(),
            writer@ == Seq::<u64>::empty(),
            writer.blocks() == blocks_of(keys as nat, bits),
            writer.probes() == probes_of(bits),
    {
        let each: u64 = if bits == 0 {
            1
        } else {
            bits as u64
        };
        let wanted: u64 = match (keys as u64).checked_mul(each) {
            Some(wanted) => wanted,
            None => u64::MAX,
        };
        let whole: u64 = wanted / 512;
        let needed: u64 = if wanted % 512 == 0 {
            whole
        } else {
            whole + 1
        };
        let blocks: u32 = if needed > u32::MAX as u64 {
            u32::MAX
        } else {
            needed as u32
        };
        assert(blocks == blocks_of(keys as nat, bits));
        let empty: Vec<u8> = vec![0u8; blocks as usize * BLOCK];
        proof {
            assert forall|at: int| 0 <= at < 512 * blocks implies #[trigger] is_set(empty@, at)
                == is_marked(Seq::<u64>::empty(), blocks, probes_of(bits), at) by {
                let k = (at % 8) as u8;
                assert(empty@[at / 8] == 0);
                assert((0u8 >> k) & 1 == 0) by (bit_vector);
            }
        }
        Writer {
            blocks,
            probes: probes_for(bits),
            keys: 0,
            bits: empty,
            hashes: Ghost(Seq::empty()),
        }
    }

    /// Puts a key in.
    ///
    /// Putting the same key in twice is not an error and sets the same bits again,
    /// so a caller does not have to know whether its keys are distinct. A filter
    /// of no blocks takes nothing.
    pub fn insert(&mut self, hash: u64)
        requires
            old(self).wf(),
        ensures
            final(self).wf(),
            final(self).blocks() == old(self).blocks(),
            final(self).probes() == old(self).probes(),
            final(self)@ == if old(self).blocks() == 0 {
                old(self)@
            } else {
                old(self)@.push(hash)
            },
    {
        if self.blocks == 0 {
            return ;
        }
        let ghost was = *self;
        let (block, first, step) = probe(hash, self.blocks);
        let base: usize = block as usize * BLOCK;
        let mut at: u32 = first;
        let mut k: u8 = 0;
        let blocks: u32 = self.blocks;
        while k < self.probes
            invariant
                k <= self.probes <= 8,
                0 < blocks,
                block < blocks,
                block == block_of(hash, blocks),
                base == 64 * block,
                first == first_of(hash),
                step == step_of(first),
                at == (first + k * step) % 0x1_0000_0000,
                *self == (Writer { bits: self.bits, ..was }),
                self.bits@.len() == 64 * blocks,
                was.bits@.len() == 64 * blocks,
                forall|p: int|
                    0 <= p < 512 * blocks ==> #[trigger] is_set(self.bits@, p) == (is_set(
                        was.bits@,
                        p,
                    ) || exists|j: int| 0 <= j < k && #[trigger] mark(hash, blocks, j) == p),
            decreases self.probes - k,
        {
            let bit: u32 = at & (BLOCK_BITS - 1);
            proof {
                lemma_walk(first, step, k as int, at);
                lemma_set(0, bit, 0);
                lemma_mark_in_range(hash, blocks, k as int);
            }
            let place: usize = base + (bit >> 3) as usize;
            let byte: u8 = self.bits[place];
            let ghost had = self.bits@;
            let made: u8 = byte | (1u8 << ((bit & 7) as u8));
            self.bits.set(place, made);
            proof {
                let here = mark(hash, blocks, k as int);
                assert(here == 512 * block + bit);
                assert(here / 8 == place && here % 8 == bit % 8);
                assert forall|p: int| 0 <= p < 512 * blocks implies #[trigger] is_set(
                    self.bits@,
                    p,
                ) == (is_set(was.bits@, p) || exists|j: int|
                    0 <= j < k + 1 && #[trigger] mark(hash, blocks, j) == p) by {
                    lemma_set(byte, bit, (p % 8) as u8);
                    assert(is_set(had, p) == (is_set(was.bits@, p) || exists|j: int|
                        0 <= j < k && #[trigger] mark(hash, blocks, j) == p));
                    assert(is_set(self.bits@, p) == (is_set(had, p) || p == here)) by {
                        if p / 8 == place {
                            assert(had[p / 8] == byte);
                        } else {
                            assert(self.bits@[p / 8] == had[p / 8]);
                        }
                    }
                    if exists|j: int| 0 <= j < k + 1 && #[trigger] mark(hash, blocks, j) == p {
                        let j = choose|j: int|
                            0 <= j < k + 1 && #[trigger] mark(hash, blocks, j) == p;
                        if j < k {
                            assert(mark(hash, blocks, j) == p);
                        }
                    }
                }
            }
            at = at.wrapping_add(step);
            k = k + 1;
        }
        self.keys = self.keys.saturating_add(1);
        self.hashes = Ghost(self.hashes@.push(hash));
        proof {
            let probes = self.probes as int;
            let now = self.hashes@;
            let before = was.hashes@;
            assert forall|p: int| 0 <= p < 512 * blocks implies #[trigger] is_set(self.bits@, p)
                == is_marked(now, blocks, probes, p) by {
                assert(is_set(was.bits@, p) == is_marked(before, blocks, probes, p));
                if is_marked(before, blocks, probes, p) {
                    let (i, j) = choose|i: int, j: int|
                        0 <= i < before.len() && 0 <= j < probes && #[trigger] mark(
                            before[i],
                            blocks,
                            j,
                        ) == p;
                    assert(now[i] == before[i]);
                    assert(mark(now[i], blocks, j) == p);
                }
                if exists|j: int| 0 <= j < probes && #[trigger] mark(hash, blocks, j) == p {
                    let j = choose|j: int| 0 <= j < probes && #[trigger] mark(hash, blocks, j) == p;
                    assert(mark(now[now.len() - 1], blocks, j) == p);
                }
                if is_marked(now, blocks, probes, p) {
                    let (i, j) = choose|i: int, j: int|
                        0 <= i < now.len() && 0 <= j < probes && #[trigger] mark(now[i], blocks, j)
                            == p;
                    if i < before.len() {
                        assert(mark(before[i], blocks, j) == p);
                    } else {
                        assert(mark(hash, blocks, j) == p);
                    }
                }
            }
        }
    }

    /// How many keys went in.
    pub fn len(&self) -> (n: u32)
        requires
            self.wf(),
        ensures
            n == self.counted(),
    {
        self.keys
    }

    /// Reports whether nothing has been put in.
    pub fn is_empty(&self) -> (empty: bool)
        requires
            self.wf(),
        ensures
            empty == (self@.len() == 0),
    {
        self.keys == 0
    }

    /// What the encoded filter will be, in bytes.
    pub fn size(&self) -> (n: usize)
        requires
            self.wf(),
        ensures
            n == filter_bytes(self.blocks(), self.counted(), self.probes(), self.bits()).len(),
    {
        proof {
            lemma_le_bytes(self.blocks as nat, 4);
            lemma_le_bytes(self.keys as nat, 4);
        }
        HEADER + self.blocks as usize * BLOCK
    }

    /// Writes the filter onto the end of `out`.
    pub fn write_to(&self, out: &mut Vec<u8>)
        requires
            self.wf(),
        ensures
            final(out)@ == old(out)@ + filter_bytes(
                self.blocks(),
                self.counted(),
                self.probes(),
                self.bits(),
            ),
            are_bits(self.bits(), self@, self.blocks(), self.probes() as int),
    {
        put_u32(out, self.blocks);
        put_u32(out, self.keys);
        out.push(self.probes);
        // Three bytes of nothing, so that the bits start on a four byte boundary
        // and a later field has somewhere to go that does not move them.
        out.push(0);
        out.push(0);
        out.push(0);
        write_bytes(&self.bits, out);
        assert(out@ =~= old(out)@ + filter_bytes(
            self.blocks(),
            self.counted(),
            self.probes(),
            self.bits(),
        ));
    }

    /// The filter on its own.
    pub fn finish(&self) -> (out: Vec<u8>)
        requires
            self.wf(),
        ensures
            out@ == filter_bytes(self.blocks(), self.counted(), self.probes(), self.bits()),
            are_bits(self.bits(), self@, self.blocks(), self.probes() as int),
    {
        let mut out: Vec<u8> = Vec::with_capacity(self.size());
        self.write_to(&mut out);
        assert(out@ =~= filter_bytes(self.blocks(), self.counted(), self.probes(), self.bits()));
        out
    }
}

/// Asks a written filter about a key.
#[derive(Debug, Clone, Copy)]
pub struct Reader<'a> {
    blocks: u32,
    probes: u8,
    keys: u32,
    bits: &'a [u8],
}

impl<'a> Reader<'a> {
    pub closed spec fn wf(&self) -> bool {
        self.bits@.len() == 64 * self.blocks && self.bits@.len() + 12 <= usize::MAX
    }

    pub closed spec fn blocks(&self) -> u32 {
        self.blocks
    }

    pub closed spec fn probes(&self) -> u8 {
        self.probes
    }

    pub closed spec fn counted(&self) -> u32 {
        self.keys
    }

    pub closed spec fn bits(&self) -> Seq<u8> {
        self.bits@
    }

    /// Reads a filter out of the front of `input`.
    ///
    /// Bytes after the filter are left alone, so a section with something else
    /// after it reads fine. Reports [`Error::Truncated`] if the input is shorter
    /// than the header, or shorter than the number of blocks the header claims.
    pub fn new(input: &'a [u8]) -> (reader: Result<Self>)
        ensures
            match opened(input@) {
                Err(error) => reader matches Err(e) && e == error,
                Ok((blocks, keys, probes, bits)) => {
                    &&& reader matches Ok(r)
                    &&& r.wf()
                    &&& r.blocks() == blocks
                    &&& r.counted() == keys
                    &&& r.probes() == probes
                    &&& r.bits() == bits
                },
            },
    {
        assert(input.len() <= usize::MAX);
        let (head, rest) = match split_at(input, HEADER) {
            Ok(split) => split,
            Err(error) => {
                return Err(error);
            },
        };
        proof {
            assert(head@.take(4) =~= input@.take(4));
            assert(head@.skip(4).take(4) =~= input@.subrange(4, 8));
            lemma_le_value(input@.take(4));
            lemma_le_value(input@.subrange(4, 8));
        }
        let (blocks, tail) = match get_u32(head) {
            Ok(read) => read,
            Err(error) => {
                return Err(error);
            },
        };
        let (keys, tail) = match get_u32(tail) {
            Ok(read) => read,
            Err(error) => {
                return Err(error);
            },
        };
        let probes: u8 = tail[0];
        let wanted: usize = match (blocks as usize).checked_mul(BLOCK) {
            Some(wanted) => wanted,
            None => usize::MAX,
        };
        let (bits, _) = match split_at(rest, wanted) {
            Ok(split) => split,
            Err(error) => {
                return Err(error);
            },
        };
        assert(bits@ =~= input@.subrange(12, 12 + 64 * blocks));
        Ok(Reader { blocks, probes, keys, bits })
    }

    /// Reports whether the key might be in the set.
    ///
    /// A no is certain. A yes means the bits a key would have set are all set,
    /// which every key that was put in satisfies, and some that were not.
    pub fn maybe_holds(&self, hash: u64) -> (yes: bool)
        requires
            self.wf(),
        ensures
            yes == says_yes(self.bits(), self.blocks(), self.probes() as int, hash),
    {
        if self.blocks == 0 {
            return false;
        }
        let (block, first, step) = probe(hash, self.blocks);
        let base: usize = block as usize * BLOCK;
        let mut at: u32 = first;
        let mut k: u8 = 0;
        while k < self.probes
            invariant
                k <= self.probes,
                self.wf(),
                0 < self.blocks,
                block < self.blocks,
                block == block_of(hash, self.blocks),
                base == 64 * block,
                first == first_of(hash),
                step == step_of(first),
                at == (first + k * step) % 0x1_0000_0000,
                forall|j: int|
                    0 <= j < k ==> is_set(self.bits@, #[trigger] mark(hash, self.blocks, j)),
            decreases self.probes - k,
        {
            let bit: u32 = at & (BLOCK_BITS - 1);
            proof {
                lemma_walk(first, step, k as int, at);
                lemma_set(0, bit, 0);
                lemma_mark_in_range(hash, self.blocks, k as int);
            }
            let place: usize = base + (bit >> 3) as usize;
            let byte: u8 = self.bits[place];
            proof {
                lemma_set(byte, bit, 0);
                let here = mark(hash, self.blocks, k as int);
                assert(here == 512 * block + bit);
                assert(here / 8 == place && here % 8 == bit % 8);
            }
            if byte & (1u8 << ((bit & 7) as u8)) == 0 {
                assert(!is_set(self.bits@, mark(hash, self.blocks, k as int)));
                return false;
            }
            at = at.wrapping_add(step);
            k = k + 1;
        }
        true
    }

    /// How many keys went in.
    ///
    /// Not how many the filter can be asked about, and not how many distinct keys
    /// it holds. It is the number a rate is worked out against.
    pub fn len(&self) -> (n: u32)
        ensures
            n == self.counted(),
    {
        self.keys
    }

    /// Reports whether nothing went in.
    pub fn is_empty(&self) -> (empty: bool)
        ensures
            empty == (self.counted() == 0),
    {
        self.keys == 0
    }

    /// How many bytes the filter is, header included.
    pub fn size(&self) -> (n: usize)
        requires
            self.wf(),
        ensures
            n == 12 + self.bits().len(),
    {
        HEADER + self.bits.len()
    }
}

/// A filter opens exactly where its bytes are as many as it says: twelve, then sixty four
/// for each block.
pub proof fn law_a_filter_opens_where_it_is_whole(input: Seq<u8>)
    ensures
        ({
            let blocks = le_value(input.subrange(0, 4)) as int;
            &&& opened(input) is Ok <==> input.len() >= 12 && 12 + 64 * blocks <= input.len()
            &&& opened(input) matches Ok((n, keys, probes, bits)) ==> {
                &&& n == blocks
                &&& keys == le_value(input.subrange(4, 8))
                &&& probes == input[8]
                &&& bits == input.subrange(12, 12 + 64 * blocks)
            }
        }),
{
    if input.len() >= 12 {
        assert(input.take(4) =~= input.subrange(0, 4));
        lemma_le_unfold(0);
        lemma_le_value(input.subrange(0, 4));
        lemma_le_value(input.subrange(4, 8));
    }
}

} // verus!

//! CRC-32, the IEEE polynomial that zlib, gzip and PNG use.
//!
//! The engine needs a checksum for one job: telling a reader that the bytes it
//! is about to trust are the bytes that were written. It is not a hash, and it
//! does not defend against anybody who wants to change a file.
//!
//! The checksum is stated a bit at a time and computed sixteen bytes at a time.
//! Table `n` holds the contribution of a byte that still has `n` more bytes
//! behind it, so what a byte at a time does in sixteen dependent steps is
//! sixteen independent lookups. What makes the two the same is that a step
//! distributes over exclusive or.
use vstd::prelude::*;

verus! {

/// The reflected form of the IEEE polynomial.
pub const POLYNOMIAL: u32 = 0xEDB8_8320;

/// How many bytes an iteration of the fast path consumes, which is also the
/// number of tables.
pub const SLICE: usize = 16;

/// The state after one bit of zero.
pub open spec fn bit_step(state: u32) -> u32 {
    if state & 1 == 0 {
        state >> 1
    } else {
        POLYNOMIAL ^ (state >> 1)
    }
}

/// The state after `n` bits of zero.
pub open spec fn bits_run(state: u32, n: nat) -> u32
    decreases n,
{
    if n == 0 {
        state
    } else {
        bit_step(bits_run(state, (n - 1) as nat))
    }
}

/// The state after one byte of zeroes.
pub open spec fn byte_run(state: u32) -> u32 {
    bits_run(state, 8)
}

/// The state after `n` bytes of zeroes.
pub open spec fn run(state: u32, n: nat) -> u32
    decreases n,
{
    if n == 0 {
        state
    } else {
        byte_run(run(state, (n - 1) as nat))
    }
}

/// The state after `bytes`.
pub open spec fn fed(state: u32, bytes: Seq<u8>) -> u32
    decreases bytes.len(),
{
    if bytes.len() == 0 {
        state
    } else {
        byte_run(fed(state, bytes.drop_last()) ^ (bytes.last() as u32))
    }
}

/// The checksum of `bytes`.
pub open spec fn checksum_of(bytes: Seq<u8>) -> u32 {
    !fed(0xffff_ffff, bytes)
}

// ---------------------------------------------------------------------------
// A step distributes over exclusive or, and shifts what it does not feed back.
// ---------------------------------------------------------------------------

proof fn lemma_xor(a: u32, b: u32, c: u32)
    ensures
        a ^ b == b ^ a,
        (a ^ b) ^ c == a ^ (b ^ c),
        a ^ a == 0,
        a ^ 0 == a,
        a ^ b == 0 ==> a == b,
        a != b ==> a ^ c != b ^ c,
{
    assert(a ^ b == b ^ a && (a ^ b) ^ c == a ^ (b ^ c) && a ^ a == 0 && a ^ 0 == a && (a ^ b == 0
        ==> a == b) && (a != b ==> a ^ c != b ^ c)) by (bit_vector);
}

proof fn lemma_bit_linear(a: u32, b: u32)
    ensures
        bit_step(a ^ b) == bit_step(a) ^ bit_step(b),
{
    let p = POLYNOMIAL;
    assert((if (a ^ b) & 1 == 0 {
        (a ^ b) >> 1
    } else {
        p ^ ((a ^ b) >> 1)
    }) == (if a & 1 == 0 {
        a >> 1
    } else {
        p ^ (a >> 1)
    }) ^ (if b & 1 == 0 {
        b >> 1
    } else {
        p ^ (b >> 1)
    })) by (bit_vector);
}

proof fn lemma_bits_linear(a: u32, b: u32, n: nat)
    ensures
        bits_run(a ^ b, n) == bits_run(a, n) ^ bits_run(b, n),
    decreases n,
{
    if n > 0 {
        lemma_bits_linear(a, b, (n - 1) as nat);
        lemma_bit_linear(bits_run(a, (n - 1) as nat), bits_run(b, (n - 1) as nat));
    }
}

proof fn lemma_run_linear(a: u32, b: u32, n: nat)
    ensures
        run(a ^ b, n) == run(a, n) ^ run(b, n),
    decreases n,
{
    if n > 0 {
        lemma_run_linear(a, b, (n - 1) as nat);
        lemma_bits_linear(run(a, (n - 1) as nat), run(b, (n - 1) as nat), 8);
    }
}

proof fn lemma_run_first(state: u32, n: nat)
    ensures
        run(state, n + 1) == run(byte_run(state), n),
    decreases n,
{
    reveal_with_fuel(run, 2);
    if n > 0 {
        lemma_run_first(state, (n - 1) as nat);
    }
}

proof fn lemma_run_concat(state: u32, n: nat, m: nat)
    ensures
        run(run(state, n), m) == run(state, n + m),
    decreases m,
{
    if m > 0 {
        lemma_run_concat(state, n, (m - 1) as nat);
    }
}

/// `n` bits of zero only shift a state whose lowest `n` bits are clear.
proof fn lemma_bits_shift(state: u32, n: nat)
    requires
        n <= 8,
        state & 0xff == 0,
    ensures
        bits_run(state, n) == state >> (n as u32),
    decreases n,
{
    if n == 0 {
        assert(state >> 0u32 == state) by (bit_vector);
    } else {
        lemma_bits_shift(state, (n - 1) as nat);
        let k = (n - 1) as u32;
        assert((state >> k) & 1 == 0 && (state >> k) >> 1u32 == state >> ((k + 1) as u32))
            by (bit_vector)
            requires
                k < 8,
                state & 0xff == 0,
        ;
    }
}

/// One byte of zeroes feeds the lowest byte back and shifts the rest.
proof fn lemma_byte_run(state: u32)
    ensures
        byte_run(state) == byte_run(state & 0xff) ^ (state >> 8),
{
    let low = state & 0xff;
    let high = state & 0xffff_ff00;
    assert(low ^ high == state && high & 0xff == 0 && high >> 8 == state >> 8) by (bit_vector)
        requires
            low == state & 0xff,
            high == state & 0xffff_ff00,
    ;
    lemma_bits_linear(low, high, 8);
    lemma_bits_shift(high, 8);
}

/// The bytes of a word, each with the bytes of zeroes that are left for it.
proof fn lemma_word(word: u32, k: nat)
    ensures
        run(word, k + 4) == run(word & 0xff, k + 4) ^ run((word >> 8) & 0xff, k + 3) ^ run(
            (word >> 16) & 0xff,
            k + 2,
        ) ^ run(word >> 24, k + 1),
{
    lemma_word_step(word, k + 3);
    lemma_word_step(word >> 8, k + 2);
    lemma_word_step(word >> 16, k + 1);
    assert((word >> 8) >> 8 == word >> 16 && (word >> 16) >> 8 == word >> 24) by (bit_vector);
    let a = run(word & 0xff, k + 4);
    let b = run((word >> 8) & 0xff, k + 3);
    let c = run((word >> 16) & 0xff, k + 2);
    let d = run(word >> 24, k + 1);
    lemma_xor(b, c, d);
    lemma_xor(a, b, c ^ d);
    lemma_xor(a ^ b, c, d);
}

proof fn lemma_word_step(word: u32, n: nat)
    ensures
        run(word, n + 1) == run(word & 0xff, n + 1) ^ run(word >> 8, n),
{
    lemma_byte_run(word);
    lemma_run_first(word, n);
    lemma_run_first(word & 0xff, n);
    lemma_run_linear(byte_run(word & 0xff), word >> 8, n);
}

/// A byte joins a state as if it had been there from the start, shifted past the
/// bytes before it.
proof fn lemma_join(state: u32, byte: u32, shifted: u32, n: nat)
    requires
        run(shifted, n) == byte,
    ensures
        run(state, n) ^ byte == run(state ^ shifted, n),
{
    lemma_run_linear(state, shifted, n);
}

/// Four bytes are four bytes of zeroes on the state joined with their word.
proof fn lemma_four(state: u32, a: u8, b: u8, c: u8, d: u8, word: u32)
    requires
        word == a as u32 | (b as u32) << 8 | (c as u32) << 16 | (d as u32) << 24,
    ensures
        fed(state, seq![a, b, c, d]) == run(state ^ word, 4),
{
    reveal_with_fuel(run, 5);
    let (w, x, y, z) = (a as u32, b as u32, c as u32, d as u32);
    let (xs, ys, zs) = (x << 8, y << 16, z << 24);
    assert(state ^ word == ((((state ^ w) ^ xs) ^ ys) ^ zs) && xs & 0xff == 0 && xs >> 8 == x && ys
        & 0xff == 0 && (ys >> 8) & 0xff == 0 && (ys >> 8) >> 8 == y && zs & 0xff == 0 && (zs >> 8)
        & 0xff == 0 && ((zs >> 8) >> 8) & 0xff == 0 && ((zs >> 8) >> 8) >> 8 == z) by (bit_vector)
        requires
            w == a as u32,
            x == b as u32,
            y == c as u32,
            z == d as u32,
            xs == x << 8,
            ys == y << 16,
            zs == z << 24,
            word == a as u32 | (b as u32) << 8 | (c as u32) << 16 | (d as u32) << 24,
    ;
    lemma_bits_shift(xs, 8);
    lemma_bits_shift(ys, 8);
    lemma_bits_shift(ys >> 8, 8);
    lemma_bits_shift(zs, 8);
    lemma_bits_shift(zs >> 8, 8);
    lemma_bits_shift((zs >> 8) >> 8, 8);
    lemma_join(state ^ w, x, xs, 1);
    lemma_join((state ^ w) ^ xs, y, ys, 2);
    lemma_join(((state ^ w) ^ xs) ^ ys, z, zs, 3);
    assert(seq![a, b, c, d].drop_last() =~= seq![a, b, c]);
    assert(seq![a, b, c].drop_last() =~= seq![a, b]);
    assert(seq![a, b].drop_last() =~= seq![a]);
    assert(seq![a].drop_last() =~= Seq::<u8>::empty());
    reveal_with_fuel(fed, 5);
}

/// Feeding pieces one after the other is feeding them joined.
pub proof fn law_pieces_are_the_whole(state: u32, first: Seq<u8>, second: Seq<u8>)
    ensures
        fed(state, first + second) == fed(fed(state, first), second),
    decreases second.len(),
{
    if second.len() == 0 {
        assert(first + second =~= first);
    } else {
        assert((first + second).drop_last() =~= first + second.drop_last());
        law_pieces_are_the_whole(state, first, second.drop_last());
    }
}

/// What is left of a state once `n` more bits of it have been divided by the polynomial,
/// the lowest first.
pub open spec fn divided(state: u32, n: nat) -> u32
    decreases n,
{
    if n == 0 {
        state
    } else if state & 1 == 1 {
        divided((state >> 1) ^ 0xedb8_8320, (n - 1) as nat)
    } else {
        divided(state >> 1, (n - 1) as nat)
    }
}

proof fn lemma_bits_front(state: u32, n: nat)
    requires
        n > 0,
    ensures
        bits_run(state, n) == bits_run(bit_step(state), (n - 1) as nat),
    decreases n,
{
    if n > 1 {
        lemma_bits_front(state, (n - 1) as nat);
    } else {
        reveal_with_fuel(bits_run, 2);
    }
}

proof fn lemma_divided(state: u32, n: nat)
    ensures
        divided(state, n) == bits_run(state, n),
    decreases n,
{
    if n > 0 {
        lemma_bits_front(state, n);
        lemma_divided(bit_step(state), (n - 1) as nat);
        lemma_xor(POLYNOMIAL, state >> 1, 0);
        assert(state & 1 == 0 || state & 1 == 1) by (bit_vector);
    }
}

/// The checksum of nothing is zero, and that of one byte more is what dividing the state
/// it stands for, with the byte taken into its low bits, by the polynomial leaves.
pub proof fn law_the_checksum_of_one_byte_more(bytes: Seq<u8>, byte: u8)
    ensures
        checksum_of(Seq::empty()) == 0,
        checksum_of(bytes.push(byte)) == !divided(!checksum_of(bytes) ^ (byte as u32), 8),
{
    let state = fed(0xffff_ffff, bytes);
    assert(bytes.push(byte).drop_last() =~= bytes);
    lemma_divided(state ^ (byte as u32), 8);
    assert(!(!state) == state && !0xffff_ffffu32 == 0) by (bit_vector);
}

// ---------------------------------------------------------------------------
// What a checksum cannot miss.
// ---------------------------------------------------------------------------

proof fn lemma_bits_nonzero(state: u32, n: nat)
    requires
        state != 0,
    ensures
        bits_run(state, n) != 0,
    decreases n,
{
    if n > 0 {
        lemma_bits_nonzero(state, (n - 1) as nat);
        let s = bits_run(state, (n - 1) as nat);
        assert((if s & 1 == 0 {
            s >> 1
        } else {
            0xEDB8_8320u32 ^ (s >> 1)
        }) != 0) by (bit_vector)
            requires
                s != 0,
        ;
    }
}

/// Two states stay as far apart as feeding zeroes takes their difference.
proof fn lemma_fed_differs(a: u32, b: u32, bytes: Seq<u8>)
    requires
        a != b,
    ensures
        fed(a, bytes) != fed(b, bytes),
    decreases bytes.len(),
{
    if bytes.len() > 0 {
        let rest = bytes.drop_last();
        let byte = bytes.last() as u32;
        lemma_fed_differs(a, b, rest);
        lemma_xor(fed(a, rest), fed(b, rest), byte);
        lemma_byte_differs(fed(a, rest), fed(b, rest), byte, byte);
    }
}

proof fn lemma_byte_differs(a: u32, b: u32, x: u32, y: u32)
    requires
        a ^ x != b ^ y,
    ensures
        byte_run(a ^ x) != byte_run(b ^ y),
{
    let p = a ^ x;
    let q = b ^ y;
    lemma_xor(p, q, 0);
    lemma_bits_linear(p, q, 8);
    lemma_bits_nonzero(p ^ q, 8);
    lemma_xor(byte_run(p), byte_run(q), 0);
}

/// A changed byte changes the checksum, wherever it is and whatever follows it.
pub proof fn law_a_changed_byte_shows(before: Seq<u8>, a: u8, b: u8, after: Seq<u8>)
    requires
        a != b,
    ensures
        checksum_of(before.push(a) + after) != checksum_of(before.push(b) + after),
{
    let start = 0xffff_ffffu32;
    let state = fed(start, before);
    law_pieces_are_the_whole(start, before.push(a), after);
    law_pieces_are_the_whole(start, before.push(b), after);
    assert(before.push(a).drop_last() =~= before);
    assert(before.push(b).drop_last() =~= before);
    let (x, y) = (a as u32, b as u32);
    lemma_xor(x, y, state);
    lemma_xor(state, x, 0);
    lemma_xor(state, y, 0);
    lemma_byte_differs(state, state, x, y);
    lemma_fed_differs(byte_run(state ^ x), byte_run(state ^ y), after);
    let p = fed(byte_run(state ^ x), after);
    let q = fed(byte_run(state ^ y), after);
    assert(!p != !q) by (bit_vector)
        requires
            p != q,
    ;
}

/// Only the state of nothing but zero bits is left where it was by a byte of
/// zeroes.
proof fn lemma_byte_moves(state: u32)
    requires
        byte_run(state) == state,
    ensures
        state == 0,
{
    reveal_with_fuel(bits_run, 9);
    let s1 = bit_step(state);
    let s2 = bit_step(s1);
    let s3 = bit_step(s2);
    let s4 = bit_step(s3);
    let s5 = bit_step(s4);
    let s6 = bit_step(s5);
    let s7 = bit_step(s6);
    assert(state == 0) by (bit_vector)
        requires
            s1 == bit_step(state),
            s2 == bit_step(s1),
            s3 == bit_step(s2),
            s4 == bit_step(s3),
            s5 == bit_step(s4),
            s6 == bit_step(s5),
            s7 == bit_step(s6),
            state == bit_step(s7),
    ;
}

/// A zero put on the end shows, unless the checksum before it is all ones.
pub proof fn law_a_trailing_zero_shows(bytes: Seq<u8>)
    requires
        checksum_of(bytes) != 0xffff_ffff,
    ensures
        checksum_of(bytes.push(0)) != checksum_of(bytes),
{
    let state = fed(0xffff_ffff, bytes);
    assert(bytes.push(0).drop_last() =~= bytes);
    lemma_xor(state, 0, 0);
    let next = byte_run(state);
    assert((state != 0 || !state == 0xffff_ffff) && (!next == !state ==> next == state))
        by (bit_vector);
    if next == state {
        lemma_byte_moves(state);
    }
}

// ---------------------------------------------------------------------------
// The tables.
// ---------------------------------------------------------------------------

/// Table `n` holds what a byte comes to with `n` more bytes behind it.
pub open spec fn are_tables(tables: Seq<Vec<u32>>) -> bool {
    &&& tables.len() == SLICE
    &&& forall|n: int, index: int|
        0 <= n < SLICE && 0 <= index < 256 ==> {
            &&& tables[n]@.len() == 256
            &&& #[trigger] tables[n]@[index] == run(index as u32, (n + 1) as nat)
        }
    &&& forall|n: int| 0 <= n < SLICE ==> (#[trigger] tables[n])@.len() == 256
}

/// The first table is enough for the next: pushing an entry of table `n` through
/// one more byte of zeroes gives the entry of table `n + 1`.
pub proof fn law_tables_run_ahead(tables: Seq<Vec<u32>>, n: int, index: int)
    requires
        are_tables(tables),
        0 <= n < SLICE - 1,
        0 <= index < 256,
    ensures
        ({
            let previous = tables[n]@[index];
            tables[n + 1]@[index] == (previous >> 8) ^ tables[0]@[(previous & 0xff) as int]
        }),
{
    let previous = tables[n]@[index];
    assert(previous & 0xff < 256) by (bit_vector);
    let low = (previous & 0xff) as int;
    assert(previous == run(index as u32, (n + 1) as nat));
    assert(tables[n + 1]@[index] == run(index as u32, (n + 2) as nat));
    assert(tables[0]@[low] == run(low as u32, 1));
    reveal_with_fuel(run, 2);
    lemma_byte_run(previous);
    lemma_xor(byte_run(previous & 0xff), previous >> 8, 0);
}

/// The first table, giving the state after one byte.
fn build_table() -> (table: Vec<u32>)
    ensures
        table@.len() == 256,
        forall|index: int|
            0 <= index < 256 ==> #[trigger] table@[index] == run(index as u32, 1),
{
    let mut table: Vec<u32> = Vec::with_capacity(256);
    while table.len() < 256
        invariant
            table@.len() <= 256,
            forall|index: int|
                0 <= index < table@.len() ==> #[trigger] table@[index] == run(index as u32, 1),
        decreases 256 - table.len(),
    {
        let start: u32 = table.len() as u32;
        let mut value: u32 = start;
        let mut bit: u32 = 0;
        while bit < 8
            invariant
                bit <= 8,
                value == bits_run(start, bit as nat),
            decreases 8 - bit,
        {
            value = if value & 1 == 0 {
                value >> 1
            } else {
                POLYNOMIAL ^ (value >> 1)
            };
            bit = bit + 1;
        }
        proof {
            reveal_with_fuel(run, 2);
        }
        table.push(value);
    }
    table
}

/// The tables, each derived from the one before it.
pub fn tables() -> (tables: Vec<Vec<u32>>)
    ensures
        are_tables(tables@),
{
    let mut tables: Vec<Vec<u32>> = Vec::with_capacity(SLICE);
    tables.push(build_table());
    while tables.len() < SLICE
        invariant
            1 <= tables@.len() <= SLICE,
            forall|n: int| 0 <= n < tables@.len() ==> (#[trigger] tables@[n])@.len() == 256,
            forall|n: int, index: int|
                0 <= n < tables@.len() && 0 <= index < 256 ==> #[trigger] tables@[n]@[index] == run(
                    index as u32,
                    (n + 1) as nat,
                ),
        decreases SLICE - tables.len(),
    {
        let last: usize = tables.len() - 1;
        let mut table: Vec<u32> = Vec::with_capacity(256);
        while table.len() < 256
            invariant
                table@.len() <= 256,
                last == tables@.len() - 1,
                forall|n: int| 0 <= n < tables@.len() ==> (#[trigger] tables@[n])@.len() == 256,
                forall|n: int, index: int|
                    0 <= n < tables@.len() && 0 <= index < 256 ==> #[trigger] tables@[n]@[index]
                        == run(index as u32, (n + 1) as nat),
                forall|index: int|
                    0 <= index < table@.len() ==> #[trigger] table@[index] == run(
                        index as u32,
                        (last + 2) as nat,
                    ),
            decreases 256 - table.len(),
        {
            let previous: u32 = tables[last][table.len()];
            assert(previous & 0xff < 256) by (bit_vector);
            let low: usize = (previous & 0xff) as usize;
            let entry: u32 = (previous >> 8) ^ tables[0][low];
            proof {
                reveal_with_fuel(run, 2);
                lemma_byte_run(previous);
                lemma_xor(byte_run(previous & 0xff), previous >> 8, 0);
            }
            table.push(entry);
        }
        tables.push(table);
    }
    tables
}

// ---------------------------------------------------------------------------
// The checksum itself.
// ---------------------------------------------------------------------------

/// An incremental checksum, for the writer that assembles a file from pieces
/// and would rather not concatenate them first.
#[derive(Debug, Clone)]
pub struct Crc32 {
    state: u32,
    tables: Vec<Vec<u32>>,
}

impl Crc32 {
    /// The state of everything fed in so far.
    pub closed spec fn state(&self) -> u32 {
        self.state
    }

    pub closed spec fn wf(&self) -> bool {
        are_tables(self.tables@)
    }

    /// Starts a new checksum.
    pub fn new() -> (crc: Self)
        ensures
            crc.wf(),
            crc.state() == 0xffff_ffff,
    {
        Crc32 { state: 0xffff_ffff, tables: tables() }
    }

    /// The state after sixteen bytes at once.
    fn block(&self, state: u32, bytes: &[u8], at: usize) -> (next: u32)
        requires
            self.wf(),
            at + SLICE <= bytes@.len(),
        ensures
            next == fed(state, bytes@.subrange(at as int, at + SLICE)),
    {
        assert(bytes.len() <= usize::MAX);
        // The state joins the first word and only the first word, which is the
        // whole trick. Everything after it is input the tables can be consulted
        // about without knowing what came before.
        let a: u32 = state ^ word(bytes, at);
        let b: u32 = word(bytes, at + 4);
        let c: u32 = word(bytes, at + 8);
        let d: u32 = word(bytes, at + 12);
        let first: u32 = self.four(12, a);
        let second: u32 = self.four(8, b);
        let third: u32 = self.four(4, c);
        let fourth: u32 = self.four(0, d);
        proof {
            let s1 = bytes@.subrange(at as int, at + 4);
            let s2 = bytes@.subrange(at + 4, at + 8);
            let s3 = bytes@.subrange(at + 8, at + 12);
            let s4 = bytes@.subrange(at + 12, at + 16);
            assert(bytes@.subrange(at as int, at + 16) =~= s1 + s2 + s3 + s4);
            law_pieces_are_the_whole(state, s1 + s2 + s3, s4);
            law_pieces_are_the_whole(state, s1 + s2, s3);
            law_pieces_are_the_whole(state, s1, s2);
            let one = run(a, 4);
            let two = run(one ^ b, 4);
            let three = run(two ^ c, 4);
            lemma_run_linear(one, b, 4);
            lemma_run_concat(a, 4, 4);
            lemma_run_linear(two, c, 4);
            lemma_run_linear(run(a, 8), run(b, 4), 4);
            lemma_run_concat(a, 8, 4);
            lemma_run_concat(b, 4, 4);
            lemma_run_linear(three, d, 4);
            lemma_run_linear(run(a, 12) ^ run(b, 8), run(c, 4), 4);
            lemma_run_linear(run(a, 12), run(b, 8), 4);
            lemma_run_concat(a, 12, 4);
            lemma_run_concat(b, 8, 4);
            lemma_run_concat(c, 4, 4);
        }
        first ^ second ^ third ^ fourth
    }

    /// What the four bytes of a word come to with `n` more bytes behind them.
    fn four(&self, n: usize, word: u32) -> (next: u32)
        requires
            self.wf(),
            n + 4 <= SLICE,
        ensures
            next == run(word, (n + 4) as nat),
    {
        assert(word & 0xff < 256 && (word >> 8) & 0xff < 256 && (word >> 16) & 0xff < 256 && word
            >> 24 < 256) by (bit_vector);
        proof {
            lemma_word(word, n as nat);
        }
        let a: usize = (word & 0xff) as usize;
        let b: usize = ((word >> 8) & 0xff) as usize;
        let c: usize = ((word >> 16) & 0xff) as usize;
        let d: usize = (word >> 24) as usize;
        self.tables[n + 3][a] ^ self.tables[n + 2][b] ^ self.tables[n + 1][c] ^ self.tables[n][d]
    }

    /// Feeds more bytes in.
    ///
    /// Sixteen bytes at a time while there are sixteen to be had, and one at a
    /// time for what is left over.
    pub fn update(&mut self, bytes: &[u8])
        requires
            old(self).wf(),
        ensures
            final(self).wf(),
            final(self).state() == fed(old(self).state(), bytes@),
    {
        let mut state: u32 = self.state;
        let mut at: usize = 0;
        assert(bytes@.take(0) =~= Seq::<u8>::empty());
        while bytes.len() - at >= SLICE
            invariant
                at <= bytes@.len(),
                self.wf(),
                *self == *old(self),
                state == fed(old(self).state(), bytes@.take(at as int)),
            decreases bytes.len() - at,
        {
            proof {
                let block = bytes@.subrange(at as int, at + SLICE);
                assert(bytes@.take(at + SLICE) =~= bytes@.take(at as int) + block);
                law_pieces_are_the_whole(old(self).state(), bytes@.take(at as int), block);
            }
            state = self.block(state, bytes, at);
            at = at + SLICE;
        }
        while at < bytes.len()
            invariant
                at <= bytes@.len(),
                self.wf(),
                *self == *old(self),
                state == fed(old(self).state(), bytes@.take(at as int)),
            decreases bytes.len() - at,
        {
            let byte: u32 = bytes[at] as u32;
            let joined: u32 = state ^ byte;
            let index: usize = (joined & 0xff) as usize;
            proof {
                assert(joined & 0xff < 256 && joined >> 8 == state >> 8) by (bit_vector)
                    requires
                        joined == state ^ byte,
                        byte < 256,
                ;
                assert(bytes@.take(at + 1).drop_last() =~= bytes@.take(at as int));
                reveal_with_fuel(run, 2);
                lemma_byte_run(joined);
            }
            state = self.tables[0][index] ^ (state >> 8);
            at = at + 1;
        }
        assert(bytes@.take(at as int) =~= bytes@);
        self.state = state;
    }

    /// Returns the checksum of everything fed in so far.
    ///
    /// The hasher can keep being used afterwards, which is what makes it
    /// possible to checksum a body and then keep appending to it.
    pub fn finish(&self) -> (checksum: u32)
        ensures
            checksum == !self.state(),
    {
        !self.state
    }
}

impl Default for Crc32 {
    fn default() -> (crc: Self)
        ensures
            crc.wf(),
            crc.state() == 0xffff_ffff,
    {
        Crc32::new()
    }
}

/// The four bytes at `at`, lowest first.
fn word(bytes: &[u8], at: usize) -> (word: u32)
    requires
        at + 4 <= bytes@.len(),
    ensures
        forall|state: u32| #[trigger]
            run(state ^ word, 4) == fed(state, bytes@.subrange(at as int, at + 4)),
{
    assert(bytes.len() <= usize::MAX);
    let word: u32 = bytes[at] as u32 | (bytes[at + 1] as u32) << 8 | (bytes[at + 2] as u32) << 16 | (
    bytes[at + 3] as u32) << 24;
    proof {
        let (a, b, c, d) = (
            bytes@[at as int],
            bytes@[at + 1],
            bytes@[at + 2],
            bytes@[at + 3],
        );
        assert(bytes@.subrange(at as int, at + 4) =~= seq![a, b, c, d]);
        assert forall|state: u32| #[trigger] run(state ^ word, 4) == fed(
            state,
            bytes@.subrange(at as int, at + 4),
        ) by {
            lemma_four(state, a, b, c, d, word);
        }
    }
    word
}

/// Computes the checksum of `bytes` in one call.
pub fn crc32(bytes: &[u8]) -> (checksum: u32)
    ensures
        checksum == checksum_of(bytes@),
{
    let mut hasher = Crc32::new();
    hasher.update(bytes);
    hasher.finish()
}

} // verus!

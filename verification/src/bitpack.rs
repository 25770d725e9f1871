//! Fixed width packing for the blocks a posting list is built from.
//!
//! Every value in a block gets the same number of bits, the width is chosen once
//! for the block as the smallest that fits its largest value, and the position
//! of value `n` is arithmetic rather than something to be discovered.
//!
//! # The layout
//!
//! The values are not laid end to end. The block is cut into lanes, lane `l`
//! holding values `l`, `l + LANES`, `l + 2 * LANES` and so on, and the packed
//! words are interleaved so that the words the lanes are reading at any one
//! moment sit next to each other. A lane holds 32 values, and 32 values at any
//! width from one bit to thirty two is a whole number of 32 bit words, so nothing
//! hangs over the end of a lane.
//!
//! The gaps are what compress, so the gaps are what is stored, and turning them
//! back into ids is a running sum. There is one sum per lane: value `n` is the
//! difference from value `n - LANES` rather than from value `n - 1`.
//!
//! # Width and canonical form
//!
//! [`pack`] always chooses the smallest width the block's values fit in, so one
//! block of values has one encoding.
use crate::codec::{short, split_at};
use crate::error::{Error, Result};
use vstd::arithmetic::div_mod::lemma_fundamental_div_mod_converse;
use vstd::prelude::*;
use vstd::std_specs::bits::{axiom_u32_leading_zeros, u32_leading_zeros};

verus! {

/// How many values one packed block holds.
pub const BLOCK: usize = 128;

/// How many values are decoded side by side.
pub const LANES: usize = 4;

/// How many steps a block takes at four values a step.
pub const STEPS: usize = 32;

/// The widest a value can be packed at.
pub const MAX_WIDTH: u32 = 32;

/// Whether bit `j` of a value is set.
pub open spec fn set(value: u32, j: int) -> bool {
    0 <= j < 32 && (value >> (j as u32)) & 1 == 1
}

/// Bit `b` of packed word `q`, the words being little endian.
pub open spec fn word_bit(bytes: Seq<u8>, q: int, b: int) -> bool {
    set(bytes[4 * q + b / 8] as u32, b % 8)
}

/// Bit `p` of a lane, the words of the lanes being interleaved.
pub open spec fn lane_bit(bytes: Seq<u8>, lane: int, p: int) -> bool {
    word_bit(bytes, 4 * (p / 32) + lane, p % 32)
}

/// Bit `p` of a lane of values laid end to end.
pub open spec fn stream(values: Seq<u32>, width: int, lane: int, p: int) -> bool {
    set(values[4 * (p / width) + lane], p % width)
}

/// The bytes of a block at a width.
pub open spec fn is_packed(values: Seq<u32>, width: int, bytes: Seq<u8>) -> bool {
    &&& bytes.len() == 16 * width
    &&& forall|lane: int, p: int|
        0 <= lane < 4 && 0 <= p < 32 * width ==> #[trigger] lane_bit(bytes, lane, p) == stream(
            values,
            width,
            lane,
            p,
        )
}

/// Value `n` as the bits of its lane give it.
pub open spec fn holds(bytes: Seq<u8>, width: int, n: int, value: u32) -> bool {
    forall|j: int|
        0 <= j < 32 ==> #[trigger] set(value, j) == (j < width && lane_bit(
            bytes,
            n % 4,
            (n / 4) * width + j,
        ))
}

/// Every value fits in `width` bits.
pub open spec fn fits(values: Seq<u32>, width: int) -> bool {
    forall|n: int, j: int| 0 <= n < values.len() && width <= j < 32 ==> !#[trigger] set(values[n], j)
}

/// The smallest width every value fits in, which is never nothing.
pub open spec fn is_width(values: Seq<u32>, width: int) -> bool {
    &&& 1 <= width <= 32
    &&& fits(values, width)
    &&& width == 1 || exists|n: int| 0 <= n < values.len() && #[trigger] set(values[n], width - 1)
}

/// The difference of each value from the one four positions before it, the first
/// four counting from `base`.
pub open spec fn deltas_of(values: Seq<u32>, base: u32) -> Seq<u32> {
    Seq::new(
        values.len(),
        |n: int|
            if n < LANES {
                wrapped(values[n] - base)
            } else {
                wrapped(values[n] - values[n - LANES])
            },
    )
}

/// The running sum of each lane.
pub open spec fn summed(deltas: Seq<u32>, base: u32, n: int) -> u32
    decreases n,
{
    if n < LANES {
        wrapped(base + deltas[n])
    } else {
        wrapped(summed(deltas, base, n - LANES) + deltas[n])
    }
}

/// A number as arithmetic that wraps has it.
pub open spec fn wrapped(value: int) -> u32 {
    (value % 0x1_0000_0000) as u32
}

// ---------------------------------------------------------------------------
// Bits.
// ---------------------------------------------------------------------------

proof fn lemma_shifts(value: u32, k: int, j: int)
    requires
        0 <= k < 32,
        0 <= j < 32,
    ensures
        set(value >> (k as u32), j) == (j + k < 32 && set(value, j + k)),
        set(value << (k as u32), j) == (j >= k && set(value, j - k)),
{
    let a = k as u32;
    let b = j as u32;
    assert((((value >> a) >> b) & 1 == 1) == (a + b < 32 && (value >> ((a + b) as u32)) & 1 == 1)
        && (((value << a) >> b) & 1 == 1) == (b >= a && (value >> ((b - a) as u32)) & 1 == 1))
        by (bit_vector)
        requires
            a < 32,
            b < 32,
    ;
    if j + k < 32 {
        assert((a + b) as u32 == (j + k) as u32);
    }
    if j >= k {
        assert((b - a) as u32 == (j - k) as u32);
    }
}

proof fn lemma_ops(a: u32, b: u32, width: int, j: int)
    requires
        0 <= j < 32,
    ensures
        set(a | b, j) == (set(a, j) || set(b, j)),
        !set(0, j),
        1 <= width < 32 ==> (1u32 << (width as u32)) >= 1 && set(
            a & (((1u32 << (width as u32)) - 1) as u32),
            j,
        ) == (j < width && set(a, j)),
{
    let k = j as u32;
    let w = width as u32;
    assert((((a | b) >> k) & 1 == 1) == ((a >> k) & 1 == 1 || (b >> k) & 1 == 1) && (0u32 >> k) & 1
        == 0 && (1 <= w < 32 ==> (1u32 << w) >= 1 && (((a & (((1u32 << w) - 1) as u32)) >> k) & 1
        == 1) == (k < w && (a >> k) & 1 == 1))) by (bit_vector)
        requires
            k < 32,
    ;
}

/// Values with the same bits are the same.
proof fn lemma_same(a: u32, b: u32)
    requires
        forall|j: int| 0 <= j < 32 ==> set(a, j) == #[trigger] set(b, j),
    ensures
        a == b,
{
    let x = a ^ b;
    axiom_u32_leading_zeros(x);
    if x != 0 {
        let k = (31 - u32_leading_zeros(x)) as u32;
        assert(set(a, k as int) == set(b, k as int));
        assert(((a >> k) & 1 == 1) != ((b >> k) & 1 == 1)) by (bit_vector)
            requires
                x == a ^ b,
                k < 32,
                (x >> k) & 1 != 0,
        ;
    } else {
        assert(a == b) by (bit_vector)
            requires
                a ^ b == 0u32,
        ;
    }
}

/// The bytes of a word hold its bits, lowest first.
proof fn lemma_bytes(word: u32, a: u8, b: u8, c: u8, d: u8, j: int)
    requires
        0 <= j < 32,
        ({
            ||| a == (word & 0xff) as u8 && b == ((word >> 8) & 0xff) as u8 && c == ((word >> 16)
                & 0xff) as u8 && d == ((word >> 24) & 0xff) as u8
            ||| word == a as u32 | (b as u32) << 8 | (c as u32) << 16 | (d as u32) << 24
        }),
    ensures
        set(word, j) == set(seq![a, b, c, d][j / 8] as u32, j % 8),
{
    let k = j as u32;
    let i = (j % 8) as u32;
    let byte = seq![a, b, c, d][j / 8];
    assert(((word >> k) & 1 == 1) == (((byte as u32) >> i) & 1 == 1)) by (bit_vector)
        requires
            k < 32,
            i == k % 8,
            k < 8 ==> byte == a,
            8 <= k < 16 ==> byte == b,
            16 <= k < 24 ==> byte == c,
            24 <= k ==> byte == d,
            (a == (word & 0xff) as u8 && b == ((word >> 8) & 0xff) as u8 && c == ((word >> 16)
                & 0xff) as u8 && d == ((word >> 24) & 0xff) as u8) || word == a as u32 | (b as u32)
                << 8 | (c as u32) << 16 | (d as u32) << 24,
    ;
}

/// Where bit `j` of step `step` is.
proof fn lemma_place(step: int, j: int, width: int)
    requires
        0 <= step,
        0 <= j < width,
    ensures
        (step * width + j) / width == step,
        (step * width + j) % width == j,
{
    lemma_fundamental_div_mod_converse(step * width + j, width, step, j);
}

// ---------------------------------------------------------------------------
// Laws.
// ---------------------------------------------------------------------------

/// A block read back at the width it was packed at is the block, whatever
/// follows it.
pub proof fn law_packing_round_trip(
    values: Seq<u32>,
    width: int,
    bytes: Seq<u8>,
    rest: Seq<u8>,
    n: int,
    value: u32,
)
    requires
        values.len() == BLOCK,
        1 <= width <= 32,
        fits(values, width),
        is_packed(values, width, bytes),
        0 <= n < BLOCK,
        holds(bytes + rest, width, n, value),
    ensures
        value == values[n],
{
    assert forall|j: int| 0 <= j < 32 implies set(value, j) == #[trigger] set(values[n], j) by {
        if j < width {
            let step = n / 4;
            let p = step * width + j;
            lemma_place(step, j, width);
            assert(p < 32 * width) by (nonlinear_arith)
                requires
                    step <= 31,
                    0 < width,
                    p == step * width + j,
                    j < width,
            ;
            assert(0 <= p) by (nonlinear_arith)
                requires
                    0 <= step,
                    0 <= width,
                    0 <= j,
                    p == step * width + j,
            ;
            assert(lane_bit(bytes, n % 4, p) == stream(values, width, n % 4, p));
            assert((bytes + rest)[4 * (4 * (p / 32) + n % 4) + (p % 32) / 8] == bytes[4 * (4 * (p
                / 32) + n % 4) + (p % 32) / 8]);
            assert(lane_bit(bytes + rest, n % 4, p) == lane_bit(bytes, n % 4, p));
            assert(set(value, j) == (j < width && lane_bit(bytes + rest, n % 4, (n / 4) * width
                + j)));
        } else {
            assert(!set(values[n], j));
        }
    }
    lemma_same(value, values[n]);
}

/// Where the bits of a value are: value `n` of a block is in lane `n % 4`, its bits one
/// behind another from bit `n / 4` times the width of the lane on, and the words of the
/// four lanes take turns, each with its lowest byte first.
pub proof fn law_where_the_bits_of_a_value_are(
    values: Seq<u32>,
    width: int,
    bytes: Seq<u8>,
    n: int,
    j: int,
)
    requires
        values.len() == 128,
        1 <= width <= 32,
        is_packed(values, width, bytes),
        0 <= n < 128,
        0 <= j < width,
    ensures
        bytes.len() == 16 * width,
        ({
            let p = (n / 4) * width + j;
            let byte = bytes[16 * (p / 32) + 4 * (n % 4) + (p % 32) / 8];
            (byte as u32 >> ((p % 8) as u32)) & 1 == 1 <==> (values[n] >> (j as u32)) & 1 == 1
        }),
{
    let step = n / 4;
    let p = step * width + j;
    lemma_place(step, j, width);
    assert(0 <= p < 32 * width) by (nonlinear_arith)
        requires
            0 <= step <= 31,
            0 < width,
            p == step * width + j,
            0 <= j < width,
    ;
    assert(lane_bit(bytes, n % 4, p) == stream(values, width, n % 4, p));
    assert(4 * step + n % 4 == n);
    assert((p % 32) % 8 == p % 8);
}

/// What is stored of a value is how far it is from the one four before it, or from the
/// base where there is none, as arithmetic that wraps has it.
pub proof fn law_a_difference_is_from_four_before(values: Seq<u32>, base: u32, n: int)
    requires
        0 <= n < values.len(),
    ensures
        deltas_of(values, base).len() == values.len(),
        ({
            let from = if n < 4 {
                base
            } else {
                values[n - 4]
            };
            let apart = deltas_of(values, base)[n];
            values[n] == from + apart || values[n] + 0x1_0000_0000 == from + apart
        }),
{
}

/// One block of values has one encoding.
pub proof fn law_packing_is_canonical(values: Seq<u32>, width: int, a: Seq<u8>, b: Seq<u8>)
    requires
        1 <= width <= 32,
        is_packed(values, width, a),
        is_packed(values, width, b),
    ensures
        a == b,
{
    assert forall|i: int| 0 <= i < a.len() implies a[i] == b[i] by {
        let q = i / 4;
        let lane = q % 4;
        assert forall|j: int| 0 <= j < 32 implies set(a[i] as u32, j) == #[trigger] set(
            b[i] as u32,
            j,
        ) by {
            if j < 8 {
                let p = 32 * (q / 4) + 8 * (i % 4) + j;
                assert(lane_bit(a, lane, p) == stream(values, width, lane, p));
                assert(lane_bit(b, lane, p) == stream(values, width, lane, p));
            } else {
                let (x, y, k) = (a[i], b[i], j as u32);
                assert(((x as u32) >> k) & 1 == 0 && ((y as u32) >> k) & 1 == 0) by (bit_vector)
                    requires
                        8 <= k < 32,
                ;
            }
        }
        lemma_same(a[i] as u32, b[i] as u32);
    }
    assert(a =~= b);
}

/// One set of values has one width.
pub proof fn law_width_is_unique(values: Seq<u32>, a: int, b: int)
    requires
        is_width(values, a),
        is_width(values, b),
    ensures
        a == b,
{
    if a < b {
        let n = choose|n: int| 0 <= n < values.len() && #[trigger] set(values[n], b - 1);
        assert(!set(values[n], b - 1));
    } else if b < a {
        let n = choose|n: int| 0 <= n < values.len() && #[trigger] set(values[n], a - 1);
        assert(!set(values[n], a - 1));
    }
}

/// The running sums undo the differences.
pub proof fn law_sums_undo_differences(values: Seq<u32>, base: u32, n: int)
    requires
        0 <= n < values.len(),
    ensures
        summed(deltas_of(values, base), base, n) == values[n],
    decreases n,
{
    if n >= LANES {
        law_sums_undo_differences(values, base, n - LANES);
    }
}

/// What [`pack`] took is what [`unpack`] gives back under the same base, whatever
/// follows the block.
pub proof fn law_unpack_gives_back_what_pack_took(
    values: Seq<u32>,
    base: u32,
    width: int,
    bytes: Seq<u8>,
    rest: Seq<u8>,
    flat: Seq<u32>,
    n: int,
)
    requires
        values.len() == BLOCK,
        is_width(deltas_of(values, base), width),
        is_packed(deltas_of(values, base), width, bytes),
        deltas_read(bytes + rest, width, flat),
        0 <= n < BLOCK,
    ensures
        summed(flat, base, n) == values[n],
{
    let deltas = deltas_of(values, base);
    assert forall|k: int| 0 <= k <= n implies #[trigger] flat[k] == deltas[k] by {
        law_packing_round_trip(deltas, width, bytes, rest, k, flat[k]);
    }
    lemma_summed_same(flat, deltas, base, n);
    law_sums_undo_differences(values, base, n);
}

// ---------------------------------------------------------------------------
// Writing.
// ---------------------------------------------------------------------------

/// How many bytes [`pack`] writes for a block at `width`.
///
/// Always a whole number of four byte words, which is what lets a block be read
/// without regard to where the one before it ended.
pub fn packed_len(width: u32) -> (len: usize)
    requires
        16 * width <= usize::MAX,
    ensures
        len == 16 * width,
{
    width as usize * 16
}

/// Packs one block of ascending values and returns the width it used.
///
/// `base` is the value the block counts from, which is the last value of the
/// block before it, or zero for the first block. Passing the wrong base produces
/// a block that decodes to different values rather than one that fails to
/// decode, so it is the caller's job to keep it.
pub fn pack(values: &[u32; BLOCK], base: u32, out: &mut Vec<u8>) -> (width: u32)
    ensures
        is_width(deltas_of(values@, base), width as int),
        final(out)@.len() == old(out)@.len() + 16 * width,
        final(out)@.take(old(out)@.len() as int) == old(out)@,
        is_packed(
            deltas_of(values@, base),
            width as int,
            final(out)@.skip(old(out)@.len() as int),
        ),
{
    lay(&deltas(values, base), out)
}

/// Packs one block of values as they are, without differencing, and returns the
/// width it used.
///
/// This is for the streams that run alongside a posting list and are not
/// ascending: term frequencies, positions counts, anything where value `n` says
/// nothing about value `n + 1`.
pub fn pack_flat(values: &[u32; BLOCK], out: &mut Vec<u8>) -> (width: u32)
    ensures
        is_width(values@, width as int),
        final(out)@.len() == old(out)@.len() + 16 * width,
        final(out)@.take(old(out)@.len() as int) == old(out)@,
        is_packed(values@, width as int, final(out)@.skip(old(out)@.len() as int)),
{
    lay(values, out)
}

/// Writes one block at the smallest width its values fit in.
fn lay(values: &[u32; BLOCK], out: &mut Vec<u8>) -> (width: u32)
    ensures
        is_width(values@, width as int),
        final(out)@.len() == old(out)@.len() + 16 * width,
        final(out)@.take(old(out)@.len() as int) == old(out)@,
        is_packed(values@, width as int, final(out)@.skip(old(out)@.len() as int)),
{
    let width: u32 = width_of(values);
    write_at(values, width, out);
    width
}

/// Writes one block at a width.
///
/// A word is worked out and written once rather than accumulated into: going from
/// the word to the values that reach it, each output word is written exactly once
/// and nothing has to be cleared first.
fn write_at(values: &[u32; BLOCK], width: u32, out: &mut Vec<u8>)
    requires
        1 <= width <= 32,
        fits(values@, width as int),
    ensures
        final(out)@.len() == old(out)@.len() + 16 * width,
        final(out)@.take(old(out)@.len() as int) == old(out)@,
        is_packed(values@, width as int, final(out)@.skip(old(out)@.len() as int)),
{
    let ghost start = out@;
    let words: usize = width as usize * LANES;
    let mut q: usize = 0;
    while q < words
        invariant
            q <= words,
            words == 4 * width,
            1 <= width <= 32,
            fits(values@, width as int),
            out@.len() == start.len() + 4 * q,
            out@.take(start.len() as int) == start,
            forall|k: int, b: int|
                0 <= k < q && 0 <= b < 32 ==> #[trigger] word_bit(
                    out@.skip(start.len() as int),
                    k,
                    b,
                ) == stream(values@, width as int, k % 4, 32 * (k / 4) + b),
        decreases words - q,
    {
        let ghost had = out@;
        let word: u32 = word_of(values, width, q / LANES, q % LANES);
        out.push((word & 0xff) as u8);
        out.push(((word >> 8) & 0xff) as u8);
        out.push(((word >> 16) & 0xff) as u8);
        out.push(((word >> 24) & 0xff) as u8);
        proof {
            let now = out@.skip(start.len() as int);
            let before = had.skip(start.len() as int);
            assert(out@.take(start.len() as int) =~= start) by {
                assert(out@.take(start.len() as int) =~= had.take(start.len() as int));
            }
            assert forall|k: int, b: int| 0 <= k < q + 1 && 0 <= b < 32 implies #[trigger] word_bit(
                now,
                k,
                b,
            ) == stream(values@, width as int, k % 4, 32 * (k / 4) + b) by {
                let at = 4 * k + b / 8;
                if k < q {
                    assert(now[at] == before[at]);
                    assert(word_bit(before, k, b) == word_bit(now, k, b));
                } else {
                    let bytes = seq![
                        (word & 0xff) as u8,
                        ((word >> 8) & 0xff) as u8,
                        ((word >> 16) & 0xff) as u8,
                        ((word >> 24) & 0xff) as u8,
                    ];
                    lemma_bytes(word, bytes[0], bytes[1], bytes[2], bytes[3], b);
                    assert(now[at] == bytes[b / 8]);
                    assert(set(word, b) == stream(values@, width as int, k % 4, 32 * (k / 4) + b));
                }
            }
        }
        q = q + 1;
    }
    proof {
        let bytes = out@.skip(start.len() as int);
        assert forall|lane: int, p: int| 0 <= lane < 4 && 0 <= p < 32 * width implies
            #[trigger] lane_bit(bytes, lane, p) == stream(values@, width as int, lane, p) by {
            let k = 4 * (p / 32) + lane;
            assert(k < 4 * width);
            assert(word_bit(bytes, k, p % 32) == stream(
                values@,
                width as int,
                k % 4,
                32 * (k / 4) + p % 32,
            ));
            assert(k % 4 == lane && k / 4 == p / 32);
        }
    }
}

/// One packed word of one lane.
fn word_of(values: &[u32; BLOCK], width: u32, word: usize, lane: usize) -> (packed: u32)
    requires
        1 <= width <= 32,
        word < width,
        lane < 4,
        fits(values@, width as int),
    ensures
        forall|b: int|
            0 <= b < 32 ==> #[trigger] set(packed, b) == stream(
                values@,
                width as int,
                lane as int,
                32 * word + b,
            ),
{
    let w: usize = width as usize;
    // The value the first bit of this word falls inside, and how much of it the
    // word before already took.
    let first: usize = 32 * word / w;
    proof {
        vstd::arithmetic::div_mod::lemma_fundamental_div_mod(32 * word as int, w as int);
        vstd::arithmetic::div_mod::lemma_mod_bound(32 * word as int, w as int);
        assert(w * first == first * w) by (nonlinear_arith);
        assert(first < 32) by (nonlinear_arith)
            requires
                first * w <= 32 * word,
                word < w,
        ;
    }
    let taken: u32 = (32 * word % w) as u32;
    let mut packed: u32 = values[first * LANES + lane] >> taken;
    let mut bit: u32 = width - taken;
    let mut step: usize = first + 1;
    proof {
        let v = values@[first * 4 + lane];
        assert forall|b: int| 0 <= b < 32 implies #[trigger] set(packed, b) == (b < bit && stream(
            values@,
            width as int,
            lane as int,
            32 * word + b,
        )) by {
            lemma_shifts(v, taken as int, b);
            if b < bit {
                lemma_place(first as int, taken + b, w as int);
                assert(first * w + (taken + b) == 32 * word + b);
            } else if taken + b < 32 {
                assert(!set(values@[first * 4 + lane], taken + b));
            }
        }
        assert(bit == step * w - 32 * word) by (nonlinear_arith)
            requires
                bit == width - taken,
                step == first + 1,
                first * w + taken == 32 * word,
                w == width,
        ;
    }
    // Whatever runs off the top of the word is what the next word starts with, so
    // the shift dropping it is the point rather than a thing to be guarded
    // against.
    while bit < 32 && step < STEPS
        invariant
            1 <= width <= 32,
            w == width,
            word < width,
            lane < 4,
            fits(values@, width as int),
            1 <= step <= 32,
            bit == step * w - 32 * word,
            bit < 64,
            forall|b: int|
                0 <= b < 32 ==> #[trigger] set(packed, b) == (b < bit && stream(
                    values@,
                    width as int,
                    lane as int,
                    32 * word + b,
                )),
        decreases 32 - step,
    {
        let ghost had = packed;
        let value: u32 = values[step * LANES + lane];
        packed = packed | (value << bit);
        proof {
            assert forall|b: int| 0 <= b < 32 implies #[trigger] set(packed, b) == (b < bit + width
                && stream(values@, width as int, lane as int, 32 * word + b)) by {
                lemma_ops(had, value << bit, 1, b);
                lemma_shifts(value, bit as int, b);
                assert(set(had, b) == (b < bit && stream(
                    values@,
                    width as int,
                    lane as int,
                    32 * word + b,
                )));
                if b >= bit {
                    if b - bit < width {
                        lemma_place(step as int, b - bit, w as int);
                        assert(step * w + (b - bit) == 32 * word + b);
                    } else {
                        assert(!set(values@[step * 4 + lane], b - bit));
                    }
                }
            }
            assert((step + 1) * w == step * w + w) by (nonlinear_arith);
        }
        bit = bit + width;
        step = step + 1;
    }
    proof {
        if step == 32 {
            assert(bit >= 32) by (nonlinear_arith)
                requires
                    bit == step * w - 32 * word,
                    step == 32,
                    word < w,
            ;
        }
    }
    packed
}

/// The difference of each value from the one four positions before it.
///
/// The first four count from `base`, which is what joins a block to the one in
/// front of it without storing an absolute value in every block.
fn deltas(values: &[u32; BLOCK], base: u32) -> (out: [u32; BLOCK])
    ensures
        out@ == deltas_of(values@, base),
{
    let mut out: [u32; BLOCK] = [0;BLOCK];
    let mut k: usize = 0;
    while k < BLOCK
        invariant
            k <= BLOCK,
            forall|n: int| 0 <= n < k ==> #[trigger] out@[n] == deltas_of(values@, base)[n],
        decreases BLOCK - k,
    {
        let from: u32 = if k < LANES {
            base
        } else {
            values[k - LANES]
        };
        out[k] = values[k].wrapping_sub(from);
        k = k + 1;
    }
    assert(out@ =~= deltas_of(values@, base));
    out
}

/// The smallest number of bits every value fits in, and one for a block of
/// nothing but zeroes, so that every block is decoded by the same path.
fn width_of(values: &[u32; BLOCK]) -> (width: u32)
    ensures
        is_width(values@, width as int),
{
    let mut all: u32 = 0;
    let mut k: usize = 0;
    proof {
        assert forall|j: int| 0 <= j < 32 implies !#[trigger] set(0, j) by {
            lemma_ops(0, 0, 1, j);
        }
    }
    while k < BLOCK
        invariant
            k <= BLOCK,
            forall|j: int|
                0 <= j < 32 ==> #[trigger] set(all, j) == exists|n: int|
                    0 <= n < k && #[trigger] set(values@[n], j),
        decreases BLOCK - k,
    {
        let ghost had = all;
        all = all | values[k];
        proof {
            assert forall|j: int| 0 <= j < 32 implies #[trigger] set(all, j) == exists|n: int|
                0 <= n < k + 1 && #[trigger] set(values@[n], j) by {
                lemma_ops(had, values@[k as int], 1, j);
                assert(set(had, j) == exists|n: int| 0 <= n < k && #[trigger] set(values@[n], j));
                if set(had, j) {
                    let n = choose|n: int| 0 <= n < k && #[trigger] set(values@[n], j);
                    assert(0 <= n < k + 1);
                }
                if set(values@[k as int], j) {
                    assert(0 <= k < k + 1 && set(values@[k as int], j));
                }
            }
        }
        k = k + 1;
    }
    let width: u32 = MAX_WIDTH - all.leading_zeros();
    proof {
        axiom_u32_leading_zeros(all);
        assert forall|n: int, j: int|
            0 <= n < values@.len() && width <= j < 32 implies !#[trigger] set(values@[n], j) by {
            assert((all >> (j as u32)) & 1 == 0);
            assert(!set(all, j));
        }
        if width > 0 {
            let top = (width - 1) as u32;
            assert((all >> top) & 1 != 0);
            assert((all >> top) & 1 == 0 || (all >> top) & 1 == 1) by (bit_vector);
            assert(set(all, width - 1));
        }
    }
    if width == 0 {
        return 1;
    }
    width
}

// ---------------------------------------------------------------------------
// Reading.
// ---------------------------------------------------------------------------

/// Unpacks one block, turning it back into ascending values.
///
/// `base` has to be the one [`pack`] was given. The values are written into `out`
/// rather than returned, so that a caller decoding a list of a thousand blocks
/// reuses one buffer instead of allocating a thousand times.
///
/// Reports [`Error::Overflow`] if `width` is nothing or above thirty two, and
/// [`Error::Truncated`] if `input` holds fewer bytes than that width needs.
pub fn unpack(input: &[u8], width: u32, base: u32, out: &mut [u32; BLOCK]) -> (read: Result<usize>)
    ensures
        if width == 0 || width > MAX_WIDTH {
            read matches Err(e) && e == Error::Overflow && final(out)@ == old(out)@
        } else if input@.len() < 16 * width {
            read matches Err(e) && e == short((16 * width) as nat, input@.len()) && final(out)@
                == old(out)@
        } else {
            &&& read matches Ok(n) && n == 16 * width
            &&& exists|flat: Seq<u32>|
                #![trigger deltas_read(input@, width as int, flat)]
                deltas_read(input@, width as int, flat) && forall|n: int|
                    0 <= n < BLOCK ==> #[trigger] final(out)@[n] == summed(flat, base, n)
        },
{
    if width == 0 || width > MAX_WIDTH {
        // Nothing here writes a zero width, because the packer spends a bit on an
        // all zero block rather than encode it as nothing. A reader that met one
        // and guessed would be the bug rather than the file.
        return Err(Error::Overflow);
    }
    match split_at(input, packed_len(width)) {
        Ok(_) => {},
        Err(error) => {
            return Err(error);
        },
    }
    let ghost mut flat = Seq::<u32>::empty();
    let mut n: usize = 0;
    while n < BLOCK
        invariant
            n <= BLOCK,
            1 <= width <= 32,
            input@.len() >= 16 * width,
            flat.len() == n,
            forall|k: int| 0 <= k < n ==> holds(input@, width as int, k, #[trigger] flat[k]),
            forall|k: int| 0 <= k < n ==> #[trigger] out@[k] == summed(flat, base, k),
        decreases BLOCK - n,
    {
        let value: u32 = value_at(input, width, n);
        // There is one running sum a lane, each one a chain of thirty two adds
        // rather than the one chain of a hundred and twenty eight that storing
        // adjacent gaps would have cost.
        let running: u32 = if n < LANES {
            base
        } else {
            out[n - LANES]
        };
        let ghost had = flat;
        proof {
            flat = flat.push(value);
        }
        out[n] = running.wrapping_add(value);
        proof {
            assert forall|k: int| 0 <= k < n + 1 implies #[trigger] out@[k] == summed(
                flat,
                base,
                k,
            ) by {
                if k < n {
                    lemma_summed_same(had, flat, base, k);
                } else if n >= LANES {
                    lemma_summed_same(had, flat, base, n - LANES);
                }
            }
        }
        n = n + 1;
    }
    assert(deltas_read(input@, width as int, flat));
    Ok(packed_len(width))
}

/// The values the bits of a block give.
pub open spec fn deltas_read(bytes: Seq<u8>, width: int, flat: Seq<u32>) -> bool {
    flat.len() == BLOCK && forall|n: int|
        0 <= n < BLOCK ==> holds(bytes, width, n, #[trigger] flat[n])
}

proof fn lemma_summed_same(a: Seq<u32>, b: Seq<u32>, base: u32, n: int)
    requires
        0 <= n < a.len(),
        n < b.len(),
        forall|k: int| 0 <= k <= n ==> #[trigger] a[k] == b[k],
    ensures
        summed(a, base, n) == summed(b, base, n),
    decreases n,
{
    if n >= LANES {
        lemma_summed_same(a, b, base, n - LANES);
    }
}

/// Unpacks one block written by [`pack_flat`], leaving the values as they are.
///
/// Reports what [`unpack`] does.
pub fn unpack_flat(input: &[u8], width: u32, out: &mut [u32; BLOCK]) -> (read: Result<usize>)
    ensures
        if width == 0 || width > MAX_WIDTH {
            read matches Err(e) && e == Error::Overflow && final(out)@ == old(out)@
        } else if input@.len() < 16 * width {
            read matches Err(e) && e == short((16 * width) as nat, input@.len()) && final(out)@
                == old(out)@
        } else {
            &&& read matches Ok(n) && n == 16 * width
            &&& deltas_read(input@, width as int, final(out)@)
        },
{
    if width == 0 || width > MAX_WIDTH {
        return Err(Error::Overflow);
    }
    match split_at(input, packed_len(width)) {
        Ok(_) => {},
        Err(error) => {
            return Err(error);
        },
    }
    let mut n: usize = 0;
    while n < BLOCK
        invariant
            n <= BLOCK,
            1 <= width <= 32,
            input@.len() >= 16 * width,
            forall|k: int| 0 <= k < n ==> holds(input@, width as int, k, #[trigger] out@[k]),
        decreases BLOCK - n,
    {
        out[n] = value_at(input, width, n);
        n = n + 1;
    }
    Ok(packed_len(width))
}

/// One value, unpacked.
fn value_at(input: &[u8], width: u32, n: usize) -> (value: u32)
    requires
        1 <= width <= 32,
        input@.len() >= 16 * width,
        n < BLOCK,
    ensures
        holds(input@, width as int, n as int, value),
{
    let step: usize = n / LANES;
    let lane: usize = n % LANES;
    let w: usize = width as usize;
    proof {
        assert(step * w + w <= 32 * w) by (nonlinear_arith)
            requires
                step <= 31,
        ;
        assert(step * w <= 1024) by (nonlinear_arith)
            requires
                step <= 31,
                w <= 32,
        ;
        assert(0 <= step * w) by (nonlinear_arith);
    }
    let bit: usize = step * w;
    let word: usize = bit / 32;
    let shift: u32 = (bit % 32) as u32;
    let low: u32 = word_at(input, word * LANES + lane);
    let mut value: u32 = low >> shift;
    proof {
        assert forall|j: int| 0 <= j < 32 implies #[trigger] set(value, j) == (shift + j < 32
            && set(low, shift + j)) by {
            lemma_shifts(low, shift as int, j);
        }
    }
    if shift + width > 32 {
        let high: u32 = word_at(input, (word + 1) * LANES + lane);
        let up: u32 = 32 - shift;
        let ghost part = value;
        value = value | (high << up);
        proof {
            assert forall|j: int| 0 <= j < 32 implies #[trigger] set(value, j) == if shift + j < 32 {
                set(low, shift + j)
            } else {
                set(high, shift + j - 32)
            } by {
                lemma_ops(part, high << up, 1, j);
                lemma_shifts(high, up as int, j);
                assert(set(part, j) == (shift + j < 32 && set(low, shift + j)));
            }
        }
    }
    let ghost whole = value;
    proof {
        assert forall|j: int| 0 <= j < width implies set(whole, j) == #[trigger] lane_bit(
            input@,
            lane as int,
            step * w + j,
        ) by {
            let p = step * w + j;
            if shift + j < 32 {
                assert(p / 32 == word && p % 32 == shift + j);
            } else {
                assert(p / 32 == word + 1 && p % 32 == shift + j - 32);
            }
        }
    }
    if width < MAX_WIDTH {
        proof {
            lemma_ops(value, 0, width as int, 0);
        }
        value = value & ((1u32 << width) - 1);
    }
    proof {
        assert forall|j: int| 0 <= j < 32 implies #[trigger] set(value, j) == (j < width
            && lane_bit(input@, n as int % 4, (n as int / 4) * width + j)) by {
            if width < MAX_WIDTH {
                lemma_ops(whole, 0, width as int, j);
            }
            if j < width {
                assert(set(whole, j) == lane_bit(input@, lane as int, step * w + j));
            }
        }
    }
    value
}

/// One packed word.
fn word_at(input: &[u8], q: usize) -> (word: u32)
    requires
        4 * q + 4 <= input@.len(),
    ensures
        forall|b: int|
            0 <= b < 32 ==> #[trigger] set(word, b) == word_bit(input@, q as int, b),
{
    assert(input.len() <= usize::MAX);
    let at: usize = 4 * q;
    let word: u32 = input[at] as u32 | (input[at + 1] as u32) << 8 | (input[at + 2] as u32) << 16 | (
    input[at + 3] as u32) << 24;
    proof {
        assert forall|b: int| 0 <= b < 32 implies #[trigger] set(word, b) == word_bit(
            input@,
            q as int,
            b,
        ) by {
            lemma_bytes(
                word,
                input@[at as int],
                input@[at + 1],
                input@[at + 2],
                input@[at + 3],
                b,
            );
        }
    }
    word
}

} // verus!

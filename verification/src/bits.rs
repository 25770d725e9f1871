//! The bits of a machine word.
use crate::count::{count, lemma_count_bound, lemma_count_shift, lemma_count_split};
use vstd::prelude::*;
use vstd::std_specs::bits::{
    axiom_u64_leading_zeros, axiom_u64_trailing_zeros, u64_leading_zeros, u64_trailing_zeros,
};

verus! {

/// Whether bit `i` of `word` is set.
pub open spec fn bit(word: u64, i: int) -> bool {
    0 <= i < 64 && (word >> (i as u64)) & 1 == 1
}

/// The bits of a word as a predicate.
pub open spec fn bits_of(word: u64) -> spec_fn(int) -> bool {
    |i: int| bit(word, i)
}

/// How many bits of `word` are set.
pub open spec fn ones(word: u64) -> nat
    decreases word,
{
    if word == 0 {
        0
    } else {
        (word % 2) as nat + ones(word / 2)
    }
}

/// The number whose `n` low bits are `f(lo)`, `f(lo + 1)` and so on.
pub open spec fn bits_value(f: spec_fn(int) -> bool, lo: int, n: nat) -> nat
    decreases n,
{
    if n == 0 {
        0
    } else {
        (if f(lo) {
            1nat
        } else {
            0nat
        }) + 2 * bits_value(f, lo + 1, (n - 1) as nat)
    }
}

/// The standard library's population count, `u64::count_ones`: the number of
/// ones in the binary representation.
pub assume_specification[ u64::count_ones ](word: u64) -> (n: u32)
    ensures
        n == ones(word),
;

pub proof fn lemma_bit_ops(a: u64, b: u64, i: int)
    requires
        0 <= i < 64,
    ensures
        bit(a & b, i) == (bit(a, i) && bit(b, i)),
        bit(a | b, i) == (bit(a, i) || bit(b, i)),
        bit(a & !b, i) == (bit(a, i) && !bit(b, i)),
        bit(u64::MAX, i),
        !bit(0, i),
{
    let k = i as u64;
    assert(k < 64 ==> {
        &&& (((a & b) >> k) & 1 == 1) == ((a >> k) & 1 == 1 && (b >> k) & 1 == 1)
        &&& (((a | b) >> k) & 1 == 1) == ((a >> k) & 1 == 1 || (b >> k) & 1 == 1)
        &&& (((a & !b) >> k) & 1 == 1) == ((a >> k) & 1 == 1 && !((b >> k) & 1 == 1))
        &&& (0xffff_ffff_ffff_ffffu64 >> k) & 1 == 1
        &&& !((0u64 >> k) & 1 == 1)
    }) by (bit_vector);
}

/// The word with only bit `at` set, and the words with every bit from `at` up,
/// or every bit up to `at`.
pub proof fn lemma_bit_masks(at: int, i: int)
    requires
        0 <= at < 64,
        0 <= i < 64,
    ensures
        bit(1u64 << (at as u64), i) == (i == at),
        bit(u64::MAX << (at as u64), i) == (i >= at),
        at < 63 ==> (1u64 << ((at + 1) as u64)) >= 1 && bit(
            ((1u64 << ((at + 1) as u64)) - 1) as u64,
            i,
        ) == (i <= at),
{
    let k = i as u64;
    let a = at as u64;
    assert(k < 64 && a < 64 ==> {
        &&& (((1u64 << a) >> k) & 1 == 1) == (k == a)
        &&& (((0xffff_ffff_ffff_ffffu64 << a) >> k) & 1 == 1) == (k >= a)
    }) by (bit_vector);
    if at < 63 {
        let b = (at + 1) as u64;
        assert(k < 64 && b < 64 && b > 0 ==> {
            &&& (1u64 << b) >= 1
            &&& (((((1u64 << b) - 1) as u64) >> k) & 1 == 1) == (k < b)
        }) by (bit_vector);
    }
}

/// Bits of a word moved up by one, and the top bit brought to the bottom.
pub proof fn lemma_bit_shifts(a: u64, i: int)
    requires
        0 <= i < 64,
    ensures
        bit(a << 1, i) == (i > 0 && bit(a, i - 1)),
        bit(a >> 63, i) == (i == 0 && bit(a, 63)),
{
    let k = i as u64;
    assert(k < 64 ==> {
        &&& (((a << 1) >> k) & 1 == 1) == (k > 0 && (a >> ((k - 1) as u64)) & 1 == 1)
        &&& (((a >> 63) >> k) & 1 == 1) == (k == 0 && (a >> 63) & 1 == 1)
    }) by (bit_vector);
    if i > 0 {
        assert((k - 1) as u64 == (i - 1) as u64);
    }
}

pub proof fn lemma_bit_half(a: u64, i: int)
    requires
        0 <= i < 64,
    ensures
        bit(a, 0) == (a % 2 == 1),
        bit(a / 2, i) == bit(a, i + 1),
{
    let k = i as u64;
    assert(k < 64 ==> {
        &&& ((a >> 0) & 1 == 1) == (a % 2 == 1)
        &&& (((a / 2) >> k) & 1 == 1) == (k < 63 && (a >> ((k + 1) as u64)) & 1 == 1)
    }) by (bit_vector);
    if i < 63 {
        assert((k + 1) as u64 == (i + 1) as u64);
    }
}

/// A word that is not zero has a lowest bit, and taking one from the word and
/// keeping what both have clears that bit alone.
pub proof fn lemma_lowest(word: u64, i: int)
    requires
        word != 0,
        0 <= i < 64,
    ensures
        u64_trailing_zeros(word) < 64,
        bit(word, u64_trailing_zeros(word) as int),
        i < u64_trailing_zeros(word) ==> !bit(word, i),
        bit(word & (word - 1) as u64, i) == (bit(word, i) && i != u64_trailing_zeros(word)),
{
    axiom_u64_trailing_zeros(word);
    let t = u64_trailing_zeros(word) as u64;
    let k = i as u64;
    assert(k < 64 && t < 64 && word != 0 && (word >> t) & 1 == 1 && (t == 0 || word << ((64 - t)
        as u64) == 0) ==> (((word & ((word - 1) as u64)) >> k) & 1 == 1) == ((word >> k) & 1 == 1
        && k != t)) by (bit_vector);
    if t > 0 {
        assert((64 - t) as u64 == 64 - t);
    }
}

/// A word that is not zero has a highest bit.
pub proof fn lemma_highest(word: u64, i: int)
    requires
        word != 0,
        0 <= i < 64,
    ensures
        u64_leading_zeros(word) < 64,
        bit(word, 63 - u64_leading_zeros(word) as int),
        i > 63 - u64_leading_zeros(word) ==> !bit(word, i),
{
    axiom_u64_leading_zeros(word);
    let z = u64_leading_zeros(word) as u64;
    let h = (63 - z) as u64;
    let k = i as u64;
    if i > h {
        assert((word >> k) & 1 == 0);
    }
    assert((word >> h) & 1 != 0 ==> (word >> h) & 1 == 1) by (bit_vector);
}

pub proof fn lemma_zero_bits(word: u64)
    ensures
        word == 0 <==> forall|i: int| 0 <= i < 64 ==> !bit(word, i),
{
    if word != 0 {
        lemma_lowest(word, 0);
    } else {
        assert forall|i: int| 0 <= i < 64 implies !bit(word, i) by {
            lemma_bit_ops(0, 0, i);
        }
    }
}

/// A word has as many ones as it has bits set.
pub proof fn lemma_ones(word: u64)
    ensures
        ones(word) == count(bits_of(word), 0, 64),
        ones(word) <= 64,
{
    lemma_ones_below(word, 64);
    lemma_count_bound(bits_of(word), 0, 64);
}

proof fn lemma_ones_below(word: u64, n: nat)
    requires
        n <= 64,
        forall|i: int| n <= i < 64 ==> !bit(word, i),
    ensures
        ones(word) == count(bits_of(word), 0, n as int),
    decreases n,
{
    let f = bits_of(word);
    if n == 0 {
        lemma_zero_bits(word);
    } else {
        let half = (word / 2) as u64;
        let g = bits_of(half);
        assert forall|i: int| n - 1 <= i < 64 implies !bit(half, i) by {
            lemma_bit_half(word, i);
        }
        lemma_ones_below(half, (n - 1) as nat);
        assert forall|i: int| 0 <= i < n - 1 implies #[trigger] g(i) == f(i + 1) by {
            lemma_bit_half(word, i);
        }
        lemma_count_shift(g, f, 0, n - 1, 1);
        lemma_count_split(f, 0, 1, n as int);
        lemma_bit_half(word, 0);
        assert(count(f, 0, 1) == word % 2) by {
            assert(count(f, 0, 0) == 0);
        }
    }
}

proof fn lemma_bits_value_below(word: u64, n: nat)
    requires
        n <= 64,
        forall|i: int| n <= i < 64 ==> !bit(word, i),
    ensures
        bits_value(bits_of(word), 0, n) == word,
    decreases n,
{
    if n == 0 {
        lemma_zero_bits(word);
    } else {
        let half = (word / 2) as u64;
        assert forall|i: int| n - 1 <= i < 64 implies !bit(half, i) by {
            lemma_bit_half(word, i);
        }
        lemma_bits_value_below(half, (n - 1) as nat);
        assert forall|i: int| 0 <= i < n - 1 implies #[trigger] bits_of(half)(i) == bits_of(word)(
            i + 1,
        ) by {
            lemma_bit_half(word, i);
        }
        lemma_bits_value_shift(bits_of(half), 0, bits_of(word), 1, (n - 1) as nat);
        lemma_bit_half(word, 0);
    }
}

/// Predicates that agree bit for bit make the same number.
pub proof fn lemma_bits_value_shift(
    f: spec_fn(int) -> bool,
    a: int,
    g: spec_fn(int) -> bool,
    b: int,
    n: nat,
)
    requires
        forall|i: int| a <= i < a + n ==> #[trigger] f(i) == g(i + (b - a)),
    ensures
        bits_value(f, a, n) == bits_value(g, b, n),
    decreases n,
{
    if n > 0 {
        assert(f(a) == g(a + (b - a)));
        lemma_bits_value_shift(f, a + 1, g, b + 1, (n - 1) as nat);
    }
}

/// A word whose bits are those of a stretch of a predicate is the number the
/// stretch makes.
pub proof fn lemma_bits_value(word: u64, f: spec_fn(int) -> bool, lo: int)
    requires
        forall|i: int| 0 <= i < 64 ==> #[trigger] bit(word, i) == f(lo + i),
    ensures
        bits_value(f, lo, 64) == word,
{
    lemma_bits_value_below(word, 64);
    assert forall|i: int| 0 <= i < 64 implies #[trigger] bits_of(word)(i) == f(i + (lo - 0)) by {
        assert(bit(word, i) == f(lo + i));
    }
    lemma_bits_value_shift(bits_of(word), 0, f, lo, 64);
}

/// The bits of the number that a stretch of a predicate makes are that stretch.
pub proof fn lemma_value_bits(f: spec_fn(int) -> bool, lo: int, n: nat, i: int)
    requires
        n <= 64,
        0 <= i < n,
    ensures
        bits_value(f, lo, n) <= u64::MAX,
        bit(bits_value(f, lo, n) as u64, i) == f(lo + i),
{
    lemma_value_bits_bound(f, lo, n);
    lemma_value_bits_at(f, lo, n, i);
}

proof fn lemma_value_bits_bound(f: spec_fn(int) -> bool, lo: int, n: nat)
    requires
        n <= 64,
    ensures
        bits_value(f, lo, n) < vstd::arithmetic::power2::pow2(n),
        vstd::arithmetic::power2::pow2(n) <= u64::MAX + 1,
    decreases n,
{
    vstd::arithmetic::power2::lemma2_to64();
    vstd::arithmetic::power2::lemma2_to64_rest();
    if n > 0 {
        lemma_value_bits_bound(f, lo + 1, (n - 1) as nat);
        vstd::arithmetic::power2::lemma_pow2_unfold(n);
    }
    if n < 64 {
        vstd::arithmetic::power2::lemma_pow2_strictly_increases(n, 64);
    }
}

proof fn lemma_value_bits_at(f: spec_fn(int) -> bool, lo: int, n: nat, i: int)
    requires
        n <= 64,
        0 <= i < n,
    ensures
        bit(bits_value(f, lo, n) as u64, i) == f(lo + i),
    decreases n,
{
    lemma_value_bits_bound(f, lo, n);
    lemma_value_bits_bound(f, lo + 1, (n - 1) as nat);
    let v = bits_value(f, lo, n) as u64;
    let rest = bits_value(f, lo + 1, (n - 1) as nat);
    assert(v / 2 == rest);
    if i == 0 {
        lemma_bit_half(v, 0);
    } else {
        lemma_bit_half(v, i - 1);
        lemma_value_bits_at(f, lo + 1, (n - 1) as nat, i - 1);
    }
}

} // verus!

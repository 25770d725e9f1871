//! A chunk held as one bit per ordinal.
use super::runs::{in_runs, runs_ok, Run};
use crate::bits::{
    bit, bits_of, lemma_bit_masks, lemma_bit_ops, lemma_bit_shifts, lemma_highest, lemma_ones,
    lemma_zero_bits, ones,
};
use crate::count::{
    count, lemma_count_bound, lemma_count_none, lemma_count_one_more, lemma_count_same,
    lemma_count_shift, lemma_count_split,
};
use vstd::prelude::*;

verus! {

/// Ordinals in a chunk.
pub const CHUNK: usize = 65536;

/// Words in a chunk held as bits.
pub const WORDS: usize = 1024;

/// The bits of a chunk, with how many of them are set.
#[derive(Debug)]
pub struct Words {
    pub bits: Vec<u64>,
    pub count: u32,
}

/// Whether the bit of `low` is set in the words `bits`.
pub open spec fn in_words(bits: Seq<u64>, low: int) -> bool {
    0 <= low < 65536 && bit(bits[low / 64], low % 64)
}

/// The words as a predicate on ordinals.
pub open spec fn words_set(bits: Seq<u64>) -> spec_fn(int) -> bool {
    |low: int| in_words(bits, low)
}

/// How many bits are set in the first `n` words.
pub open spec fn ones_before(bits: Seq<u64>, n: int) -> nat
    decreases n,
{
    if n <= 0 {
        0
    } else {
        ones_before(bits, n - 1) + ones(bits[n - 1])
    }
}

/// A stretch of ordinals starts at `low`: it is held and the one below is not.
pub open spec fn starts(f: spec_fn(int) -> bool) -> spec_fn(int) -> bool {
    |low: int| f(low) && !(low > 0 && f(low - 1))
}

proof fn lemma_ones_before(bits: Seq<u64>, n: int)
    requires
        0 <= n <= 1024,
    ensures
        ones_before(bits, n) == count(words_set(bits), 0, 64 * n),
    decreases n,
{
    if n > 0 {
        lemma_ones_before(bits, n - 1);
        lemma_ones(bits[n - 1]);
        let f = bits_of(bits[n - 1]);
        let g = words_set(bits);
        let by = 64 * (n - 1);
        assert forall|i: int| 0 <= i < 64 implies #[trigger] f(i) == g(i + by) by {
            assert((i + by) / 64 == n - 1);
            assert((i + by) % 64 == i);
        }
        lemma_count_shift(f, g, 0, 64, by);
        lemma_count_split(g, 0, by, 64 * n);
    }
}

proof fn lemma_ones_before_update(bits: Seq<u64>, at: int, word: u64, n: int)
    requires
        0 <= at < bits.len(),
        0 <= n <= bits.len(),
    ensures
        at < n ==> ones_before(bits.update(at, word), n) == ones_before(bits, n) - ones(bits[at])
            + ones(word),
        at >= n ==> ones_before(bits.update(at, word), n) == ones_before(bits, n),
    decreases n,
{
    if n > 0 {
        lemma_ones_before_update(bits, at, word, n - 1);
    }
}

/// The word holding `low` and the bit within it.
pub fn at(low: u16) -> (place: (usize, u64))
    ensures
        place.0 == low as int / 64,
        place.0 < 1024,
        place.1 == 1u64 << ((low as int % 64) as u64),
{
    let place: u64 = (low % 64) as u64;
    (low as usize / 64, 1u64 << place)
}

impl Words {
    /// The ordinals held.
    pub open spec fn set(&self) -> spec_fn(int) -> bool {
        words_set(self.bits@)
    }

    pub open spec fn wf(&self) -> bool {
        &&& self.bits@.len() == 1024
        &&& self.count == count(self.set(), 0, 65536)
    }

    pub fn empty() -> (words: Self)
        ensures
            words.wf(),
            words.count == 0,
            forall|x: int| !#[trigger] in_words(words.bits@, x),
    {
        let bits: Vec<u64> = vec![0u64; 1024];
        let words = Words { bits, count: 0 };
        proof {
            assert forall|x: int| !#[trigger] in_words(words.bits@, x) by {
                if 0 <= x < 65536 {
                    assert(words.bits@[x / 64] == 0);
                    lemma_bit_ops(0, 0, x % 64);
                }
            }
            lemma_count_none(words.set(), 0, 65536);
        }
        words
    }

    /// A second copy of the words.
    pub fn copy(&self) -> (words: Self)
        requires
            self.wf(),
        ensures
            words.wf(),
            words.bits@ == self.bits@,
            words.count == self.count,
    {
        Words { bits: vstd::slice::slice_to_vec(self.bits.as_slice()), count: self.count }
    }

    pub fn contains(&self, low: u16) -> (held: bool)
        requires
            self.bits@.len() == 1024,
        ensures
            held == in_words(self.bits@, low as int),
    {
        let (word, mask) = at(low);
        proof {
            lemma_masked(self.bits@[word as int], low as int % 64);
        }
        self.bits[word] & mask != 0
    }

    /// Sets the bit of `low` and reports whether it was not set.
    pub fn insert(&mut self, low: u16) -> (added: bool)
        requires
            old(self).wf(),
        ensures
            final(self).wf(),
            added == !in_words(old(self).bits@, low as int),
            forall|x: int|
                0 <= x < 65536 ==> (#[trigger] in_words(final(self).bits@, x) == (in_words(
                    old(self).bits@,
                    x,
                ) || x == low)),
    {
        let ghost before = self.bits@;
        let (word, mask) = at(low);
        proof {
            lemma_masked(before[word as int], low as int % 64);
        }
        let was: bool = self.bits[word] & mask != 0;
        let changed: u64 = self.bits[word] | mask;
        self.bits.set(word, changed);
        proof {
            assert forall|x: int| 0 <= x < 65536 implies #[trigger] in_words(self.bits@, x) == (
            in_words(before, x) || x == low) by {
                if x / 64 == word {
                    lemma_bit_ops(before[word as int], mask, x % 64);
                    lemma_bit_masks(low as int % 64, x % 64);
                    assert(x == 64 * (x / 64) + x % 64);
                    assert(low == 64 * (low as int / 64) + low as int % 64);
                }
            }
            let f = words_set(before);
            let g = words_set(self.bits@);
            lemma_count_bound(g, 0, 65536);
            assert forall|i: int| 0 <= i < 65536 && i != low implies #[trigger] f(i) == g(i) by {
                assert(in_words(self.bits@, i) == (in_words(before, i) || i == low));
            }
            assert(in_words(self.bits@, low as int));
            if !was {
                lemma_count_one_more(f, g, 0, 65536, low as int);
            } else {
                lemma_count_same(f, g, 0, 65536);
            }
        }
        if !was {
            self.count = self.count + 1;
        }
        !was
    }

    /// Clears the bit of `low` and reports whether it was set.
    pub fn remove(&mut self, low: u16) -> (removed: bool)
        requires
            old(self).wf(),
        ensures
            final(self).wf(),
            removed == in_words(old(self).bits@, low as int),
            forall|x: int|
                0 <= x < 65536 ==> (#[trigger] in_words(final(self).bits@, x) == (in_words(
                    old(self).bits@,
                    x,
                ) && x != low)),
    {
        let ghost before = self.bits@;
        let (word, mask) = at(low);
        proof {
            lemma_masked(before[word as int], low as int % 64);
        }
        let was: bool = self.bits[word] & mask != 0;
        let changed: u64 = self.bits[word] & !mask;
        self.bits.set(word, changed);
        proof {
            assert forall|x: int| 0 <= x < 65536 implies #[trigger] in_words(self.bits@, x) == (
            in_words(before, x) && x != low) by {
                if x / 64 == word {
                    lemma_bit_ops(before[word as int], mask, x % 64);
                    lemma_bit_masks(low as int % 64, x % 64);
                    assert(x == 64 * (x / 64) + x % 64);
                    assert(low == 64 * (low as int / 64) + low as int % 64);
                }
            }
            let f = words_set(before);
            let g = words_set(self.bits@);
            assert forall|i: int| 0 <= i < 65536 && i != low implies #[trigger] g(i) == f(i) by {
                assert(in_words(self.bits@, i) == (in_words(before, i) && i != low));
            }
            assert(!in_words(self.bits@, low as int));
            if was {
                lemma_count_one_more(g, f, 0, 65536, low as int);
            } else {
                lemma_count_same(f, g, 0, 65536);
            }
        }
        if was {
            self.count = self.count - 1;
        }
        was
    }

    /// Sets every bit of the run.
    pub fn fill(&mut self, run: Run)
        requires
            old(self).wf(),
            run.start <= run.last,
        ensures
            final(self).wf(),
            forall|x: int|
                0 <= x < 65536 ==> (#[trigger] in_words(final(self).bits@, x) == (in_words(
                    old(self).bits@,
                    x,
                ) || run.start <= x <= run.last)),
    {
        self.span(run, true);
    }

    /// Clears every bit of the run.
    pub fn clear(&mut self, run: Run)
        requires
            old(self).wf(),
            run.start <= run.last,
        ensures
            final(self).wf(),
            forall|x: int|
                0 <= x < 65536 ==> (#[trigger] in_words(final(self).bits@, x) == (in_words(
                    old(self).bits@,
                    x,
                ) && !(run.start <= x <= run.last))),
    {
        self.span(run, false);
    }

    /// Sets or clears every bit from `run.start` to `run.last`.
    ///
    /// The two ends are masked and everything between them is a whole word, so
    /// a run covering the chunk is a thousand word writes rather than sixty
    /// five thousand bit writes.
    fn span(&mut self, run: Run, set: bool)
        requires
            old(self).wf(),
            run.start <= run.last,
        ensures
            final(self).wf(),
            forall|x: int|
                0 <= x < 65536 ==> (#[trigger] in_words(final(self).bits@, x) == spanned(
                    old(self).bits@,
                    x,
                    run.start as int,
                    run.last as int,
                    set,
                )),
    {
        let ghost before = self.bits@;
        let first: usize = run.start as usize / 64;
        let low_bit: u64 = (run.start % 64) as u64;
        let last: usize = run.last as usize / 64;
        let high_bit: u64 = (run.last % 64) as u64;
        let ghost s = run.start as int;
        let ghost l = run.last as int;
        let low_mask: u64 = u64::MAX << low_bit;
        proof {
            if high_bit < 63 {
                lemma_bit_masks(high_bit as int, 0);
            }
            assert(s == 64 * (s / 64) + s % 64);
            assert(l == 64 * (l / 64) + l % 64);
        }
        let high_mask: u64 = if high_bit == 63 {
            u64::MAX
        } else {
            (1u64 << (high_bit + 1)) - 1
        };
        proof {
            assert forall|i: int| 0 <= i < 64 implies #[trigger] bit(low_mask, i) == (i >= s % 64)
                && bit(high_mask, i) == (i <= l % 64) by {
                lemma_bit_masks(low_bit as int, i);
                lemma_bit_masks(high_bit as int, i);
                lemma_bit_ops(0, 0, i);
            }
        }
        if first == last {
            self.apply(first, low_mask & high_mask, set);
            proof {
                assert forall|x: int| 0 <= x < 65536 implies #[trigger] in_words(self.bits@, x)
                    == spanned(before, x, s, l, set) by {
                    assert(x == 64 * (x / 64) + x % 64);
                    if x / 64 == first {
                        lemma_bit_ops(low_mask, high_mask, x % 64);
                        assert(bit(low_mask, x % 64) == (x % 64 >= s % 64));
                    }
                }
            }
            return;
        }
        self.apply(first, low_mask, set);
        proof {
            assert forall|x: int| 0 <= x < 65536 implies #[trigger] in_words(self.bits@, x)
                == spanned(before, x, s, 64 * (first + 1) - 1, set) by {
                assert(x == 64 * (x / 64) + x % 64);
                if x / 64 == first {
                    assert(bit(low_mask, x % 64) == (x % 64 >= s % 64));
                }
            }
        }
        let mut word: usize = first + 1;
        while word < last
            invariant
                first < word <= last < 1024,
                first == s / 64,
                self.wf(),
                forall|x: int|
                    0 <= x < 65536 ==> (#[trigger] in_words(self.bits@, x) == spanned(
                        before,
                        x,
                        s,
                        64 * word - 1,
                        set,
                    )),
            decreases last - word,
        {
            let ghost had = self.bits@;
            self.apply(word, u64::MAX, set);
            proof {
                assert forall|x: int| 0 <= x < 65536 implies #[trigger] in_words(self.bits@, x)
                    == spanned(before, x, s, 64 * (word + 1) - 1, set) by {
                    assert(x == 64 * (x / 64) + x % 64);
                    assert(in_words(had, x) == spanned(before, x, s, 64 * word - 1, set));
                    lemma_bit_ops(0, 0, x % 64);
                }
            }
            word = word + 1;
        }
        let ghost had = self.bits@;
        self.apply(last, high_mask, set);
        proof {
            assert forall|x: int| 0 <= x < 65536 implies #[trigger] in_words(self.bits@, x)
                == spanned(before, x, s, l, set) by {
                assert(x == 64 * (x / 64) + x % 64);
                assert(in_words(had, x) == spanned(before, x, s, 64 * last - 1, set));
                if x / 64 == last {
                    assert(bit(low_mask, x % 64) == (x % 64 >= s % 64));
                }
            }
        }
    }

    fn apply(&mut self, word: usize, mask: u64, set: bool)
        requires
            old(self).wf(),
            word < 1024,
        ensures
            final(self).wf(),
            forall|x: int|
                0 <= x < 65536 ==> (#[trigger] in_words(final(self).bits@, x) == if x / 64 == word
                    && bit(mask, x % 64) {
                    set
                } else {
                    in_words(old(self).bits@, x)
                }),
    {
        let before: u64 = self.bits[word];
        let after: u64 = if set {
            before | mask
        } else {
            before & !mask
        };
        proof {
            let new = self.bits@.update(word as int, after);
            lemma_ones_before(self.bits@, 1024);
            lemma_ones_before(new, 1024);
            lemma_ones_before_update(self.bits@, word as int, after, 1024);
            lemma_count_bound(words_set(self.bits@), 0, 65536);
            lemma_count_bound(words_set(new), 0, 65536);
            lemma_ones(before);
            lemma_ones(after);
            assert forall|x: int| 0 <= x < 65536 implies #[trigger] in_words(new, x) == if x / 64
                == word && bit(mask, x % 64) {
                set
            } else {
                in_words(self.bits@, x)
            } by {
                lemma_bit_ops(before, mask, x % 64);
            }
        }
        self.bits.set(word, after);
        self.count = self.count.wrapping_add(after.count_ones());
        self.count = self.count.wrapping_sub(before.count_ones());
    }

    /// Counts the bits again, after the words were changed as a whole.
    fn recount(&mut self)
        requires
            old(self).bits@.len() == 1024,
        ensures
            final(self).wf(),
            final(self).bits@ == old(self).bits@,
    {
        let mut total: u32 = 0;
        let mut word: usize = 0;
        while word < 1024
            invariant
                word <= 1024,
                self.bits@.len() == 1024,
                total == ones_before(self.bits@, word as int),
                total <= 64 * word,
                self.bits@ == old(self).bits@,
            decreases 1024 - word,
        {
            proof {
                lemma_ones(self.bits@[word as int]);
            }
            total = total + self.bits[word].count_ones();
            word = word + 1;
        }
        proof {
            lemma_ones_before(self.bits@, 1024);
        }
        self.count = total;
    }

    /// Builds the words from their values.
    pub fn from_bits(bits: Vec<u64>) -> (words: Self)
        requires
            bits@.len() == 1024,
        ensures
            words.wf(),
            words.bits@ == bits@,
    {
        let mut words = Words { bits, count: 0 };
        words.recount();
        words
    }

    /// Keeps what both hold.
    pub fn keep(&mut self, other: &Words)
        requires
            old(self).wf(),
            other.wf(),
        ensures
            final(self).wf(),
            forall|x: int|
                0 <= x < 65536 ==> (#[trigger] in_words(final(self).bits@, x) == (in_words(
                    old(self).bits@,
                    x,
                ) && in_words(other.bits@, x))),
    {
        let ghost before = self.bits@;
        let mut word: usize = 0;
        while word < 1024
            invariant
                word <= 1024,
                before.len() == 1024,
                other.bits@.len() == 1024,
                self.bits@.len() == 1024,
                forall|w: int| 0 <= w < word ==> self.bits@[w] == before[w] & other.bits@[w],
                forall|w: int| word <= w < 1024 ==> self.bits@[w] == before[w],
            decreases 1024 - word,
        {
            let changed: u64 = self.bits[word] & other.bits[word];
            self.bits.set(word, changed);
            word = word + 1;
        }
        proof {
            assert forall|x: int| 0 <= x < 65536 implies #[trigger] in_words(self.bits@, x) == (
            in_words(before, x) && in_words(other.bits@, x)) by {
                lemma_bit_ops(before[x / 64], other.bits@[x / 64], x % 64);
            }
        }
        self.recount();
    }

    /// Adds what the other holds.
    pub fn join(&mut self, other: &Words)
        requires
            old(self).wf(),
            other.wf(),
        ensures
            final(self).wf(),
            forall|x: int|
                0 <= x < 65536 ==> (#[trigger] in_words(final(self).bits@, x) == (in_words(
                    old(self).bits@,
                    x,
                ) || in_words(other.bits@, x))),
    {
        let ghost before = self.bits@;
        let mut word: usize = 0;
        while word < 1024
            invariant
                word <= 1024,
                before.len() == 1024,
                other.bits@.len() == 1024,
                self.bits@.len() == 1024,
                forall|w: int| 0 <= w < word ==> self.bits@[w] == before[w] | other.bits@[w],
                forall|w: int| word <= w < 1024 ==> self.bits@[w] == before[w],
            decreases 1024 - word,
        {
            let changed: u64 = self.bits[word] | other.bits[word];
            self.bits.set(word, changed);
            word = word + 1;
        }
        proof {
            assert forall|x: int| 0 <= x < 65536 implies #[trigger] in_words(self.bits@, x) == (
            in_words(before, x) || in_words(other.bits@, x)) by {
                lemma_bit_ops(before[x / 64], other.bits@[x / 64], x % 64);
            }
        }
        self.recount();
    }

    /// Takes away what the other holds.
    pub fn cut(&mut self, other: &Words)
        requires
            old(self).wf(),
            other.wf(),
        ensures
            final(self).wf(),
            forall|x: int|
                0 <= x < 65536 ==> (#[trigger] in_words(final(self).bits@, x) == (in_words(
                    old(self).bits@,
                    x,
                ) && !in_words(other.bits@, x))),
    {
        let ghost before = self.bits@;
        let mut word: usize = 0;
        while word < 1024
            invariant
                word <= 1024,
                before.len() == 1024,
                other.bits@.len() == 1024,
                self.bits@.len() == 1024,
                forall|w: int| 0 <= w < word ==> self.bits@[w] == before[w] & !other.bits@[w],
                forall|w: int| word <= w < 1024 ==> self.bits@[w] == before[w],
            decreases 1024 - word,
        {
            let changed: u64 = self.bits[word] & !other.bits[word];
            self.bits.set(word, changed);
            word = word + 1;
        }
        proof {
            assert forall|x: int| 0 <= x < 65536 implies #[trigger] in_words(self.bits@, x) == (
            in_words(before, x) && !in_words(other.bits@, x)) by {
                lemma_bit_ops(before[x / 64], other.bits@[x / 64], x % 64);
            }
        }
        self.recount();
    }

    /// The largest ordinal held, or nothing if none is.
    pub fn last(&self) -> (low: Option<u16>)
        requires
            self.wf(),
        ensures
            match low {
                Some(low) => in_words(self.bits@, low as int) && forall|x: int|
                    low < x < 65536 ==> !#[trigger] in_words(self.bits@, x),
                None => forall|x: int| !#[trigger] in_words(self.bits@, x),
            },
    {
        let mut word: usize = 1024;
        while word > 0
            invariant
                word <= 1024,
                self.bits@.len() == 1024,
                forall|w: int| word <= w < 1024 ==> self.bits@[w] == 0,
            decreases word,
        {
            let found: u64 = self.bits[word - 1];
            if found != 0 {
                let highest: u32 = 63 - {
                    proof {
                        lemma_highest(found, 0);
                    }
                    found.leading_zeros()
                };
                let low: usize = (word - 1) * 64 + highest as usize;
                proof {
                    assert(low as int / 64 == word - 1);
                    assert(low as int % 64 == highest);
                    assert forall|x: int| low < x < 65536 implies !#[trigger] in_words(
                        self.bits@,
                        x,
                    ) by {
                        assert(x == 64 * (x / 64) + x % 64);
                        if x / 64 == word - 1 {
                            lemma_highest(found, x % 64);
                        } else {
                            lemma_bit_ops(0, 0, x % 64);
                        }
                    }
                }
                return Some(low as u16);
            }
            word = word - 1;
        }
        proof {
            assert forall|x: int| !#[trigger] in_words(self.bits@, x) by {
                if 0 <= x < 65536 {
                    lemma_bit_ops(0, 0, x % 64);
                }
            }
        }
        None
    }

    /// How many stretches of consecutive set bits there are, given up on once
    /// the count passes `cap`.
    ///
    /// A bit starts a run when it is set and the bit below it is not, which
    /// across a word boundary means the top bit of the word below.
    pub fn runs_within(&self, cap: usize) -> (found: usize)
        requires
            self.wf(),
        ensures
            found <= count(starts(self.set()), 0, 65536),
            found <= cap ==> found == count(starts(self.set()), 0, 65536),
    {
        let ghost f = starts(self.set());
        let mut carry: u64 = 0;
        let mut total: usize = 0;
        let mut word: usize = 0;
        proof {
            assert forall|i: int| 0 <= i < 64 implies !#[trigger] bit(carry, i) by {
                lemma_bit_ops(0, 0, i);
            }
        }
        while word < 1024
            invariant
                word <= 1024,
                self.bits@.len() == 1024,
                f == starts(self.set()),
                total == count(f, 0, 64 * word),
                total <= 64 * word,
                forall|i: int|
                    0 <= i < 64 ==> (#[trigger] bit(carry, i) == (i == 0 && word > 0 && bit(
                        self.bits@[word - 1],
                        63,
                    ))),
            decreases 1024 - word,
        {
            let bits: u64 = self.bits[word];
            let below: u64 = (bits << 1) | carry;
            let first: u64 = bits & !below;
            proof {
                let g = bits_of(first);
                let by = 64 * word;
                assert forall|i: int| 0 <= i < 64 implies #[trigger] g(i) == f(i + by) by {
                    lemma_bit_ops(bits, below, i);
                    lemma_bit_ops(bits << 1, carry, i);
                    lemma_bit_shifts(bits, i);
                    assert(bit(carry, i) == (i == 0 && word > 0 && bit(self.bits@[word - 1], 63)));
                    assert((i + by) / 64 == word && (i + by) % 64 == i);
                    if i > 0 {
                        assert((i + by - 1) / 64 == word && (i + by - 1) % 64 == i - 1);
                    } else if word > 0 {
                        assert((i + by - 1) / 64 == word - 1 && (i + by - 1) % 64 == 63);
                    }
                    assert(self.set()(i + by) == in_words(self.bits@, i + by));
                    assert(self.set()(i + by - 1) == in_words(self.bits@, i + by - 1));
                }
                lemma_count_shift(g, f, 0, 64, by as int);
                lemma_count_split(f, 0, by as int, 64 * (word + 1));
                lemma_count_split(f, 0, 64 * (word + 1), 65536);
                lemma_ones(first);
            }
            total = total + first.count_ones() as usize;
            if total > cap {
                return total;
            }
            proof {
                assert forall|i: int| 0 <= i < 64 implies #[trigger] bit(bits >> 63, i) == (i == 0
                    && bit(bits, 63)) by {
                    lemma_bit_shifts(bits, i);
                }
            }
            carry = bits >> 63;
            word = word + 1;
        }
        total
    }
}

/// Bit `x` after the bits from `s` to `l` were set or cleared.
pub open spec fn spanned(before: Seq<u64>, x: int, s: int, l: int, set: bool) -> bool {
    if s <= x <= l {
        set
    } else {
        in_words(before, x)
    }
}

/// Masking a word with one bit is not zero exactly if the bit is set.
proof fn lemma_masked(word: u64, at: int)
    requires
        0 <= at < 64,
    ensures
        (word & (1u64 << (at as u64)) != 0) == bit(word, at),
{
    let mask = 1u64 << (at as u64);
    lemma_zero_bits(word & mask);
    assert forall|i: int| 0 <= i < 64 implies bit(word & mask, i) == (bit(word, at) && i == at) by {
        lemma_bit_ops(word, mask, i);
        lemma_bit_masks(at, i);
    }
    if bit(word, at) {
        assert(bit(word & mask, at));
    }
}

/// Clears every bit the runs do not cover.
///
/// It walks the gaps rather than the runs, because a permission filter is one
/// long stretch and its gaps are what there are few of.
pub fn keep_within(words: &mut Words, runs: &[Run])
    requires
        old(words).wf(),
        runs_ok(runs@),
    ensures
        final(words).wf(),
        forall|x: int|
            0 <= x < 65536 ==> (#[trigger] in_words(final(words).bits@, x) == (in_words(
                old(words).bits@,
                x,
            ) && in_runs(runs@, x))),
{
    let ghost before = words.bits@;
    let mut next: u32 = 0;
    let mut i: usize = 0;
    while i < runs.len()
        invariant
            i <= runs.len(),
            runs_ok(runs@),
            words.wf(),
            next == if i == 0 {
                0int
            } else {
                runs@[i - 1].last + 1
            },
            forall|x: int|
                0 <= x < 65536 ==> (#[trigger] in_words(words.bits@, x) == (in_words(before, x) && (x
                    >= next || in_runs(runs@, x)))),
        decreases runs.len() - i,
    {
        let run = runs[i];
        let ghost had = words.bits@;
        if run.start as u32 > next {
            clear_between(words, next, run.start as u32 - 1);
        }
        proof {
            assert forall|x: int| 0 <= x < 65536 implies #[trigger] in_words(words.bits@, x) == (
            in_words(before, x) && (x >= run.last + 1 || in_runs(runs@, x))) by {
                assert(in_words(had, x) == (in_words(before, x) && (x >= next || in_runs(
                    runs@,
                    x,
                ))));
                if run.start <= x <= run.last {
                    assert(runs@[i as int].start <= x <= runs@[i as int].last);
                }
                if next <= x < run.start {
                    assert(!in_runs(runs@, x)) by {
                        assert forall|k: int| 0 <= k < runs@.len() implies !(
                        #[trigger] runs@[k].start <= x <= runs@[k].last) by {
                            if k < i as int {
                                if k < i - 1 {
                                    assert(runs@[k].last + 1 < runs@[i - 1].start);
                                }
                            } else if k > i as int {
                                assert(runs@[i as int].last + 1 < runs@[k].start);
                            }
                        }
                    }
                }
            }
        }
        next = run.last as u32 + 1;
        i = i + 1;
    }
    let ghost had = words.bits@;
    clear_between(words, next, 65535);
    proof {
        assert forall|x: int| 0 <= x < 65536 implies #[trigger] in_words(words.bits@, x) == (
        in_words(before, x) && in_runs(runs@, x)) by {
            assert(in_words(had, x) == (in_words(before, x) && (x >= next || in_runs(runs@, x))));
            if x >= next {
                assert(!in_runs(runs@, x)) by {
                    assert forall|k: int| 0 <= k < runs@.len() implies !(#[trigger] runs@[k].start
                        <= x <= runs@[k].last) by {
                        if k < runs@.len() - 1 {
                            assert(runs@[k].last + 1 < runs@[runs@.len() - 1].start);
                        }
                    }
                }
            }
        }
    }
}

/// Clears the bits from `start` to `last`, given the two ends as the wider type
/// the arithmetic uses. A start past the end of the chunk clears nothing.
fn clear_between(words: &mut Words, start: u32, last: u32)
    requires
        old(words).wf(),
        last <= 65535,
    ensures
        final(words).wf(),
        forall|x: int|
            0 <= x < 65536 ==> (#[trigger] in_words(final(words).bits@, x) == (in_words(
                old(words).bits@,
                x,
            ) && !(start <= x <= last))),
{
    if start <= last {
        words.clear(Run { start: start as u16, last: last as u16 });
    }
}

} // verus!

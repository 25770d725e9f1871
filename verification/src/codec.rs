//! Integer codecs: variable length and fixed width.
//!
//! The variable length encoding is LEB128: seven payload bits per byte, the top
//! bit set while more bytes follow. It costs one byte for the values that
//! dominate a delta encoded posting list, and it needs no alignment.
//!
//! Signed values are zigzag mapped first, so that a small negative number costs
//! one byte instead of ten.
use crate::error::{Error, Result};
use vstd::arithmetic::power2::pow2;
use vstd::bits::lemma_u64_shl_is_mul;
use vstd::arithmetic::power::{lemma_pow0, lemma_pow1, lemma_pow_positive, pow};
use vstd::prelude::*;

verus! {

/// The largest number of bytes a `u64` can occupy.
pub const MAX_VARINT_LEN64: usize = 10;

/// The largest number of bytes a `u32` can occupy.
pub const MAX_VARINT_LEN32: usize = 5;

// ---------------------------------------------------------------------------
// Variable length integers.
// ---------------------------------------------------------------------------

/// The bytes of `value`: base 128 digits, least significant first, every digit
/// but the last marked by its top bit.
pub open spec fn uvarint_bytes(value: nat) -> Seq<u8>
    decreases value,
{
    if value < 128 {
        seq![value as u8]
    } else {
        seq![(value % 128 + 128) as u8] + uvarint_bytes(value / 128)
    }
}

/// The number whose base 128 digits are the low seven bits of `bytes`, least
/// significant first.
pub open spec fn payload(bytes: Seq<u8>) -> nat
    decreases bytes.len(),
{
    if bytes.len() == 0 {
        0
    } else {
        (bytes[0] as nat % 128) + 128 * payload(bytes.skip(1))
    }
}

/// How many bytes at the front of `input` say that another byte follows.
pub open spec fn continued(input: Seq<u8>) -> nat
    decreases input.len(),
{
    if input.len() == 0 || input[0] < 128 {
        0
    } else {
        1 + continued(input.skip(1))
    }
}

/// What reading a `u64` from the front of `input` gives: the value with the
/// number of bytes it took, or the error.
pub open spec fn uvarint_read(input: Seq<u8>) -> core::result::Result<(nat, nat), Error> {
    let more = continued(input);
    if more >= 9 && input.len() > 9 && input[9] > 1 {
        Err(Error::Overflow)
    } else if more == input.len() {
        Err(Error::Truncated { needed: 1, available: 0 })
    } else {
        Ok((payload(input.take(more as int + 1)), more + 1))
    }
}

/// Continuation bytes are at the front of the input and are followed by a byte
/// that is not one, unless the input ends first.
pub proof fn lemma_continued(input: Seq<u8>)
    ensures
        continued(input) <= input.len(),
        forall|i: int| 0 <= i < continued(input) ==> input[i] >= 128,
        continued(input) < input.len() ==> input[continued(input) as int] < 128,
    decreases input.len(),
{
    if input.len() > 0 && input[0] >= 128 {
        let rest = input.skip(1);
        lemma_continued(rest);
        assert forall|i: int| 0 <= i < continued(input) implies input[i] >= 128 by {
            if i > 0 {
                assert(input[i] == rest[i - 1]);
            }
        }
        if continued(input) < input.len() {
            assert(input[continued(input) as int] == rest[continued(rest) as int]);
        }
    }
}

proof fn lemma_continued_is(input: Seq<u8>, n: nat)
    requires
        n <= input.len(),
        forall|i: int| 0 <= i < n ==> input[i] >= 128,
        n < input.len() ==> input[n as int] < 128,
    ensures
        continued(input) == n,
    decreases input.len(),
{
    if n > 0 {
        let rest = input.skip(1);
        assert forall|i: int| 0 <= i < n - 1 implies rest[i] >= 128 by {
            assert(rest[i] == input[i + 1]);
        }
        if n < input.len() {
            assert(rest[n - 1] == input[n as int]);
        }
        assert(input[0] >= 128);
        lemma_continued_is(rest, (n - 1) as nat);
    }
}

proof fn lemma_payload_push(bytes: Seq<u8>, byte: u8)
    ensures
        payload(bytes.push(byte)) == payload(bytes) + (byte as nat % 128) * pow2(
            7 * bytes.len(),
        ),
    decreases bytes.len(),
{
    if bytes.len() == 0 {
        let one = bytes.push(byte);
        assert(one.skip(1) =~= Seq::<u8>::empty());
        assert(payload(one.skip(1)) == 0);
        vstd::arithmetic::power2::lemma2_to64();
        assert(7 * bytes.len() == 0);
        assert((byte as nat % 128) * pow2(0) == byte as nat % 128) by (nonlinear_arith)
            requires
                pow2(0) == 1,
        ;
        assert(one[0] == byte);
    } else {
        let longer = bytes.push(byte);
        assert(longer.skip(1) =~= bytes.skip(1).push(byte));
        lemma_payload_push(bytes.skip(1), byte);
        vstd::arithmetic::power2::lemma_pow2_adds(7, 7 * (bytes.len() - 1) as nat);
        vstd::arithmetic::power2::lemma2_to64();
        let b = (byte as nat % 128) as int;
        let p = pow2((7 * (bytes.len() - 1)) as nat) as int;
        assert(128 * (b * p) == b * (128 * p)) by (nonlinear_arith);
        assert(7 + 7 * (bytes.len() - 1) == 7 * bytes.len());
    }
}

proof fn lemma_payload_bound(bytes: Seq<u8>)
    ensures
        payload(bytes) < pow2(7 * bytes.len()),
    decreases bytes.len(),
{
    vstd::arithmetic::power2::lemma2_to64();
    if bytes.len() > 0 {
        lemma_payload_bound(bytes.skip(1));
        vstd::arithmetic::power2::lemma_pow2_adds(7, (7 * (bytes.len() - 1)) as nat);
        assert(7 + 7 * (bytes.len() - 1) == 7 * bytes.len());
    }
}

/// The encoding of a value is at most as long as its bits call for, ends in its
/// only byte without the mark, and carries the value.
pub proof fn lemma_uvarint_bytes(value: nat)
    ensures
        uvarint_bytes(value).len() >= 1,
        payload(uvarint_bytes(value)) == value,
        continued(uvarint_bytes(value)) == uvarint_bytes(value).len() - 1,
        uvarint_bytes(value).last() < 128,
        forall|k: nat|
            k >= 1 && value < #[trigger] pow2(7 * k) ==> uvarint_bytes(value).len() <= k,
    decreases value,
{
    let bytes = uvarint_bytes(value);
    vstd::arithmetic::power2::lemma2_to64();
    if value < 128 {
        assert(bytes.skip(1) =~= Seq::<u8>::empty());
        assert(payload(bytes.skip(1)) == 0);
    } else {
        let rest = uvarint_bytes(value / 128);
        lemma_uvarint_bytes(value / 128);
        assert(bytes.skip(1) =~= rest);
        assert((value % 128 + 128) as u8 == value % 128 + 128);
        assert(bytes[0] as nat % 128 == value % 128);
        assert forall|k: nat| k >= 1 && value < #[trigger] pow2(7 * k) implies bytes.len() <= k by {
            if k == 1 {
                assert(7 * k == 7);
            } else {
                let j = (k - 1) as nat;
                vstd::arithmetic::power2::lemma_pow2_adds(7, 7 * j);
                assert(7 + 7 * j == 7 * k);
                assert(value / 128 < pow2(7 * j));
            }
        }
    }
}

/// Appends `value` to `out` and returns how many bytes were written.
pub fn put_uvarint(out: &mut Vec<u8>, value: u64) -> (written: usize)
    ensures
        final(out)@ == old(out)@ + uvarint_bytes(value as nat),
        written == uvarint_bytes(value as nat).len(),
        1 <= written <= MAX_VARINT_LEN64,
{
    let ghost before = out@;
    let mut left: u64 = value;
    let mut written: usize = 1;
    proof {
        assert(before + uvarint_bytes(left as nat) =~= out@ + uvarint_bytes(left as nat));
        lemma_uvarint_bytes(value as nat);
        vstd::arithmetic::power2::lemma2_to64_rest();
        vstd::arithmetic::power2::lemma_pow2_adds(64, 6);
        vstd::arithmetic::power2::lemma2_to64();
        assert(pow2(7 * 10) > value);
    }
    while left >= 0x80
        invariant
            before + uvarint_bytes(value as nat) == out@ + uvarint_bytes(left as nat),
            uvarint_bytes(value as nat).len() == written - 1 + uvarint_bytes(left as nat).len(),
            uvarint_bytes(value as nat).len() <= 10,
            written >= 1,
        decreases left,
    {
        let ghost had = out@;
        proof {
            lemma_uvarint_bytes(left as nat / 128);
        }
        out.push((left % 128) as u8 + 0x80);
        written = written + 1;
        proof {
            assert(out@ + uvarint_bytes(left as nat / 128) =~= had + uvarint_bytes(left as nat));
        }
        left = left / 128;
    }
    out.push(left as u8);
    proof {
        assert(uvarint_bytes(left as nat) =~= seq![left as u8]);
    }
    written
}

/// Joining the low bits already read to seven more above them is addition.
proof fn lemma_join(value: u64, low: u64, shift: u64)
    requires
        shift <= 63,
        value < 1u64 << shift,
        low < 128,
        shift > 56 ==> low <= 1 && shift == 63,
    ensures
        value | (low << shift) == value + (low << shift),
        value + (low << shift) <= u64::MAX,
{
    assert(shift <= 63 && value < 1u64 << shift && low < 128 && (shift > 56 ==> low <= 1 && shift
        == 63) ==> value | (low << shift) == value + (low << shift) && value + (low << shift)
        <= 0xffff_ffff_ffff_ffffu64) by (bit_vector);
}

/// Reads a `u64` from the front of `input` and returns it with the rest of the
/// input.
///
/// Reports [`Error::Truncated`] if the input ends inside the value, and
/// [`Error::Overflow`] if the value does not terminate within the ten bytes a
/// `u64` can occupy.
pub fn get_uvarint(input: &[u8]) -> (read: Result<(u64, &[u8])>)
    ensures
        match uvarint_read(input@) {
            Ok((value, taken)) => read matches Ok((v, rest)) && v == value && rest@
                == input@.skip(taken as int),
            Err(error) => read matches Err(e) && e == error,
        },
{
    let mut value: u64 = 0;
    let mut shift: u32 = 0;
    let mut i: usize = 0;
    proof {
        vstd::arithmetic::power2::lemma2_to64();
        assert(input@.take(0) =~= Seq::<u8>::empty());
    }
    while i < input.len()
        invariant
            i <= input.len(),
            i <= 9,
            shift == 7 * i,
            forall|j: int| 0 <= j < i ==> input[j] >= 128,
            value == payload(input@.take(i as int)),
        decreases input.len() - i,
    {
        let byte: u8 = input[i];
        proof {
            lemma_continued(input@);
        }
        if i == 9 && byte > 1 {
            assert(continued(input@) >= 9) by {
                if continued(input@) < 9 {
                    assert(input@[continued(input@) as int] >= 128);
                }
            }
            return Err(Error::Overflow);
        }
        let low: u64 = (byte % 128) as u64;
        proof {
            let had = input@.take(i as int);
            lemma_payload_bound(had);
            lemma_payload_push(had, byte);
            assert(input@.take(i + 1) =~= had.push(byte));
            vstd::arithmetic::power2::lemma2_to64();
            vstd::arithmetic::power2::lemma2_to64_rest();
            lemma_shl(1, shift as u64);
            lemma_shl_low(low, shift as u64);
            lemma_join(value, low, shift as u64);
        }
        value = value | (low << shift);
        if byte < 0x80 {
            proof {
                lemma_continued_is(input@, i as nat);
            }
            let rest = vstd::slice::slice_subrange(input, i + 1, input.len());
            assert(rest@ =~= input@.skip(i + 1));
            return Ok((value, rest));
        }
        if i == 9 {
            assert(false);
        }
        shift = shift + 7;
        i = i + 1;
    }
    proof {
        lemma_continued_is(input@, i as nat);
    }
    Err(Error::Truncated { needed: 1, available: 0 })
}

proof fn lemma_shl(low: u64, shift: u64)
    requires
        shift <= 63,
        low <= 1,
    ensures
        low << shift == low * pow2(shift as nat),
{
    vstd::arithmetic::power2::lemma2_to64();
    vstd::arithmetic::power2::lemma2_to64_rest();
    if shift < 63 {
        vstd::arithmetic::power2::lemma_pow2_strictly_increases(shift as nat, 63);
    }
    assert(low * pow2(shift as nat) <= pow2(63)) by (nonlinear_arith)
        requires
            low <= 1,
            pow2(shift as nat) <= pow2(63),
    ;
    lemma_u64_shl_is_mul(low, shift);
}

proof fn lemma_shl_low(low: u64, shift: u64)
    requires
        shift <= 56 || (shift <= 63 && low <= 1),
        low < 128,
    ensures
        low << shift == low * pow2(shift as nat),
{
    vstd::arithmetic::power2::lemma2_to64();
    vstd::arithmetic::power2::lemma2_to64_rest();
    if shift <= 56 {
        if shift < 56 {
            vstd::arithmetic::power2::lemma_pow2_strictly_increases(shift as nat, 56);
        }
        assert(low * pow2(shift as nat) <= 128 * pow2(56)) by (nonlinear_arith)
            requires
                low < 128,
                pow2(shift as nat) <= pow2(56),
        ;
        lemma_u64_shl_is_mul(low, shift);
    } else {
        lemma_shl(low, shift);
    }
}

/// What was written is what is read back, whatever follows it.
pub proof fn law_uvarint_round_trip(value: u64, rest: Seq<u8>)
    ensures
        uvarint_read(uvarint_bytes(value as nat) + rest) == Ok::<(nat, nat), Error>(
            (value as nat, uvarint_bytes(value as nat).len()),
        ),
        (uvarint_bytes(value as nat) + rest).skip(uvarint_bytes(value as nat).len() as int)
            == rest,
{
    let bytes = uvarint_bytes(value as nat);
    let input = bytes + rest;
    lemma_uvarint_bytes(value as nat);
    lemma_continued(bytes);
    let n = (bytes.len() - 1) as nat;
    lemma_continued_is(input, n);
    assert(input.take(n as int + 1) =~= bytes);
    assert(input.skip(bytes.len() as int) =~= rest);
    vstd::arithmetic::power2::lemma2_to64_rest();
    vstd::arithmetic::power2::lemma2_to64();
    vstd::arithmetic::power2::lemma_pow2_adds(64, 6);
    assert(value < pow2(7 * 10));
    if n >= 9 {
        assert(bytes =~= bytes.take(9).push(bytes[9]));
        lemma_payload_push(bytes.take(9), bytes[9]);
        if bytes[9] > 1 {
            assert((bytes[9] as nat % 128) * pow2(63) >= 2 * pow2(63)) by (nonlinear_arith)
                requires
                    bytes[9] as nat % 128 >= 2,
            ;
        }
    }
}

/// A value below `2^(7k)` takes at most `k` bytes, so 128 is the first value
/// that takes two and a `u32` never takes more than five.
pub proof fn law_uvarint_length(value: u64, k: nat)
    requires
        k >= 1,
    ensures
        uvarint_bytes(value as nat).len() <= k <==> value < pow2(7 * k),
{
    lemma_uvarint_bytes(value as nat);
    let bytes = uvarint_bytes(value as nat);
    if bytes.len() <= k {
        lemma_payload_bound(bytes);
        if bytes.len() < k {
            vstd::arithmetic::power2::lemma_pow2_strictly_increases(7 * bytes.len(), 7 * k);
        }
    }
}

// ---------------------------------------------------------------------------
// Signed integers.
// ---------------------------------------------------------------------------

/// The zigzag mapping: 0, -1, 1, -2, 2, ... onto 0, 1, 2, 3, 4, ...
pub open spec fn zigzag(value: int) -> int {
    if value >= 0 {
        2 * value
    } else {
        -2 * value - 1
    }
}

/// The signed integer that the zigzag mapping takes to `value`.
pub open spec fn unzigzag(value: int) -> int {
    if value % 2 == 0 {
        value / 2
    } else {
        -(value / 2) - 1
    }
}

/// Each direction of the zigzag mapping undoes the other.
pub proof fn law_zigzag_inverse(signed: i64, unsigned: u64)
    ensures
        unzigzag(zigzag(signed as int)) == signed,
        zigzag(unzigzag(unsigned as int)) == unsigned,
{
}

/// Maps a signed integer onto an unsigned one so that values near zero stay
/// small whichever side of zero they are on.
pub fn zigzag_encode(value: i64) -> (encoded: u64)
    ensures
        encoded == zigzag(value as int),
        unzigzag(encoded as int) == value,
{
    if value >= 0 {
        (value as u64) * 2
    } else {
        ((-(value + 1)) as u64) * 2 + 1
    }
}

/// The inverse of [`zigzag_encode`].
pub fn zigzag_decode(value: u64) -> (decoded: i64)
    ensures
        decoded == unzigzag(value as int),
        zigzag(decoded as int) == value,
{
    if value % 2 == 0 {
        (value / 2) as i64
    } else {
        -((value / 2) as i64) - 1
    }
}

/// Appends a signed `value` to `out` using zigzag mapping.
pub fn put_ivarint(out: &mut Vec<u8>, value: i64) -> (written: usize)
    ensures
        final(out)@ == old(out)@ + uvarint_bytes(zigzag(value as int) as nat),
        written == uvarint_bytes(zigzag(value as int) as nat).len(),
        1 <= written <= MAX_VARINT_LEN64,
{
    put_uvarint(out, zigzag_encode(value))
}

/// Reads a zigzag mapped signed integer from the front of `input`, under the
/// same conditions as [`get_uvarint`].
pub fn get_ivarint(input: &[u8]) -> (read: Result<(i64, &[u8])>)
    ensures
        match uvarint_read(input@) {
            Ok((value, taken)) => read matches Ok((v, rest)) && v == unzigzag(value as int)
                && rest@ == input@.skip(taken as int),
            Err(error) => read matches Err(e) && e == error,
        },
{
    match get_uvarint(input) {
        Ok((raw, rest)) => Ok((zigzag_decode(raw), rest)),
        Err(error) => Err(error),
    }
}

// ---------------------------------------------------------------------------
// Fixed width integers.
// ---------------------------------------------------------------------------

/// The `width` bytes of `value`, least significant first.
pub open spec fn le_bytes(value: nat, width: nat) -> Seq<u8>
    decreases width,
{
    if width == 0 {
        Seq::empty()
    } else {
        seq![(value % 256) as u8] + le_bytes(value / 256, (width - 1) as nat)
    }
}

/// The number whose bytes are `bytes`, least significant first.
pub open spec fn le_value(bytes: Seq<u8>) -> nat
    decreases bytes.len(),
{
    if bytes.len() == 0 {
        0
    } else {
        bytes[0] as nat + 256 * le_value(bytes.skip(1))
    }
}

/// 256 to the `width`: how many numbers that many bytes can hold.
pub open spec fn le_bound(width: nat) -> nat
    decreases width,
{
    if width == 0 {
        1
    } else {
        256 * le_bound((width - 1) as nat)
    }
}

/// Fixed width bytes are as many as asked for and carry the value.
pub proof fn lemma_le_bytes(value: nat, width: nat)
    ensures
        le_bytes(value, width).len() == width,
        value < le_bound(width) ==> le_value(le_bytes(value, width)) == value,
    decreases width,
{
    if width > 0 {
        let rest = le_bytes(value / 256, (width - 1) as nat);
        lemma_le_bytes(value / 256, (width - 1) as nat);
        assert(le_bytes(value, width).skip(1) =~= rest);
        assert((value % 256) as u8 == value % 256);
    }
}

/// The bytes of the number some bytes carry are those bytes.
pub proof fn lemma_le_value(bytes: Seq<u8>)
    ensures
        le_value(bytes) < le_bound(bytes.len()),
        le_bytes(le_value(bytes), bytes.len()) == bytes,
    decreases bytes.len(),
{
    if bytes.len() > 0 {
        let rest = bytes.skip(1);
        lemma_le_value(rest);
        let value = le_value(bytes);
        assert(value % 256 == bytes[0] && value / 256 == le_value(rest)) by {
            vstd::arithmetic::div_mod::lemma_fundamental_div_mod_converse(
                value as int,
                256,
                le_value(rest) as int,
                bytes[0] as int,
            );
        }
        assert(seq![bytes[0]] + rest =~= bytes);
    } else {
        assert(bytes =~= Seq::<u8>::empty());
    }
}

pub(crate) proof fn lemma_le_unfold(value: nat)
    ensures
        le_bytes(value, 2) == seq![(value % 256) as u8, (value / 256 % 256) as u8],
        le_bytes(value, 4) == seq![
            (value % 256) as u8,
            (value / 256 % 256) as u8,
            (value / 65536 % 256) as u8,
            (value / 16777216 % 256) as u8,
        ],
        le_bound(2) == 0x1_0000,
        le_bound(4) == 0x1_0000_0000,
        le_bound(8) == 0x1_0000_0000_0000_0000,
{
    reveal_with_fuel(le_bytes, 5);
    reveal_with_fuel(le_bound, 9);
    assert(value / 256 / 256 == value / 65536);
    assert(value / 65536 / 256 == value / 16777216);
    assert(le_bytes(value, 2) =~= seq![(value % 256) as u8, (value / 256 % 256) as u8]);
    assert(le_bytes(value, 4) =~= seq![
        (value % 256) as u8,
        (value / 256 % 256) as u8,
        (value / 65536 % 256) as u8,
        (value / 16777216 % 256) as u8,
    ]);
}

pub(crate) proof fn lemma_le_value_unfold(bytes: Seq<u8>)
    ensures
        bytes.len() == 2 ==> le_value(bytes) == bytes[0] + 256 * bytes[1],
        bytes.len() == 4 ==> le_value(bytes) == bytes[0] + 256 * bytes[1] + 65536 * bytes[2]
            + 16777216 * bytes[3],
{
    reveal_with_fuel(le_value, 5);
}

pub(crate) proof fn lemma_le_value_split(low: Seq<u8>, high: Seq<u8>)
    ensures
        le_value(low + high) == le_value(low) + le_bound(low.len()) * le_value(high),
    decreases low.len(),
{
    if low.len() == 0 {
        assert(low + high =~= high);
        assert(le_bound(low.len()) == 1);
        assert(1 * le_value(high) == le_value(high));
    } else {
        assert((low + high).skip(1) =~= low.skip(1) + high);
        lemma_le_value_split(low.skip(1), high);
        let b = le_bound((low.len() - 1) as nat) as int;
        let h = le_value(high) as int;
        assert(256 * (b * h) == (256 * b) * h) by (nonlinear_arith);
        assert((low + high)[0] == low[0]);
    }
}

/// Writes a little endian `u16`.
pub fn put_u16(out: &mut Vec<u8>, value: u16)
    ensures
        final(out)@ == old(out)@ + le_bytes(value as nat, 2),
{
    proof {
        lemma_le_unfold(value as nat);
    }
    out.push((value % 256) as u8);
    out.push((value / 256) as u8);
    assert(out@ =~= old(out)@ + le_bytes(value as nat, 2));
}

/// Writes a little endian `u32`.
pub fn put_u32(out: &mut Vec<u8>, value: u32)
    ensures
        final(out)@ == old(out)@ + le_bytes(value as nat, 4),
{
    proof {
        lemma_le_unfold(value as nat);
    }
    out.push((value % 256) as u8);
    out.push((value / 256 % 256) as u8);
    out.push((value / 65536 % 256) as u8);
    out.push((value / 16777216) as u8);
    assert(out@ =~= old(out)@ + le_bytes(value as nat, 4));
}

proof fn lemma_le_halves(low: nat, high: nat)
    requires
        low < 0x1_0000_0000,
        high < 0x1_0000_0000,
    ensures
        le_bytes(low + 0x1_0000_0000 * high, 8) == le_bytes(low, 4) + le_bytes(high, 4),
{
    lemma_le_unfold(0);
    lemma_le_bytes(low, 4);
    lemma_le_bytes(high, 4);
    lemma_le_value_split(le_bytes(low, 4), le_bytes(high, 4));
    lemma_le_value(le_bytes(low, 4) + le_bytes(high, 4));
    let b = le_bound(4) as int;
    let h = high as int;
    assert(b * h == 0x1_0000_0000 * h) by (nonlinear_arith)
        requires
            b == 0x1_0000_0000,
    ;
}

/// Writes a little endian `u64`.
pub fn put_u64(out: &mut Vec<u8>, value: u64)
    ensures
        final(out)@ == old(out)@ + le_bytes(value as nat, 8),
{
    let low: u32 = (value % 0x1_0000_0000) as u32;
    let high: u32 = (value / 0x1_0000_0000) as u32;
    put_u32(out, low);
    put_u32(out, high);
    proof {
        lemma_le_halves(low as nat, high as nat);
        assert(value == low + 0x1_0000_0000 * high);
        assert(out@ =~= old(out)@ + (le_bytes(low as nat, 4) + le_bytes(high as nat, 4)));
    }
}

/// The error for input of which `available` bytes are left where `needed` are
/// wanted.
pub open spec fn short(needed: nat, available: nat) -> Error {
    Error::Truncated { needed: needed as usize, available: available as usize }
}

/// Reads a little endian `u16` from the front of `input`, or reports
/// [`Error::Truncated`] if fewer than two bytes are available.
pub fn get_u16(input: &[u8]) -> (read: Result<(u16, &[u8])>)
    ensures
        if input@.len() >= 2 {
            read matches Ok((v, rest)) && v == le_value(input@.take(2)) && rest@ == input@.skip(2)
        } else {
            read matches Err(e) && e == short(2, input@.len())
        },
{
    match split_at(input, 2) {
        Ok((head, rest)) => {
            proof {
                lemma_le_value_unfold(head@);
            }
            Ok((head[0] as u16 + 256 * (head[1] as u16), rest))
        },
        Err(error) => Err(error),
    }
}

/// Reads a little endian `u32` from the front of `input`, or reports
/// [`Error::Truncated`] if fewer than four bytes are available.
pub fn get_u32(input: &[u8]) -> (read: Result<(u32, &[u8])>)
    ensures
        if input@.len() >= 4 {
            read matches Ok((v, rest)) && v == le_value(input@.take(4)) && rest@ == input@.skip(4)
        } else {
            read matches Err(e) && e == short(4, input@.len())
        },
{
    match split_at(input, 4) {
        Ok((head, rest)) => {
            proof {
                lemma_le_value_unfold(head@);
            }
            let value: u32 = head[0] as u32 + 256 * (head[1] as u32) + 65536 * (head[2] as u32)
                + 16777216 * (head[3] as u32);
            Ok((value, rest))
        },
        Err(error) => Err(error),
    }
}

/// Reads a little endian `u64` from the front of `input`, or reports
/// [`Error::Truncated`] if fewer than eight bytes are available.
pub fn get_u64(input: &[u8]) -> (read: Result<(u64, &[u8])>)
    ensures
        if input@.len() >= 8 {
            read matches Ok((v, rest)) && v == le_value(input@.take(8)) && rest@ == input@.skip(8)
        } else {
            read matches Err(e) && e == short(8, input@.len())
        },
{
    match split_at(input, 8) {
        Ok((head, rest)) => {
            let (low, high) = head.split_at(4);
            proof {
                lemma_le_value_unfold(low@);
                lemma_le_value_unfold(high@);
                lemma_le_value_split(low@, high@);
                lemma_le_unfold(0);
                assert(low@ + high@ =~= head@);
            }
            let l: u32 = low[0] as u32 + 256 * (low[1] as u32) + 65536 * (low[2] as u32) + 16777216
                * (low[3] as u32);
            let h: u32 = high[0] as u32 + 256 * (high[1] as u32) + 65536 * (high[2] as u32)
                + 16777216 * (high[3] as u32);
            Ok((l as u64 + 0x1_0000_0000 * (h as u64), rest))
        },
        Err(error) => Err(error),
    }
}

/// Splits `input` at `n`, or reports how much was missing.
pub fn split_at(input: &[u8], n: usize) -> (split: Result<(&[u8], &[u8])>)
    ensures
        if input@.len() >= n {
            split matches Ok((head, rest)) && head@ == input@.take(n as int) && rest@
                == input@.skip(n as int)
        } else {
            split matches Err(e) && e == short(n as nat, input@.len())
        },
{
    if input.len() < n {
        return Err(Error::Truncated { needed: n, available: input.len() });
    }
    Ok(input.split_at(n))
}

/// A fixed width integer is read back as it was written, whatever follows it.
pub proof fn law_fixed_round_trip(value: nat, width: nat, rest: Seq<u8>)
    requires
        value < le_bound(width),
    ensures
        le_bytes(value, width).len() == width,
        le_value((le_bytes(value, width) + rest).take(width as int)) == value,
        (le_bytes(value, width) + rest).skip(width as int) == rest,
{
    lemma_le_bytes(value, width);
    assert((le_bytes(value, width) + rest).take(width as int) =~= le_bytes(value, width));
    assert((le_bytes(value, width) + rest).skip(width as int) =~= rest);
}

// ---------------------------------------------------------------------------
// What the bytes are.
// ---------------------------------------------------------------------------

/// Dividing by a power of the base is dividing by the base and then by a smaller power.
pub(crate) proof fn lemma_divide(value: nat, base: nat, i: nat)
    requires
        base > 0,
        i > 0,
    ensures
        pow(base as int, i) > 0,
        value as int / pow(base as int, i) == (value / base) as int / pow(
            base as int,
            (i - 1) as nat,
        ),
{
    lemma_pow_positive(base as int, i);
    lemma_pow_positive(base as int, (i - 1) as nat);
    reveal(pow);
    vstd::arithmetic::div_mod::lemma_div_denominator(
        value as int,
        base as int,
        pow(base as int, (i - 1) as nat),
    );
}

/// A fixed width integer is its bytes to the base 256, the least significant first.
pub proof fn law_fixed_width_bytes_are_digits(value: nat, width: nat, i: nat)
    requires
        i < width,
    ensures
        le_bytes(value, width).len() == width,
        le_bytes(value, width)[i as int] == value as int / pow(256, i) % 256,
    decreases width,
{
    lemma_le_bytes(value, width);
    lemma_pow0(256);
    if i > 0 {
        law_fixed_width_bytes_are_digits(value / 256, (width - 1) as nat, (i - 1) as nat);
        lemma_divide(value, 256, i);
        assert(le_bytes(value, width)[i as int] == le_bytes(value / 256, (width - 1) as nat)[i
            - 1]);
    }
}

/// A variable length integer is its bytes to the base 128, the least significant first,
/// each but the last with 128 added to it, and the last not zero unless it is the only
/// one.
pub proof fn law_variable_length_bytes_are_digits(value: nat, i: nat)
    ensures
        ({
            let bytes = uvarint_bytes(value);
            &&& bytes.len() > 0
            &&& i < bytes.len() ==> bytes[i as int] == value as int / pow(128, i) % 128 + if i + 1
                < bytes.len() {
                128int
            } else {
                0int
            }
            &&& value as int / pow(128, bytes.len()) == 0
            &&& bytes.len() > 1 ==> bytes.last() > 0
        }),
    decreases value,
{
    lemma_pow0(128);
    lemma_pow1(128);
    let bytes = uvarint_bytes(value);
    if value >= 128 {
        let rest = uvarint_bytes(value / 128);
        law_variable_length_bytes_are_digits(
            value / 128,
            if i > 0 {
                (i - 1) as nat
            } else {
                0
            },
        );
        lemma_divide(value, 128, bytes.len());
        assert(bytes.len() == rest.len() + 1);
        assert(bytes.last() == rest.last());
        if value / 128 < 128 {
            assert(rest =~= seq![(value / 128) as u8]);
        }
        if 0 < i < bytes.len() {
            lemma_divide(value, 128, i);
            assert(bytes[i as int] == rest[i - 1]);
        }
    }
}

proof fn lemma_continued_front(input: Seq<u8>)
    ensures
        continued(input) <= input.len(),
        forall|i: int| 0 <= i < continued(input) ==> #[trigger] input[i] >= 128,
        continued(input) < input.len() ==> input[continued(input) as int] < 128,
    decreases input.len(),
{
    if input.len() > 0 && input[0] >= 128 {
        lemma_continued_front(input.skip(1));
        assert forall|i: int| 0 <= i < continued(input) implies #[trigger] input[i] >= 128 by {
            if i > 0 {
                assert(input.skip(1)[i - 1] == input[i]);
            }
        }
    }
}

proof fn lemma_payload_digit(bytes: Seq<u8>, i: nat)
    requires
        i < bytes.len(),
    ensures
        payload(bytes) as int / pow(128, i) % 128 == bytes[i as int] % 128,
    decreases bytes.len(),
{
    lemma_pow0(128);
    let rest = bytes.skip(1);
    assert(payload(bytes) % 128 == bytes[0] % 128 && payload(bytes) / 128 == payload(rest));
    if i > 0 {
        lemma_payload_digit(rest, (i - 1) as nat);
        lemma_divide(payload(bytes), 128, i);
    }
}

/// What reading a variable length integer gives. It takes the bytes up to the first that
/// is less than 128, and each of them is a digit of the value. It is refused where there
/// is no such byte, and where there would be more than 64 bits.
pub proof fn law_every_byte_of_a_variable_length_integer_counts(input: Seq<u8>, i: nat)
    ensures
        match uvarint_read(input) {
            Ok((value, taken)) => {
                &&& 0 < taken <= input.len() && taken <= 10
                &&& input[taken - 1] < 128
                &&& forall|k: int| 0 <= k < taken - 1 ==> #[trigger] input[k] >= 128
                &&& i < taken ==> value as int / pow(128, i) % 128 == input[i as int] % 128
            },
            Err(Error::Overflow) => {
                &&& input.len() > 9 && input[9] > 1
                &&& forall|k: int| 0 <= k < 9 ==> #[trigger] input[k] >= 128
            },
            Err(error) => {
                &&& error == (Error::Truncated { needed: 1, available: 0 })
                &&& input.len() <= 9
                &&& forall|k: int| 0 <= k < input.len() ==> #[trigger] input[k] >= 128
            },
        },
{
    lemma_continued_front(input);
    let more = continued(input);
    if uvarint_read(input) is Ok {
        if more >= 10 {
            assert(input[9] >= 128);
        }
        if i < more + 1 {
            lemma_payload_digit(input.take(more as int + 1), i);
        }
    } else if more == input.len() && more > 9 {
        assert(input[9] >= 128);
    }
}

/// Signed numbers are numbered from zero on outwards, and in turn: 0, -1, 1, -2, 2 and so
/// on.
pub proof fn law_signed_numbers_are_taken_in_turn(value: int)
    requires
        value >= 0,
    ensures
        zigzag(0) == 0,
        zigzag(-value - 1) == zigzag(value) + 1,
        zigzag(value + 1) == zigzag(-value - 1) + 1,
{
}

} // verus!

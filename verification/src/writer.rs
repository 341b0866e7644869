//! The little-endian encoding of a number in a fixed number of bytes, and the
//! writing of one into a buffer.

use crate::entries::ValueLength;
use crate::reader::{le_signed, le_unsigned, lemma_radix_values, narrow, radix};
use vstd::arithmetic::div_mod::{lemma_mod_bound, lemma_small_mod};
use vstd::prelude::*;

verus! {

/// The `width` lowest digits of `u` in base 256, lowest first.
pub open spec fn digits256(u: nat, width: nat) -> Seq<u8>
    decreases width,
{
    if width == 0 {
        Seq::empty()
    } else {
        seq![(u % 256) as u8] + digits256(u / 256, (width - 1) as nat)
    }
}

/// The `width` bytes that stand for `v` in two's complement, least
/// significant first: the digits of `v` modulo `256^width`.
pub open spec fn le_bytes(v: int, width: nat) -> Seq<u8> {
    digits256((v % (radix(width) as int)) as nat, width)
}

/// `out` with the bytes of `v`, `width` of them, written from `offset` on.
pub open spec fn write_le(out: Seq<u8>, offset: int, v: int, width: nat) -> Seq<u8> {
    Seq::new(
        out.len(),
        |i: int|
            if offset <= i < offset + width {
                le_bytes(v, width)[i - offset]
            } else {
                out[i]
            },
    )
}

/// There are as many digits as were asked for.
pub proof fn lemma_digits256_len(u: nat, width: nat)
    ensures
        digits256(u, width).len() == width,
    decreases width,
{
    if width > 0 {
        lemma_digits256_len(u / 256, (width - 1) as nat);
    }
}

/// The digits behind the first are the digits of the number without its
/// lowest digit.
pub proof fn lemma_digits256_step(u: nat, width: nat)
    requires
        width > 0,
    ensures
        digits256(u, width)[0] == (u % 256) as u8,
        digits256(u, width).skip(1) == digits256(u / 256, (width - 1) as nat),
{
    assert(digits256(u, width).skip(1) =~= digits256(u / 256, (width - 1) as nat));
}

/// The radix of every width is positive.
pub proof fn lemma_radix_positive(width: nat)
    ensures
        radix(width) > 0,
    decreases width,
{
    if width > 0 {
        lemma_radix_positive((width - 1) as nat);
    }
}

/// Reading back the digits of a number that its width can hold gives the
/// number.
pub proof fn lemma_digits256_read(s: Seq<u8>, at: int, u: nat, width: nat)
    requires
        u < radix(width),
        forall|j: int| 0 <= j < width ==> s[at + j] == digits256(u, width)[j],
    ensures
        le_unsigned(s, at, width) == u,
    decreases width,
{
    if width > 0 {
        lemma_digits256_step(u, width);
        let rest = digits256(u / 256, (width - 1) as nat);
        assert forall|j: int| 0 <= j < width - 1 implies s[at + 1 + j] == rest[j] by {
            lemma_digits256_len(u, width);
            assert(digits256(u, width).skip(1)[j] == digits256(u, width)[j + 1]);
            assert(s[at + (j + 1)] == digits256(u, width)[j + 1]);
        }
        lemma_digits256_read(s, at + 1, u / 256, (width - 1) as nat);
        assert(s[at + 0] == digits256(u, width)[0]);
    }
}

/// What is written can be read back: the number, narrowed to the width.
pub proof fn lemma_write_then_read(out: Seq<u8>, offset: int, v: int, width: nat)
    requires
        0 <= offset,
        offset + width <= out.len(),
    ensures
        write_le(out, offset, v, width).len() == out.len(),
        le_signed(write_le(out, offset, v, width), offset, width) == narrow(v, width),
        forall|i: int|
            0 <= i < out.len() && !(offset <= i < offset + width) ==> write_le(
                out,
                offset,
                v,
                width,
            )[i] == out[i],
{
    lemma_radix_positive(width);
    lemma_mod_bound(v, radix(width) as int);
    let u = (v % (radix(width) as int)) as nat;
    let written = write_le(out, offset, v, width);
    lemma_digits256_len(u, width);
    assert forall|j: int| 0 <= j < width implies written[offset + j] == digits256(u, width)[j] by {}
    lemma_digits256_read(written, offset, u, width);
    lemma_small_mod(u, radix(width));
}

/// Writes the two's complement form of `value`, narrowed to the width of the
/// table's values, at `offset`. No other byte changes.
pub fn write_value(out: &mut Vec<u8>, offset: usize, value: i64, width: ValueLength)
    requires
        offset + width.width() <= old(out)@.len(),
    ensures
        final(out)@ == write_le(old(out)@, offset as int, value as int, width.width()),
{
    let count = width.byte_len();
    let low: u64 = match width {
        ValueLength::Int => {
            let bits: u32 = #[verifier::truncate]
            (value as u32);
            assert(bits == (value as int % 0x1_0000_0000) as u32) by (bit_vector)
                requires
                    bits == value as u32,
            ;
            bits as u64
        },
        ValueLength::Long => {
            let bits: u64 = #[verifier::truncate]
            (value as u64);
            assert(bits == (value as int % 0x1_0000_0000_0000_0000) as u64) by (bit_vector)
                requires
                    bits == value as u64,
            ;
            bits
        },
    };
    proof {
        lemma_radix_values();
        lemma_mod_bound(value as int, radix(width.width()) as int);
    }
    let ghost digits = le_bytes(value as int, width.width());
    let ghost before = out@;
    let len = out.len();
    assert(digits == digits256(low as nat, count as nat));
    let mut rest: u64 = low;
    let mut k: usize = 0;
    proof {
        lemma_digits256_len(low as nat, count as nat);
        assert(digits.skip(0) =~= digits);
    }
    while k < count
        invariant
            k <= count,
            count == width.width(),
            len == before.len(),
            offset + count <= len,
            out@.len() == before.len(),
            digits.len() == count,
            digits.skip(k as int) == digits256(rest as nat, (count - k) as nat),
            forall|i: int| offset <= i < offset + k ==> out@[i] == digits[i - offset],
            forall|i: int|
                0 <= i < before.len() && !(offset <= i < offset + k) ==> out@[i] == before[i],
        decreases count - k,
    {
        proof {
            lemma_digits256_step(rest as nat, (count - k) as nat);
            assert(digits.skip(k as int)[0] == digits[k as int]);
            assert(digits.skip(k as int).skip(1) =~= digits.skip(k + 1));
        }
        let digit: u8 = (rest % 256) as u8;
        out.set(offset + k, digit);
        rest = rest / 256;
        k += 1;
    }
    assert(out@ =~= write_le(before, offset as int, value as int, width.width()));
}

} // verus!

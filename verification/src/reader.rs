//! Bounds-checked little-endian reads from a byte buffer, and the alignment
//! helper.

use vstd::arithmetic::div_mod::{
    lemma_fundamental_div_mod, lemma_mod_bound, lemma_mod_multiples_basic,
};
use vstd::arithmetic::mul::lemma_mul_is_commutative;
use vstd::arithmetic::power2::{lemma2_to64, lemma_pow2_pos, lemma_pow2_strictly_increases, pow2};
use vstd::bits::lemma_usize_low_bits_mask_is_mod;
use vstd::pervasive::unreached;
use vstd::prelude::*;

verus! {

/// `256^width`: the number of values that `width` bytes can spell out.
pub open spec fn radix(width: nat) -> nat
    decreases width,
{
    if width == 0 {
        1
    } else {
        256 * radix((width - 1) as nat)
    }
}

/// The unsigned number that the `width` bytes of `s` from index `at` on
/// spell out, least significant byte first.
pub open spec fn le_unsigned(s: Seq<u8>, at: int, width: nat) -> nat
    decreases width,
{
    if width == 0 {
        0
    } else {
        s[at] as nat + 256 * le_unsigned(s, at + 1, (width - 1) as nat)
    }
}

/// The representative of `v` modulo `256^width` that a two's complement
/// integer of `width` bytes stands for.
pub open spec fn narrow(v: int, width: nat) -> int {
    let u = v % (radix(width) as int);
    if 2 * u >= radix(width) {
        u - radix(width)
    } else {
        u
    }
}

/// The signed number that the `width` bytes of `s` from index `at` on spell
/// out, least significant byte first, in two's complement.
pub open spec fn le_signed(s: Seq<u8>, at: int, width: nat) -> int {
    narrow(le_unsigned(s, at, width) as int, width)
}

/// Whether `width` bytes from index `at` on lie inside a buffer of `len` bytes.
pub open spec fn in_range(len: nat, at: int, width: nat) -> bool {
    0 <= at && at + width <= len
}

/// The smallest multiple of `align` that is not below `pos`.
pub open spec fn round_up(pos: int, align: int) -> int {
    ((pos + align - 1) / align) * align
}

/// Whether `n` is a power of two.
pub open spec fn is_power_of_two(n: int) -> bool {
    exists|k: nat| n == pow2(k)
}

/// The radix of the widths that occur.
pub proof fn lemma_radix_values()
    ensures
        radix(0) == 1,
        radix(1) == 0x100,
        radix(2) == 0x1_0000,
        radix(4) == 0x1_0000_0000,
        radix(8) == 0x1_0000_0000_0000_0000,
{
    reveal_with_fuel(radix, 9);
}

/// The bytes of a number are below the radix of their count.
pub proof fn lemma_le_unsigned_bound(s: Seq<u8>, at: int, width: nat)
    ensures
        le_unsigned(s, at, width) < radix(width),
    decreases width,
{
    if width > 0 {
        lemma_le_unsigned_bound(s, at + 1, (width - 1) as nat);
    }
}

/// A read looks at no byte outside `[at, at + width)`.
pub proof fn lemma_le_unsigned_frame(s: Seq<u8>, t: Seq<u8>, at: int, width: nat)
    requires
        forall|i: int| at <= i < at + width ==> s[i] == t[i],
    ensures
        le_unsigned(s, at, width) == le_unsigned(t, at, width),
    decreases width,
{
    if width > 0 {
        lemma_le_unsigned_frame(s, t, at + 1, (width - 1) as nat);
    }
}

/// Reads an unsigned 32-bit number, or nothing where the four bytes do not
/// lie inside `data`.
pub fn read_u32(data: &[u8], offset: usize) -> (r: Option<u32>)
    ensures
        r == if in_range(data@.len(), offset as int, 4) {
            Some(le_unsigned(data@, offset as int, 4) as u32)
        } else {
            None
        },
{
    if offset > data.len() || data.len() - offset < 4 {
        None
    } else {
        let b0: u32 = data[offset] as u32;
        let b1: u32 = data[offset + 1] as u32;
        let b2: u32 = data[offset + 2] as u32;
        let b3: u32 = data[offset + 3] as u32;
        let v: u32 = b0 | (b1 << 8) | (b2 << 16) | (b3 << 24);
        proof {
            assert(v == b0 + 256 * (b1 + 256 * (b2 + 256 * b3))) by (bit_vector)
                requires
                    v == b0 | (b1 << 8) | (b2 << 16) | (b3 << 24),
                    b0 < 256,
                    b1 < 256,
                    b2 < 256,
                    b3 < 256,
            ;
            reveal_with_fuel(le_unsigned, 5);
        }
        Some(v)
    }
}

/// Reads the unsigned 32-bit number at `offset`, which lies inside `data`.
pub fn u32_at(data: &[u8], offset: usize) -> (r: u32)
    requires
        in_range(data@.len(), offset as int, 4),
    ensures
        r == le_unsigned(data@, offset as int, 4),
{
    proof {
        lemma_le_unsigned_bound(data@, offset as int, 4);
        lemma_radix_values();
    }
    match read_u32(data, offset) {
        Some(v) => v,
        None => unreached(),
    }
}

/// Reads a signed 32-bit number, or nothing where the four bytes do not lie
/// inside `data`.
pub fn read_i32(data: &[u8], offset: usize) -> (r: Option<i32>)
    ensures
        r == if in_range(data@.len(), offset as int, 4) {
            Some(le_signed(data@, offset as int, 4) as i32)
        } else {
            None
        },
{
    match read_u32(data, offset) {
        Some(v) => {
            let w: i32 = v as i32;
            proof {
                lemma_radix_values();
                assert(w == if v >= 0x8000_0000u32 {
                    v - 0x1_0000_0000
                } else {
                    v as int
                }) by (bit_vector)
                    requires
                        w == v as i32,
                ;
                lemma_le_unsigned_bound(data@, offset as int, 4);
            }
            Some(w)
        },
        None => None,
    }
}

/// Reads a signed 16-bit number, or nothing where the two bytes do not lie
/// inside `data`.
pub fn read_i16(data: &[u8], offset: usize) -> (r: Option<i16>)
    ensures
        r == if in_range(data@.len(), offset as int, 2) {
            Some(le_signed(data@, offset as int, 2) as i16)
        } else {
            None
        },
{
    if offset > data.len() || data.len() - offset < 2 {
        None
    } else {
        let b0: u16 = data[offset] as u16;
        let b1: u16 = data[offset + 1] as u16;
        let v: u16 = b0 | (b1 << 8);
        let w: i16 = v as i16;
        proof {
            assert(v == b0 + 256 * b1) by (bit_vector)
                requires
                    v == b0 | (b1 << 8),
                    b0 < 256,
                    b1 < 256,
            ;
            assert(w == if v >= 0x8000u16 {
                v - 0x1_0000
            } else {
                v as int
            }) by (bit_vector)
                requires
                    w == v as i16,
            ;
            reveal_with_fuel(le_unsigned, 3);
            lemma_radix_values();
        }
        Some(w)
    }
}

/// Reads a signed 64-bit number, or nothing where the eight bytes do not lie
/// inside `data`.
pub fn read_i64(data: &[u8], offset: usize) -> (r: Option<i64>)
    ensures
        r == if in_range(data@.len(), offset as int, 8) {
            Some(le_signed(data@, offset as int, 8) as i64)
        } else {
            None
        },
{
    if offset > data.len() || data.len() - offset < 8 {
        None
    } else {
        let b0: u64 = data[offset] as u64;
        let b1: u64 = data[offset + 1] as u64;
        let b2: u64 = data[offset + 2] as u64;
        let b3: u64 = data[offset + 3] as u64;
        let b4: u64 = data[offset + 4] as u64;
        let b5: u64 = data[offset + 5] as u64;
        let b6: u64 = data[offset + 6] as u64;
        let b7: u64 = data[offset + 7] as u64;
        let v: u64 = b0 | (b1 << 8) | (b2 << 16) | (b3 << 24) | (b4 << 32) | (b5 << 40) | (b6
            << 48) | (b7 << 56);
        let w: i64 = v as i64;
        proof {
            assert(v == b0 + 256 * (b1 + 256 * (b2 + 256 * (b3 + 256 * (b4 + 256 * (b5 + 256 * (b6
                + 256 * b7))))))) by (bit_vector)
                requires
                    v == b0 | (b1 << 8) | (b2 << 16) | (b3 << 24) | (b4 << 32) | (b5 << 40) | (b6
                        << 48) | (b7 << 56),
                    b0 < 256,
                    b1 < 256,
                    b2 < 256,
                    b3 < 256,
                    b4 < 256,
                    b5 < 256,
                    b6 < 256,
                    b7 < 256,
            ;
            assert(w == if v >= 0x8000_0000_0000_0000u64 {
                v - 0x1_0000_0000_0000_0000
            } else {
                v as int
            }) by (bit_vector)
                requires
                    w == v as i64,
            ;
            assert(v == le_unsigned(data@, offset as int, 8)) by {
                reveal_with_fuel(le_unsigned, 9);
            }
            lemma_radix_values();
        }
        Some(w)
    }
}

/// Rounds `pos` up to the next multiple of `align`, a power of two.
pub fn align_up(pos: usize, align: usize) -> (r: usize)
    requires
        is_power_of_two(align as int),
        pos + align - 1 <= usize::MAX,
    ensures
        r == round_up(pos as int, align as int),
        pos <= r < pos + align,
        r % align == 0,
{
    proof {
        lemma_pow2_pos(choose|k: nat| align == pow2(k));
    }
    let mask: usize = align - 1;
    let sum: usize = pos + mask;
    let r: usize = sum & !mask;
    proof {
        let k = choose|k: nat| align == pow2(k);
        if k >= usize::BITS {
            lemma2_to64();
            if k > 64 {
                lemma_pow2_strictly_increases(64, k);
            }
            if usize::BITS == 32 && k > 32 {
                lemma_pow2_strictly_increases(32, k);
            }
        }
        lemma_usize_low_bits_mask_is_mod(sum, k);
        assert(sum & !mask == sum - (sum & mask)) by (bit_vector);
        lemma_fundamental_div_mod(sum as int, align as int);
        lemma_round_up_bounds(pos as int, align as int);
    }
    r
}

/// `round_up` gives the one multiple of `align` in `[pos, pos + align)`.
pub proof fn lemma_round_up_bounds(pos: int, align: int)
    requires
        align > 0,
    ensures
        pos <= round_up(pos, align) < pos + align,
        round_up(pos, align) % align == 0,
        round_up(pos, align) == pos + align - 1 - (pos + align - 1) % align,
{
    let sum = pos + align - 1;
    lemma_fundamental_div_mod(sum, align);
    lemma_mod_multiples_basic(sum / align, align);
    lemma_mul_is_commutative(sum / align, align);
    lemma_mod_bound(sum, align);
}

} // verus!

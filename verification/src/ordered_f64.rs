//! Order-preserving 16-byte encoding of an IEEE-754 double.
//!
//! A double travels through this crate as its raw bits (`u64`), so the
//! codec is pure bit manipulation.  The first 8 bytes of the encoding
//! are the bits with all bits flipped for a negative value and the sign
//! bit set for a non-negative one, written big-endian: lexicographic
//! byte order of that half equals numeric order over all finite
//! doubles.  The second 8 bytes are the raw bits, big-endian, so the
//! original value can be recovered after a range scan.

use vstd::arithmetic::mul::{lemma_mul_inequality, lemma_mul_strict_inequality};
use vstd::arithmetic::power2::{lemma2_to64, lemma2_to64_rest, lemma_pow2_adds, lemma_pow2_pos, lemma_pow2_strictly_increases, pow2};
use vstd::prelude::*;

use crate::codec::{lemma_lex_lt_append, lemma_u64_lt_lex, lex_lt, push_u64_be, u64_be_bytes};

verus! {

/// Mask of the sign bit of a double's raw bits.
pub const F64_SIGN_MASK: u64 = 0x8000_0000_0000_0000;

/// The biased exponent field of a double's raw bits.
pub open spec fn f64_exp(bits: u64) -> u64 {
    (bits >> 52) & 0x7ff
}

/// The fraction (mantissa) field of a double's raw bits.
pub open spec fn f64_frac(bits: u64) -> u64 {
    bits & 0xf_ffff_ffff_ffff
}

/// Whether the sign bit is set.
pub open spec fn f64_sign(bits: u64) -> bool {
    bits & 0x8000_0000_0000_0000 != 0
}

/// A double is finite when its exponent field is not all ones
/// (all-ones marks an infinity or a NaN).
pub open spec fn f64_is_finite(bits: u64) -> bool {
    f64_exp(bits) != 0x7ff
}

/// The magnitude of a double, scaled by 2^1074 so that it is an exact
/// integer: subnormals are `frac`, normals are `(frac + 2^52) *
/// 2^(exp - 1)` in units of the smallest subnormal.
pub open spec fn f64_magnitude(bits: u64) -> int {
    if f64_exp(bits) == 0 {
        f64_frac(bits) as int
    } else {
        (f64_frac(bits) + pow2(52)) * pow2((f64_exp(bits) - 1) as nat)
    }
}

/// The exact numeric value of a finite double, scaled by 2^1074.
/// Comparing these integers is comparing the doubles numerically
/// (both zeroes map to 0).
pub open spec fn f64_value_scaled(bits: u64) -> int {
    if f64_sign(bits) {
        -f64_magnitude(bits)
    } else {
        f64_magnitude(bits)
    }
}

/// The order-preserving first half of the encoding: a negative value
/// has all bits flipped, a non-negative one gets the sign bit set.
pub open spec fn ordered_bits(bits: u64) -> u64 {
    if f64_sign(bits) {
        !bits
    } else {
        bits | 0x8000_0000_0000_0000
    }
}

/// The whole 16-byte payload of a `Number` key.
pub open spec fn ordered_f64_bytes(bits: u64) -> Seq<u8> {
    u64_be_bytes(ordered_bits(bits)) + u64_be_bytes(bits)
}

/// A 64-bit word read back from 8 big-endian bytes.
pub open spec fn u64_from_be_bytes(s: Seq<u8>) -> u64
    recommends
        s.len() == 8,
{
    ((s[0] as u64) << 56) | ((s[1] as u64) << 48) | ((s[2] as u64) << 40) | ((s[3] as u64) << 32)
        | ((s[4] as u64) << 24) | ((s[5] as u64) << 16) | ((s[6] as u64) << 8) | (s[7] as u64)
}

/// Encodes a double, given as its raw bits, into the 16-byte ordered
/// payload; a non-finite value has no encoding and yields `None`.
pub fn encode_ordered_f64(bits: u64) -> (r: Option<Vec<u8>>)
    ensures
        r is Some <==> f64_is_finite(bits),
        r matches Some(v) ==> v@ == ordered_f64_bytes(bits) && v@.len() == 16,
{
    if (bits >> 52) & 0x7ff == 0x7ff {
        return None;
    }
    let mapped: u64 = if bits & F64_SIGN_MASK != 0 {
        !bits
    } else {
        bits | F64_SIGN_MASK
    };
    let mut buf: Vec<u8> = Vec::new();
    push_u64_be(&mut buf, mapped);
    push_u64_be(&mut buf, bits);
    assert(buf@ =~= ordered_f64_bytes(bits));
    Some(buf)
}

/// Reads the raw bits of the original double back out of the second
/// half of a 16-byte ordered payload.
pub fn recover_f64_bits(bytes: &Vec<u8>) -> (r: u64)
    requires
        bytes@.len() == 16,
    ensures
        r == u64_from_be_bytes(bytes@.skip(8)),
{
    let r: u64 = ((bytes[8] as u64) << 56) | ((bytes[9] as u64) << 48) | ((bytes[10] as u64) << 40)
        | ((bytes[11] as u64) << 32) | ((bytes[12] as u64) << 24) | ((bytes[13] as u64) << 16)
        | ((bytes[14] as u64) << 8) | (bytes[15] as u64);
    assert(bytes@.skip(8) =~= seq![
        bytes@[8], bytes@[9], bytes@[10], bytes@[11], bytes@[12], bytes@[13], bytes@[14],
        bytes@[15],
    ]);
    r
}

/// Recovering the raw bits from the second half of the encoding yields
/// the value that was encoded.
pub proof fn lemma_ordered_f64_round_trip(x: u64)
    ensures
        u64_from_be_bytes(ordered_f64_bytes(x).skip(8)) == x,
{
    assert(ordered_f64_bytes(x).skip(8) =~= u64_be_bytes(x));
    assert(((((x >> 56) as u8) as u64) << 56) | ((((x >> 48) as u8) as u64) << 48)
        | ((((x >> 40) as u8) as u64) << 40) | ((((x >> 32) as u8) as u64) << 32)
        | ((((x >> 24) as u8) as u64) << 24) | ((((x >> 16) as u8) as u64) << 16)
        | ((((x >> 8) as u8) as u64) << 8) | ((x as u8) as u64) == x) by (bit_vector);
}

/// Bit-level decomposition facts about a double's fields, all proved
/// by the bit-vector solver in one place.
proof fn lemma_f64_fields(b: u64)
    ensures
        b & 0x7fff_ffff_ffff_ffff == ((b >> 52) & 0x7ff) * 0x10_0000_0000_0000 + (b
            & 0xf_ffff_ffff_ffff),
        b & 0xf_ffff_ffff_ffff < 0x10_0000_0000_0000,
        (b >> 52) & 0x7ff < 0x800,
        (b >> 52) & 0x7ff == (b & 0x7fff_ffff_ffff_ffff) / 0x10_0000_0000_0000,
        b & 0xf_ffff_ffff_ffff == (b & 0x7fff_ffff_ffff_ffff) % 0x10_0000_0000_0000,
        b & 0x8000_0000_0000_0000 != 0 ==> b == 0x8000_0000_0000_0000 + (b
            & 0x7fff_ffff_ffff_ffff),
        b & 0x8000_0000_0000_0000 == 0 ==> b == (b & 0x7fff_ffff_ffff_ffff),
        !b == 0xffff_ffff_ffff_ffff - b,
        b & 0x8000_0000_0000_0000 == 0 ==> (b | 0x8000_0000_0000_0000) == 0x8000_0000_0000_0000
            + b,
        b & 0x7fff_ffff_ffff_ffff < 0x8000_0000_0000_0000,
{
    assert(b & 0x7fff_ffff_ffff_ffff == ((b >> 52) & 0x7ff) * 0x10_0000_0000_0000 + (b
        & 0xf_ffff_ffff_ffff)) by (bit_vector);
    assert(b & 0xf_ffff_ffff_ffff < 0x10_0000_0000_0000) by (bit_vector);
    assert((b >> 52) & 0x7ff < 0x800) by (bit_vector);
    assert((b >> 52) & 0x7ff == (b & 0x7fff_ffff_ffff_ffff) / 0x10_0000_0000_0000)
        by (bit_vector);
    assert(b & 0xf_ffff_ffff_ffff == (b & 0x7fff_ffff_ffff_ffff) % 0x10_0000_0000_0000)
        by (bit_vector);
    assert(b & 0x8000_0000_0000_0000 != 0 ==> b == 0x8000_0000_0000_0000 + (b
        & 0x7fff_ffff_ffff_ffff)) by (bit_vector);
    assert(b & 0x8000_0000_0000_0000 == 0 ==> b == (b & 0x7fff_ffff_ffff_ffff)) by (bit_vector);
    assert(!b == 0xffff_ffff_ffff_ffff - b) by (bit_vector);
    assert(b & 0x8000_0000_0000_0000 == 0 ==> (b | 0x8000_0000_0000_0000) == 0x8000_0000_0000_0000
        + b) by (bit_vector);
    assert(b & 0x7fff_ffff_ffff_ffff < 0x8000_0000_0000_0000) by (bit_vector);
}

/// Magnitudes respect the order of the sign-cleared bit patterns:
/// the IEEE layout puts the exponent above the fraction for exactly
/// this reason.
proof fn lemma_magnitude_strictly_monotone(a: u64, b: u64)
    requires
        f64_is_finite(a),
        f64_is_finite(b),
        a & 0x7fff_ffff_ffff_ffff < b & 0x7fff_ffff_ffff_ffff,
    ensures
        f64_magnitude(a) < f64_magnitude(b),
{
    lemma_f64_fields(a);
    lemma_f64_fields(b);
    lemma2_to64();
    lemma2_to64_rest();
    let ea = f64_exp(a) as int;
    let eb = f64_exp(b) as int;
    let fa = f64_frac(a) as int;
    let fb = f64_frac(b) as int;
    let p52 = pow2(52) as int;
    assert(p52 == 0x10_0000_0000_0000);
    if ea == eb {
        assert(fa < fb);
        if ea == 0 {
        } else {
            lemma_pow2_pos((ea - 1) as nat);
            lemma_mul_strict_inequality(fa + p52, fb + p52, pow2((ea - 1) as nat) as int);
        }
    } else {
        assert(ea < eb) by {
            if ea > eb {
                assert((eb + 1) * p52 <= ea * p52) by {
                    lemma_mul_inequality(eb + 1, ea, p52);
                }
            }
        }
        assert(eb >= 1);
        // magnitude of a is below pow2(ea + 52)
        assert(f64_magnitude(a) < pow2((ea + 52) as nat)) by {
            if ea == 0 {
                assert(pow2(52) == 0x10_0000_0000_0000);
            } else {
                lemma_pow2_pos((ea - 1) as nat);
                lemma_mul_strict_inequality(fa + p52, pow2(53) as int, pow2((ea - 1) as nat) as int);
                lemma_pow2_adds(53, (ea - 1) as nat);
            }
        }
        // magnitude of b is at least pow2(eb + 51)
        assert(pow2((eb + 51) as nat) <= f64_magnitude(b)) by {
            lemma_pow2_pos((eb - 1) as nat);
            lemma_mul_inequality(p52, fb + p52, pow2((eb - 1) as nat) as int);
            lemma_pow2_adds(52, (eb - 1) as nat);
        }
        assert(pow2((ea + 52) as nat) <= pow2((eb + 51) as nat)) by {
            if ea + 52 < eb + 51 {
                lemma_pow2_strictly_increases((ea + 52) as nat, (eb + 51) as nat);
            }
        }
    }
}

/// The flip-or-set-sign map preserves numeric order on finite doubles:
/// comparing the mapped words as unsigned integers is comparing the
/// doubles numerically.
pub proof fn lemma_ordered_bits_monotone(a: u64, b: u64)
    requires
        f64_is_finite(a),
        f64_is_finite(b),
        f64_value_scaled(a) < f64_value_scaled(b),
    ensures
        ordered_bits(a) < ordered_bits(b),
{
    lemma_f64_fields(a);
    lemma_f64_fields(b);
    let la = (a & 0x7fff_ffff_ffff_ffff) as int;
    let lb = (b & 0x7fff_ffff_ffff_ffff) as int;
    // trichotomy: the magnitude order fixes the order of the
    // sign-cleared patterns
    assert(f64_magnitude(a) < f64_magnitude(b) ==> la < lb) by {
        if la > lb {
            lemma_magnitude_strictly_monotone(b, a);
        }
        if la == lb {
            // equal sign-cleared patterns mean equal fields
            assert(f64_exp(a) == f64_exp(b) && f64_frac(a) == f64_frac(b));
        }
    }
    assert(f64_magnitude(b) < f64_magnitude(a) ==> lb < la) by {
        if lb > la {
            lemma_magnitude_strictly_monotone(a, b);
        }
        if la == lb {
            assert(f64_exp(a) == f64_exp(b) && f64_frac(a) == f64_frac(b));
        }
    }
    if f64_sign(a) && f64_sign(b) {
        // both negative: magnitudes reverse, complements reverse again
        assert(f64_magnitude(b) < f64_magnitude(a));
    } else if f64_sign(a) && !f64_sign(b) {
        // negative below non-negative: complement stays under 2^63,
        // sign-set lands at or above it
    } else if !f64_sign(a) && f64_sign(b) {
        // impossible: a non-negative value is not below a negative one
        assert(f64_magnitude(a) >= 0);
        assert(f64_magnitude(b) >= 0) by {
            if f64_exp(b) != 0 {
                lemma_pow2_pos((f64_exp(b) - 1) as nat);
                lemma_mul_inequality(0, f64_frac(b) + pow2(52), pow2((f64_exp(b) - 1) as nat) as int);
            }
        }
        assert(false);
    } else {
        // both non-negative: magnitudes and patterns agree
        assert(f64_magnitude(a) < f64_magnitude(b));
    }
}

/// Order preservation of the whole encoding: a numerically smaller
/// finite double encodes to a lexicographically smaller 16-byte key
/// payload.
pub proof fn lemma_ordered_f64_order_preserving(a: u64, b: u64)
    requires
        f64_is_finite(a),
        f64_is_finite(b),
        f64_value_scaled(a) < f64_value_scaled(b),
    ensures
        lex_lt(ordered_f64_bytes(a), ordered_f64_bytes(b)),
{
    lemma_ordered_bits_monotone(a, b);
    lemma_u64_lt_lex(ordered_bits(a), ordered_bits(b));
    lemma_lex_lt_append(
        u64_be_bytes(ordered_bits(a)),
        u64_be_bytes(ordered_bits(b)),
        u64_be_bytes(a),
        u64_be_bytes(b),
    );
}

} // verus!

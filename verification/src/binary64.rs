//! Binary64 numbers by their bit patterns: one sign bit, eleven exponent
//! bits and fifty-two fraction bits, read as a significand times a power of
//! two, and the rounding that brings a longer significand back to 53 binary
//! digits.

use vstd::prelude::*;
use vstd::arithmetic::div_mod::{
    lemma_div_by_multiple, lemma_div_is_ordered, lemma_fundamental_div_mod,
    lemma_mod_multiples_basic, lemma_multiply_divide_lt,
};
use vstd::arithmetic::mul::{lemma_mul_inequality, lemma_mul_strict_inequality};
use vstd::arithmetic::power2::{
    lemma2_to64, lemma2_to64_rest, lemma_pow2_adds, lemma_pow2_pos,
    lemma_pow2_strictly_increases, lemma_pow2_unfold, pow2,
};

verus! {

/// Two to the power 52: the range of the fraction field of a binary64
/// number, and the hidden bit of a normal one.
pub const FRACTION_RANGE: u64 = 0x10_0000_0000_0000;

/// Two to the power 53: the first significand that has a bit too many.
pub const SIGNIFICAND_RANGE: u64 = 0x20_0000_0000_0000;

/// The bit pattern of positive infinity.
pub const INFINITY: u64 = 0x7FF0_0000_0000_0000;

/// The bit pattern of negative zero: the sign bit alone.
pub const SIGN: u64 = 0x8000_0000_0000_0000;

/// The eleven exponent bits of a bit pattern.
pub open spec fn exponent_field(bits: u64) -> nat {
    ((bits / FRACTION_RANGE) % 2048) as nat
}

/// The fifty-two fraction bits of a bit pattern.
pub open spec fn fraction_field(bits: u64) -> nat {
    (bits % FRACTION_RANGE) as nat
}

/// Whether the sign bit is set.
pub open spec fn is_negative(bits: u64) -> bool {
    bits >= SIGN
}

/// Whether the bit pattern is a number: neither an infinity nor a NaN.
pub open spec fn is_finite(bits: u64) -> bool {
    exponent_field(bits) != 2047
}

/// Whether the bit pattern is a NaN.
pub open spec fn is_nan(bits: u64) -> bool {
    exponent_field(bits) == 2047 && fraction_field(bits) != 0
}

/// Whether the bit pattern is a number above zero.
pub open spec fn is_positive_finite(bits: u64) -> bool {
    0 < bits < INFINITY
}

/// The significand of a finite bit pattern, as a whole number: its
/// magnitude is `significand(bits)` times two to the `exponent(bits)`.
pub open spec fn significand(bits: u64) -> nat {
    if exponent_field(bits) == 0 {
        fraction_field(bits)
    } else {
        (fraction_field(bits) + FRACTION_RANGE) as nat
    }
}

/// The power of two that scales the significand of a finite bit pattern.
pub open spec fn exponent(bits: u64) -> int {
    if exponent_field(bits) == 0 {
        -1074
    } else {
        exponent_field(bits) - 1075
    }
}

/// How many binary digits `n` has: the least `k` with `n` below two to the
/// `k`.
pub open spec fn bit_length(n: nat) -> nat
    decreases n,
{
    if n == 0 {
        0
    } else {
        1 + bit_length(n / 2)
    }
}

/// `n` divided by `d`, rounded to the nearest whole number, and to the even
/// one of the two where the quotient lies half way.
pub open spec fn rounded_quotient(n: nat, d: nat) -> nat {
    let below = n / d;
    let rest = n % d;
    if 2 * rest > d || (2 * rest == d && below % 2 == 1) {
        (below + 1) as nat
    } else {
        below
    }
}

/// `n` divided by two to the `drop`, rounded to the nearest whole number,
/// ties to even.
pub open spec fn round_half_even(n: nat, drop: nat) -> nat {
    rounded_quotient(n, pow2(drop))
}

/// The bit pattern of the positive normal number `significand` times two to
/// the `exponent`, for a significand from two to the 52 up to two to the
/// 53; the latter is the former, one exponent up.
pub open spec fn normal_bits(significand: nat, exponent: int) -> u64 {
    if significand == SIGNIFICAND_RANGE {
        ((exponent + 1076) * FRACTION_RANGE) as u64
    } else {
        ((exponent + 1075) * FRACTION_RANGE + (significand - FRACTION_RANGE)) as u64
    }
}

/// How many binary digits of `n` a significand of 53 bits cannot hold.
pub open spec fn excess_bits(n: nat) -> nat {
    if bit_length(n) > 53 {
        (bit_length(n) - 53) as nat
    } else {
        0
    }
}

/// The significand of `n` rounded to 53 binary digits; the rounded number
/// is this significand times two to the `excess_bits(n)`.
pub open spec fn rounded_significand(n: nat) -> nat {
    round_half_even(n, excess_bits(n))
}

/// The rounded quotient is a nearest one: it is off by at most half of the
/// divisor, and where it is off by exactly half, it is even.
pub proof fn lemma_rounded_quotient_is_nearest(n: nat, d: nat)
    requires
        d > 0,
    ensures
        2 * (rounded_quotient(n, d) * d - n) <= d,
        2 * (n - rounded_quotient(n, d) * d) <= d,
        2 * (rounded_quotient(n, d) * d - n) == d || 2 * (n - rounded_quotient(n, d) * d) == d
            ==> rounded_quotient(n, d) % 2 == 0,
{
    let below = n / d;
    let rest = n % d;
    let q = rounded_quotient(n, d);
    lemma_fundamental_div_mod(n as int, d as int);
    assert(q * d == below * d + (q - below) * d) by (nonlinear_arith);
    assert(d * below == below * d) by (nonlinear_arith);
    assert((q - below) * d == if q == below {
        0
    } else {
        d as int
    }) by (nonlinear_arith)
        requires
            q == below || q == below + 1,
    ;
}

/// A number with digits is at least two to the number of its digits less
/// one, and below two to the number of its digits.
pub proof fn lemma_bit_length_bounds(n: nat)
    ensures
        n < pow2(bit_length(n)),
        n > 0 ==> bit_length(n) > 0 && pow2((bit_length(n) - 1) as nat) <= n,
    decreases n,
{
    if n == 0 {
        lemma_pow2_pos(0);
    } else {
        lemma_bit_length_bounds(n / 2);
        lemma_pow2_unfold(bit_length(n));
        if n / 2 > 0 {
            lemma_pow2_unfold(bit_length(n / 2));
        } else {
            lemma2_to64();
        }
    }
}

/// A number below two to the `k` has at most `k` digits.
pub proof fn lemma_bit_length_at_most(n: nat, k: nat)
    requires
        n < pow2(k),
    ensures
        bit_length(n) <= k,
{
    lemma_bit_length_bounds(n);
    if n > 0 && bit_length(n) > k {
        let low = (bit_length(n) - 1) as nat;
        if k < low {
            lemma_pow2_strictly_increases(k, low);
        }
    }
}

/// A number of at least two to the `k` has more than `k` digits.
pub proof fn lemma_bit_length_above(n: nat, k: nat)
    requires
        pow2(k) <= n,
    ensures
        bit_length(n) > k,
{
    lemma_bit_length_bounds(n);
    if bit_length(n) < k {
        lemma_pow2_strictly_increases(bit_length(n), k);
    }
}

/// Rounding to 53 digits keeps any number of up to 53 digits as it is, and
/// gives a significand from two to the 52 up to two to the 53 for a longer
/// one.
pub proof fn lemma_rounded_significand_range(n: nat)
    ensures
        bit_length(n) <= 53 ==> rounded_significand(n) == n,
        bit_length(n) > 53 ==> pow2(52) <= rounded_significand(n) <= pow2(53),
        rounded_significand(n) <= pow2(53),
        n > 0 ==> rounded_significand(n) > 0,
{
    lemma_bit_length_bounds(n);
    lemma2_to64();
    lemma2_to64_rest();
    if bit_length(n) <= 53 {
        assert(pow2(0) == 1);
        assert(n / 1 == n && n % 1 == 0);
        if bit_length(n) < 53 {
            lemma_pow2_strictly_increases(bit_length(n), 53);
        }
    } else {
        let drop = excess_bits(n);
        let unit = pow2(drop);
        lemma_pow2_pos(drop);
        lemma_pow2_adds(drop, 53);
        lemma_pow2_adds(52, drop);
        assert(n < unit * pow2(53));
        lemma_multiply_divide_lt(n as int, unit as int, pow2(53) as int);
        assert(pow2(52) * unit <= n);
        lemma_div_is_ordered((pow2(52) * unit) as int, n as int, unit as int);
        lemma_div_by_multiple(pow2(52) as int, unit as int);
    }
}

/// Two to the power `n`.
pub fn power_of_two(n: u32) -> (p: u128)
    requires
        n <= 127,
    ensures
        p == pow2(n as nat),
{
    let mut p: u128 = 1;
    let mut i: u32 = 0;
    proof {
        lemma2_to64();
    }
    while i < n
        invariant
            i <= n <= 127,
            p == pow2(i as nat),
        decreases n - i,
    {
        proof {
            lemma_pow2_unfold((i + 1) as nat);
            lemma2_to64();
            lemma2_to64_rest();
            lemma_pow2_adds(64, 63);
            if i + 1 < 127 {
                lemma_pow2_strictly_increases((i + 1) as nat, 127);
            }
        }
        p = p * 2;
        i = i + 1;
    }
    p
}

/// The number of binary digits of `n`.
pub fn count_bits(n: u128) -> (k: u32)
    ensures
        k == bit_length(n as nat),
        k <= 128,
{
    let mut k: u32 = 0;
    let mut rest: u128 = n;
    proof {
        lemma2_to64();
        lemma_pow2_adds(64, 64);
    }
    while rest > 0
        invariant
            k <= 128,
            rest < pow2((128 - k) as nat),
            k + bit_length(rest as nat) == bit_length(n as nat),
        decreases rest,
    {
        proof {
            if k == 128 {
                lemma2_to64();
            } else {
                lemma_pow2_unfold((128 - k) as nat);
            }
        }
        rest = rest / 2;
        k = k + 1;
    }
    k
}

/// Rounds `n` to 53 binary digits: returns the significand and the number
/// of digits that it dropped.
pub fn round_to_precision(n: u128) -> (r: (u64, u32))
    ensures
        r.0 == rounded_significand(n as nat),
        r.1 == excess_bits(n as nat),
        r.0 <= SIGNIFICAND_RANGE,
        r.1 <= 75,
        n > 0 ==> r.0 > 0,
{
    let digits = count_bits(n);
    proof {
        lemma_rounded_significand_range(n as nat);
        lemma2_to64();
        lemma2_to64_rest();
    }
    if digits <= 53 {
        (n as u64, 0)
    } else {
        let drop = digits - 53;
        let unit = power_of_two(drop);
        proof {
            lemma_pow2_unfold(drop as nat);
            lemma_pow2_pos((drop - 1) as nat);
        }
        let below = n / unit;
        let rest = n % unit;
        let half = unit / 2;
        if rest > half || (rest == half && below % 2 == 1) {
            ((below + 1) as u64, drop)
        } else {
            (below as u64, drop)
        }
    }
}

/// The bit pattern that `normal_bits` gives is that of a number above
/// zero, with the significand and the exponent that went in.
pub proof fn lemma_normal_bits_decode(significand_in: nat, exponent_in: int)
    requires
        FRACTION_RANGE <= significand_in <= SIGNIFICAND_RANGE,
        -1074 <= exponent_in < 971,
    ensures
        is_positive_finite(normal_bits(significand_in, exponent_in)),
        significand_in < SIGNIFICAND_RANGE ==> {
            &&& significand(normal_bits(significand_in, exponent_in)) == significand_in
            &&& exponent(normal_bits(significand_in, exponent_in)) == exponent_in
        },
        significand_in == SIGNIFICAND_RANGE ==> {
            &&& significand(normal_bits(significand_in, exponent_in)) == FRACTION_RANGE
            &&& exponent(normal_bits(significand_in, exponent_in)) == exponent_in + 1
        },
{
    let field = if significand_in == SIGNIFICAND_RANGE {
        exponent_in + 1076
    } else {
        exponent_in + 1075
    };
    let fraction = if significand_in == SIGNIFICAND_RANGE {
        0
    } else {
        significand_in - FRACTION_RANGE
    };
    let bits = field * FRACTION_RANGE + fraction;
    assert(1 <= field <= 2046);
    assert(0 <= fraction < FRACTION_RANGE);
    assert(bits == normal_bits(significand_in, exponent_in));
    assert(bits / (FRACTION_RANGE as int) == field && bits % (FRACTION_RANGE as int) == fraction)
        by (nonlinear_arith)
        requires
            bits == field * FRACTION_RANGE + fraction,
            0 <= fraction < FRACTION_RANGE,
            FRACTION_RANGE == 0x10_0000_0000_0000,
    ;
}

/// Whether `n` fits a significand of 53 digits with nothing lost: the
/// digits that rounding drops are all zero.
pub open spec fn is_exact(n: nat) -> bool {
    n % pow2(excess_bits(n)) == 0
}

/// Shifting a number up by `s` digits gives it `s` digits more.
pub proof fn lemma_bit_length_shifted(n: nat, s: nat)
    requires
        n > 0,
    ensures
        bit_length(n * pow2(s)) == bit_length(n) + s,
{
    lemma_bit_length_bounds(n);
    let digits = bit_length(n);
    lemma_pow2_adds(digits, s);
    lemma_pow2_adds((digits - 1) as nat, s);
    lemma_pow2_pos(s);
    lemma_mul_strict_inequality(n as int, pow2(digits) as int, pow2(s) as int);
    lemma_mul_inequality(pow2((digits - 1) as nat) as int, n as int, pow2(s) as int);
    lemma_bit_length_at_most(n * pow2(s), digits + s);
    lemma_bit_length_above(n * pow2(s), (digits - 1 + s) as nat);
}

/// A number shifted up by `a` digits is a multiple of two to the `b` for
/// any `b` up to `a`, and shifting it down by `b` leaves it shifted up by
/// the difference.
pub proof fn lemma_shifted_multiple(n: nat, a: nat, b: nat)
    requires
        b <= a,
    ensures
        (n * pow2(a)) % pow2(b) == 0,
        (n * pow2(a)) / pow2(b) == n * pow2((a - b) as nat),
{
    lemma_pow2_adds((a - b) as nat, b);
    lemma_pow2_pos(b);
    let m = n * pow2((a - b) as nat);
    assert(n * pow2(a) == m * pow2(b)) by (nonlinear_arith)
        requires
            pow2(a) == pow2((a - b) as nat) * pow2(b),
            m == n * pow2((a - b) as nat),
    ;
    lemma_mod_multiples_basic(m as int, pow2(b) as int);
    lemma_div_by_multiple(m as int, pow2(b) as int);
}

/// Rounding changes nothing in a number that fits: its significand,
/// shifted up again by the digits that were dropped, is the number, and
/// has at most 53 digits.
pub proof fn lemma_exact_significand(n: nat)
    requires
        n > 0,
        is_exact(n),
    ensures
        rounded_significand(n) * pow2(excess_bits(n)) == n,
        0 < rounded_significand(n) < pow2(53),
        bit_length(rounded_significand(n)) + excess_bits(n) == bit_length(n),
{
    let drop = excess_bits(n);
    let unit = pow2(drop);
    lemma_pow2_pos(drop);
    lemma_fundamental_div_mod(n as int, unit as int);
    let sig = n / unit;
    assert(rounded_significand(n) == sig);
    assert(sig * unit == n) by (nonlinear_arith)
        requires
            n == unit * sig + 0,
    ;
    lemma_bit_length_bounds(n);
    lemma_rounded_significand_range(n);
    if bit_length(n) > 53 {
        lemma_pow2_adds(drop, 53);
        lemma_multiply_divide_lt(n as int, unit as int, pow2(53) as int);
    } else {
        if bit_length(n) < 53 {
            lemma_pow2_strictly_increases(bit_length(n), 53);
        }
    }
    lemma_bit_length_shifted(sig, drop);
}

} // verus!

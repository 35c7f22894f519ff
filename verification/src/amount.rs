//! Amounts of SOL and counts of lamports.
//!
//! An amount of SOL is a binary64 number. This library holds such a number
//! by its bit pattern, a `u64`, and computes on it with whole numbers: every
//! result here is the bit pattern, or the integer, that the arithmetic of
//! binary64 numbers gives, rounding to the nearest number and to the even
//! one of two that are equally near.

use vstd::prelude::*;
use vstd::arithmetic::div_mod::{
    lemma_basic_div, lemma_div_by_multiple, lemma_div_nonincreasing, lemma_fundamental_div_mod,
    lemma_mod_multiples_basic,
};
use vstd::arithmetic::mul::{
    lemma_mul_increases, lemma_mul_inequality, lemma_mul_strict_inequality,
    lemma_mul_upper_bound,
};
use vstd::arithmetic::power2::{
    lemma2_to64, lemma2_to64_rest, lemma_pow2_adds, lemma_pow2_pos,
    lemma_pow2_strictly_increases, lemma_pow2_unfold, pow2,
};
use crate::binary64::{
    bit_length, count_bits, excess_bits, exponent, exponent_field, is_exact, is_finite, is_nan,
    is_negative, is_positive_finite, lemma_bit_length_above, lemma_bit_length_at_most,
    lemma_bit_length_bounds, lemma_bit_length_shifted, lemma_exact_significand,
    lemma_normal_bits_decode, lemma_rounded_significand_range, lemma_shifted_multiple,
    normal_bits, power_of_two, round_to_precision, rounded_quotient, rounded_significand,
    significand, FRACTION_RANGE, INFINITY, SIGN, SIGNIFICAND_RANGE,
};
use crate::error::{ValidationError, ValidationErrorView};
use crate::text::trimmed;
use crate::validate::trim_and_parse;

verus! {

/// How many lamports make one SOL.
pub const LAMPORTS_PER_SOL: u64 = 1_000_000_000;

/// The bit pattern of the largest amount, a little over 18446744073 SOL:
/// the last binary64 number whose lamports a `u64` can count.
pub const LARGEST_AMOUNT: u64 = 0x4211_2E0B_E826_D694;

/// The whole part of `significand` times two to the `exponent`.
pub open spec fn whole_part(significand: nat, exponent: int) -> nat {
    if exponent >= 0 {
        significand * pow2(exponent as nat)
    } else {
        significand / pow2((-exponent) as nat)
    }
}

/// The lamports in the amount with the finite, non-negative bit pattern
/// `bits`, before any bound: the amount times `LAMPORTS_PER_SOL`, rounded
/// to the nearest binary64 number as the multiplication of two such numbers
/// is, and of that the whole part. What lies behind the point is dropped,
/// never rounded up.
pub open spec fn scaled_lamports(bits: u64) -> nat {
    let product = (significand(bits) * LAMPORTS_PER_SOL) as nat;
    whole_part(rounded_significand(product), exponent(bits) + excess_bits(product))
}

/// The lamports in the amount with the bit pattern `bits`, as the
/// conversion of a binary64 number to an unsigned integer gives them: zero
/// for what is negative or not a number, the largest `u64` for what is above
/// it.
pub open spec fn lamports_of_sol(bits: u64) -> u64 {
    if is_negative(bits) || is_nan(bits) {
        0
    } else if !is_finite(bits) {
        u64::MAX
    } else if scaled_lamports(bits) > u64::MAX {
        u64::MAX
    } else {
        scaled_lamports(bits) as u64
    }
}

/// Whether `bits` is the bit pattern of an amount: a number above zero
/// whose lamports a `u64` can count.
pub open spec fn is_amount(bits: u64) -> bool {
    is_positive_finite(bits) && scaled_lamports(bits) <= u64::MAX
}

/// What the check of an amount comes to.
pub open spec fn checked_amount(bits: u64) -> Result<u64, ValidationErrorView> {
    if !is_positive_finite(bits) {
        Err(ValidationErrorView::AmountNotPositive { bits })
    } else if scaled_lamports(bits) > u64::MAX {
        Err(ValidationErrorView::AmountTooLarge { bits })
    } else {
        Ok(bits)
    }
}

/// Computes `scaled_lamports(bits)` as far as it matters: exactly where a
/// `u64` can hold it, and as some number above every `u64` where none can.
fn scale(bits: u64) -> (r: u128)
    requires
        bits < INFINITY,
    ensures
        scaled_lamports(bits) <= u64::MAX ==> r == scaled_lamports(bits),
        scaled_lamports(bits) > u64::MAX ==> r > u64::MAX,
{
    let field = (bits / FRACTION_RANGE) % 2048;
    let fraction = bits % FRACTION_RANGE;
    let (m, e): (u64, i32) = if field == 0 {
        (fraction, -1074)
    } else {
        (fraction + FRACTION_RANGE, field as i32 - 1075)
    };
    assert(m == significand(bits) && e == exponent(bits));
    assert(m * LAMPORTS_PER_SOL <= 0x20_0000_0000_0000 * 1_000_000_000) by (nonlinear_arith)
        requires
            m <= 0x20_0000_0000_0000,
            LAMPORTS_PER_SOL == 1_000_000_000,
    ;
    let product: u128 = (m as u128) * (LAMPORTS_PER_SOL as u128);
    let (sig, drop) = round_to_precision(product);
    let up: i32 = e + drop as i32;
    proof {
        lemma2_to64();
        lemma2_to64_rest();
    }
    if up >= 0 {
        if sig == 0 {
            assert(0 * pow2(up as nat) == 0);
            0
        } else if up > 64 {
            proof {
                lemma_pow2_strictly_increases(64, up as nat);
                lemma_mul_increases(sig as int, pow2(up as nat) as int);
            }
            0x1_0000_0000_0000_0000
        } else {
            proof {
                if up < 64 {
                    lemma_pow2_strictly_increases(up as nat, 64);
                }
                lemma_mul_upper_bound(
                    sig as int,
                    0x20_0000_0000_0000,
                    pow2(up as nat) as int,
                    0x1_0000_0000_0000_0000,
                );
            }
            sig as u128 * power_of_two(up as u32)
        }
    } else {
        let down: u32 = (-up) as u32;
        if down >= 64 {
            proof {
                if down > 64 {
                    lemma_pow2_strictly_increases(64, down as nat);
                }
                lemma_basic_div(sig as int, pow2(down as nat) as int);
            }
            0
        } else {
            proof {
                lemma_pow2_pos(down as nat);
            }
            sig as u128 / power_of_two(down)
        }
    }
}

/// Converts an amount of SOL, given by its binary64 bit pattern, to
/// lamports.
pub fn sol_to_lamports(bits: u64) -> (lamports: u64)
    ensures
        lamports == lamports_of_sol(bits),
{
    if bits >= SIGN {
        0
    } else if bits > INFINITY {
        0
    } else if bits == INFINITY {
        u64::MAX
    } else {
        let r = scale(bits);
        if r > u64::MAX as u128 {
            u64::MAX
        } else {
            r as u64
        }
    }
}

/// By how many binary digits the significand `n` of a lamport count is
/// shifted up before it is divided by `LAMPORTS_PER_SOL`, so that the
/// quotient has 53 digits before it is rounded.
pub open spec fn quotient_shift(n: nat) -> nat {
    let wide = (83 - bit_length(n)) as nat;
    if (n * pow2(wide)) / (LAMPORTS_PER_SOL as nat) < SIGNIFICAND_RANGE {
        wide
    } else {
        (wide - 1) as nat
    }
}

/// The bit pattern of the amount of SOL that `lamports` are: the count as
/// the nearest binary64 number, divided by `LAMPORTS_PER_SOL`, and the
/// quotient rounded to the nearest binary64 number again, as the conversion
/// of an integer and the division of two such numbers are.
pub open spec fn sol_of_lamports(lamports: u64) -> u64 {
    if lamports == 0 {
        0
    } else {
        let n = rounded_significand(lamports as nat);
        let shift = quotient_shift(n);
        normal_bits(
            rounded_quotient(n * pow2(shift), LAMPORTS_PER_SOL as nat),
            excess_bits(lamports as nat) - shift,
        )
    }
}

/// Shifted up as `quotient_shift` says, a significand of at most 54 digits
/// divided by `LAMPORTS_PER_SOL` has 53 digits.
pub proof fn lemma_quotient_has_53_digits(n: nat)
    requires
        0 < n <= SIGNIFICAND_RANGE,
    ensures
        29 <= quotient_shift(n) <= 82,
        n * pow2(quotient_shift(n)) < pow2(83),
        FRACTION_RANGE <= (n * pow2(quotient_shift(n))) / (LAMPORTS_PER_SOL as nat)
            < SIGNIFICAND_RANGE,
{
    lemma2_to64();
    lemma2_to64_rest();
    lemma_bit_length_bounds(n);
    lemma_pow2_unfold(54);
    lemma_bit_length_at_most(n, 54);
    let digits = bit_length(n);
    let wide = (83 - digits) as nat;
    lemma_pow2_adds(digits, wide);
    lemma_pow2_adds((digits - 1) as nat, wide);
    lemma_pow2_adds(64, 19);
    lemma_pow2_adds(64, 18);
    lemma_pow2_adds(64, 20);
    lemma_pow2_pos(wide);
    lemma_mul_strict_inequality(n as int, pow2(digits) as int, pow2(wide) as int);
    lemma_mul_inequality(pow2((digits - 1) as nat) as int, n as int, pow2(wide) as int);
    let full = n * pow2(wide);
    assert(pow2(82) <= full < pow2(83));
    assert(pow2(83) == 0x8_0000_0000_0000_0000_0000);
    assert(pow2(82) == 0x4_0000_0000_0000_0000_0000);
    lemma_pow2_unfold(wide);
    let half = n * pow2((wide - 1) as nat);
    assert(full == 2 * half) by (nonlinear_arith)
        requires
            full == n * pow2(wide),
            half == n * pow2((wide - 1) as nat),
            pow2(wide) == 2 * pow2((wide - 1) as nat),
    ;
}

/// Converts lamports to the amount of SOL that they are, given by its
/// binary64 bit pattern. No lamports are the number zero; any other count is
/// a number above zero, the largest count too.
pub fn lamports_to_sol(lamports: u64) -> (bits: u64)
    ensures
        bits == sol_of_lamports(lamports),
        lamports == 0 ==> bits == 0,
        lamports > 0 ==> is_positive_finite(bits),
{
    if lamports == 0 {
        return 0;
    }
    let (n, dropped) = round_to_precision(lamports as u128);
    proof {
        lemma2_to64();
        lemma2_to64_rest();
        lemma_bit_length_at_most(lamports as nat, 64);
        lemma_bit_length_bounds(n as nat);
        lemma_pow2_unfold(54);
        lemma_bit_length_at_most(n as nat, 54);
        lemma_quotient_has_53_digits(n as nat);
    }
    let digits = count_bits(n as u128);
    let wide: u32 = 83 - digits;
    proof {
        lemma_pow2_adds(digits as nat, wide as nat);
        lemma_pow2_adds(64, 19);
        lemma_mul_strict_inequality(n as int, pow2(digits as nat) as int, pow2(wide as nat) as int);
        lemma_pow2_unfold(wide as nat);
        assert(n * pow2((wide - 1) as nat) <= n * pow2(wide as nat)) by (nonlinear_arith)
            requires
                pow2(wide as nat) == 2 * pow2((wide - 1) as nat),
        ;
    }
    let full: u128 = n as u128 * power_of_two(wide);
    let shift: u32 = if full / (LAMPORTS_PER_SOL as u128) < SIGNIFICAND_RANGE as u128 {
        wide
    } else {
        wide - 1
    };
    assert(shift == quotient_shift(n as nat));
    let scaled: u128 = n as u128 * power_of_two(shift);
    let below = scaled / (LAMPORTS_PER_SOL as u128);
    let rest = scaled % (LAMPORTS_PER_SOL as u128);
    let half = LAMPORTS_PER_SOL as u128 / 2;
    let sig: u128 = if rest > half || (rest == half && below % 2 == 1) {
        below + 1
    } else {
        below
    };
    assert(sig == rounded_quotient(n as nat * pow2(shift as nat), LAMPORTS_PER_SOL as nat));
    proof {
        lemma_normal_bits_decode(sig as nat, dropped - shift);
    }
    let carry: u64 = if sig == SIGNIFICAND_RANGE as u128 {
        1
    } else {
        0
    };
    let field: u64 = dropped as u64 + 1075 + carry - shift as u64;
    let fraction: u64 = if carry == 1 {
        0
    } else {
        (sig - FRACTION_RANGE as u128) as u64
    };
    assert(field * FRACTION_RANGE <= 2046 * 0x10_0000_0000_0000) by (nonlinear_arith)
        requires
            field <= 2046,
            FRACTION_RANGE == 0x10_0000_0000_0000,
    ;
    field * FRACTION_RANGE + fraction
}

/// The whole part is what is left when everything behind the point is
/// dropped: it is the largest whole number that is not above `significand`
/// times two to the `exponent`.
pub proof fn lemma_whole_part_rounds_down(significand: nat, exponent: int)
    requires
        exponent < 0,
    ensures
        whole_part(significand, exponent) * pow2((-exponent) as nat) <= significand,
        significand < (whole_part(significand, exponent) + 1) * pow2((-exponent) as nat),
{
    let unit = pow2((-exponent) as nat);
    lemma_pow2_pos((-exponent) as nat);
    lemma_fundamental_div_mod(significand as int, unit as int);
    let whole = significand / unit;
    let rest = significand % unit;
    assert(whole * unit == unit * whole) by (nonlinear_arith);
    assert((whole + 1) * unit == unit * whole + unit) by (nonlinear_arith);
}

/// Whether the amount with the finite bit pattern `bits`, times
/// `LAMPORTS_PER_SOL`, is at most the largest `u64`: the product as it is,
/// before any rounding.
pub open spec fn product_fits(bits: u64) -> bool {
    let product = significand(bits) * LAMPORTS_PER_SOL;
    if exponent(bits) >= 0 {
        product * pow2(exponent(bits) as nat) <= u64::MAX
    } else {
        product <= u64::MAX * pow2((-exponent(bits)) as nat)
    }
}

/// The amounts are the numbers above zero up to `LARGEST_AMOUNT`, and no
/// others: a number above zero is turned down as too large exactly when it
/// lies above that one. They are also the numbers above zero whose product
/// with `LAMPORTS_PER_SOL` is at most the largest `u64`: rounding the
/// product moves no number across that bound.
pub proof fn lemma_amounts_end_at_largest(bits: u64)
    ensures
        is_amount(bits) <==> 0 < bits <= LARGEST_AMOUNT,
        is_amount(bits) <==> is_positive_finite(bits) && product_fits(bits),
        checked_amount(bits) is Ok <==> 0 < bits <= LARGEST_AMOUNT,
        checked_amount(bits) == Err::<u64, ValidationErrorView>(
            ValidationErrorView::AmountTooLarge { bits },
        ) <==> LARGEST_AMOUNT < bits < INFINITY,
{
    lemma2_to64();
    lemma2_to64_rest();
    lemma_pow2_adds(64, 17);
    lemma_pow2_adds(64, 18);
    lemma_pow2_adds(64, 19);
    if 0 < bits < INFINITY {
        let field = exponent_field(bits);
        let m = significand(bits);
        let e = exponent(bits);
        let product = (m * LAMPORTS_PER_SOL) as nat;
        let drop = excess_bits(product);
        let sig = rounded_significand(product);
        let up = e + drop;
        assert(product == m * 1_000_000_000);
        lemma_bit_length_bounds(product);
        lemma_rounded_significand_range(product);
        assert(product < pow2(83));
        lemma_bit_length_at_most(product, 83);
        if field <= 1056 {
            assert(bits <= LARGEST_AMOUNT);
            if up >= 0 {
                if up < 11 {
                    if up < 10 {
                        lemma_pow2_strictly_increases(up as nat, 10);
                    }
                    lemma_mul_upper_bound(
                        sig as int,
                        0x20_0000_0000_0000,
                        pow2(up as nat) as int,
                        0x400,
                    );
                } else {
                    assert(drop == 30);
                    assert(sig <= product / 0x4000_0000 + 1);
                    assert(sig * pow2(11) == sig * 0x800);
                }
            } else {
                lemma_pow2_pos((-up) as nat);
                lemma_div_nonincreasing(sig as int, pow2((-up) as nat) as int);
            }
            assert(whole_part(sig, up) <= u64::MAX);
            assert(product_fits(bits)) by {
                let down = (-e) as nat;
                if down > 19 {
                    lemma_pow2_strictly_increases(19, down);
                }
                assert(u64::MAX * pow2(down) >= u64::MAX * 0x8_0000) by (nonlinear_arith)
                    requires
                        pow2(down) >= 0x8_0000,
                ;
            }
        } else {
            assert(m >= 0x10_0000_0000_0000);
            lemma_bit_length_above(product, 81);
            if field == 1057 {
                assert(pow2(18) == 0x4_0000);
                assert(product_fits(bits) <==> product <= u64::MAX * 0x4_0000);
                assert(product <= u64::MAX * 0x4_0000 <==> m <= 0x11_2E0B_E826_D694);
                assert(bits <= LARGEST_AMOUNT <==> m <= 0x11_2E0B_E826_D694);
                if product < pow2(82) {
                    lemma_bit_length_at_most(product, 82);
                    assert(up == 11);
                    assert(m <= 0x11_2E0B_E826_D694);
                    assert(sig == rounded_quotient(product, 0x2000_0000));
                    assert(product < 0x4_0000_0000_0000_0000_0000 - 0x1000_0000);
                    let below = product / 0x2000_0000;
                    let rest = product % 0x2000_0000;
                    assert(below <= 0x1F_FFFF_FFFF_FFFF);
                    assert(below == 0x1F_FFFF_FFFF_FFFF ==> rest < 0x1000_0000);
                    assert(sig < 0x20_0000_0000_0000);
                    assert(sig * pow2(11) == sig * 0x800);
                    assert(whole_part(sig, up) <= u64::MAX);
                } else {
                    lemma_bit_length_above(product, 82);
                    assert(up == 12);
                    assert(sig * pow2(12) == sig * 0x1000);
                    assert(whole_part(sig, up) > u64::MAX);
                }
            } else {
                assert(bits > LARGEST_AMOUNT);
                assert(up >= 12);
                if up == 12 {
                    assert(sig * pow2(12) == sig * 0x1000);
                } else {
                    lemma_pow2_pos(up as nat);
                    if up > 13 {
                        lemma_pow2_strictly_increases(13, up as nat);
                    }
                    assert(sig * pow2(up as nat) >= 0x10_0000_0000_0000 * 0x2000)
                        by (nonlinear_arith)
                        requires
                            sig >= 0x10_0000_0000_0000,
                            pow2(up as nat) >= 0x2000,
                    ;
                }
                assert(whole_part(sig, up) > u64::MAX);
                assert(!product_fits(bits)) by {
                    if e >= 0 {
                        lemma_pow2_pos(e as nat);
                        assert(product * pow2(e as nat) >= product) by (nonlinear_arith)
                            requires
                                pow2(e as nat) >= 1,
                                product >= 0,
                        ;
                    } else {
                        let down = (-e) as nat;
                        if down < 17 {
                            lemma_pow2_strictly_increases(down, 17);
                        }
                        assert(pow2(17) == 0x2_0000);
                        assert(u64::MAX * pow2(down) <= u64::MAX * 0x2_0000) by (nonlinear_arith)
                            requires
                                pow2(down) <= 0x2_0000,
                        ;
                    }
                }
            }
        }
    }
}

/// A count of lamports that is a whole number of SOL, and that a binary64
/// number holds exactly, comes back unchanged from the conversion to SOL
/// and back.
pub proof fn lemma_whole_sol_round_trip(lamports: u64)
    requires
        lamports % LAMPORTS_PER_SOL == 0,
        is_exact(lamports as nat),
    ensures
        lamports_of_sol(sol_of_lamports(lamports)) == lamports,
{
    lemma2_to64();
    lemma2_to64_rest();
    if lamports == 0 {
        lemma_pow2_pos(1074);
        lemma_basic_div(0, pow2(1074) as int);
        assert(bit_length(0) == 0);
        assert(rounded_significand(0) == 0);
        assert(scaled_lamports(0) == 0);
    } else {
        let l = lamports as nat;
        let d = LAMPORTS_PER_SOL as nat;
        let drop1 = excess_bits(l);
        let n = rounded_significand(l);
        lemma_exact_significand(l);
        lemma_bit_length_at_most(l, 64);
        lemma_quotient_has_53_digits(n);
        let s = quotient_shift(n);
        let t = (s - drop1) as nat;
        let x = n * pow2(s);
        lemma_pow2_adds(drop1, t);
        assert(x == l * pow2(t)) by (nonlinear_arith)
            requires
                x == n * pow2(s),
                pow2(s) == pow2(drop1) * pow2(t),
                n * pow2(drop1) == l,
        ;
        let k = l / d;
        lemma_fundamental_div_mod(l as int, d as int);
        let q = k * pow2(t);
        assert(x == q * d) by (nonlinear_arith)
            requires
                x == l * pow2(t),
                l == d * k,
                q == k * pow2(t),
        ;
        lemma_mod_multiples_basic(q as int, d as int);
        lemma_div_by_multiple(q as int, d as int);
        assert(rounded_quotient(x, d) == q);
        let bits = normal_bits(q, drop1 - s);
        assert(bits == sol_of_lamports(lamports));
        lemma_normal_bits_decode(q, drop1 - s);
        assert(!is_negative(bits) && is_finite(bits) && !is_nan(bits));
        assert(significand(bits) * LAMPORTS_PER_SOL == x);
        lemma_bit_length_shifted(n, s);
        lemma_bit_length_at_most(n, 53);
        lemma_bit_length_bounds(n);
        let drop2 = excess_bits(x);
        assert(drop2 == bit_length(n) + s - 53);
        lemma_shifted_multiple(n, s, drop2);
        let sig2 = n * pow2((s - drop2) as nat);
        lemma_pow2_pos(drop2);
        assert(rounded_significand(x) == sig2);
        let e2 = (drop1 - s) + drop2;
        if e2 >= 0 {
            lemma_pow2_adds((s - drop2) as nat, e2 as nat);
            assert(sig2 * pow2(e2 as nat) == l) by (nonlinear_arith)
                requires
                    sig2 == n * pow2((s - drop2) as nat),
                    pow2(drop1) == pow2((s - drop2) as nat) * pow2(e2 as nat),
                    n * pow2(drop1) == l,
            ;
        } else {
            lemma_shifted_multiple(n, (s - drop2) as nat, (-e2) as nat);
        }
        assert(whole_part(sig2, e2) == l);
        assert(scaled_lamports(bits) == l);
    }
}

/// An amount of SOL that has passed the check: a binary64 number above
/// zero, held by its bit pattern, whose lamports a `u64` can count.
#[derive(Debug, Clone, Copy)]
pub struct SolAmount {
    bits: u64,
}

impl View for SolAmount {
    type V = u64;

    closed spec fn view(&self) -> u64 {
        self.bits
    }
}

impl SolAmount {
    #[verifier::type_invariant]
    spec fn checked(self) -> bool {
        is_amount(self.bits)
    }

    /// Checks the amount with the bit pattern `bits`: it must be a number
    /// above zero, and a `u64` must be able to count its lamports.
    pub fn from_bits(bits: u64) -> (r: Result<SolAmount, ValidationError>)
        ensures
            match r {
                Ok(amount) => Ok(amount@),
                Err(e) => Err(e@),
            } == checked_amount(bits),
    {
        if bits == 0 || bits >= INFINITY {
            Err(ValidationError::AmountNotPositive { bits })
        } else if scale(bits) > u64::MAX as u128 {
            Err(ValidationError::AmountTooLarge { bits })
        } else {
            Ok(SolAmount { bits })
        }
    }

    /// The binary64 bit pattern of the amount.
    pub fn value(&self) -> (bits: u64)
        ensures
            bits == self@,
            is_amount(bits),
    {
        proof {
            use_type_invariant(self);
        }
        self.bits
    }

    /// The amount in lamports.
    pub fn to_lamports(&self) -> (lamports: u64)
        ensures
            lamports == scaled_lamports(self@),
            lamports == lamports_of_sol(self@),
    {
        proof {
            use_type_invariant(self);
        }
        sol_to_lamports(self.bits)
    }
}

/// What `parse_amount` makes of what the reader returned for the trimmed
/// text `text`.
pub open spec fn amount_read(text: Seq<char>, parsed: Option<u64>) -> Result<
    u64,
    ValidationErrorView,
> {
    match parsed {
        None => Err(ValidationErrorView::InvalidNumber { field: "amount"@, text }),
        Some(bits) => checked_amount(bits),
    }
}

/// Reads an amount of SOL from operator input.
///
/// Blank input is turned down: an amount has no default. Otherwise `read`
/// is handed the trimmed text, once, and is to return the bit pattern of the
/// binary64 number that the text writes, or `None` where it writes none; the
/// number is then checked as `SolAmount::from_bits` does.
pub fn parse_amount<F>(text: &str, read: F) -> (r: Result<SolAmount, ValidationError>) where
    F: Fn(&str) -> Option<u64>,

    requires
        forall|t: &str| t@ == trimmed(text@) ==> #[trigger] read.requires((t,)),
    ensures
        trimmed(text@).len() == 0 ==> (r matches Err(e) && e@
            == ValidationErrorView::EmptyAmount),
        trimmed(text@).len() > 0 ==> exists|t: &str, parsed: Option<u64>|
            {
                &&& t@ == trimmed(text@)
                &&& #[trigger] read.ensures((t,), parsed)
                &&& match r {
                    Ok(amount) => Ok(amount@),
                    Err(e) => Err(e@),
                } == amount_read(t@, parsed)
            },
{
    match trim_and_parse(text, "amount", read) {
        Err(e) => Err(e),
        Ok(None) => Err(ValidationError::EmptyAmount),
        Ok(Some(bits)) => SolAmount::from_bits(bits),
    }
}

} // verus!

use scilla::{
    lamports_to_sol, parse_amount, sol_to_lamports, SolAmount, ValidationError, LAMPORTS_PER_SOL,
    LARGEST_AMOUNT,
};

fn read(text: &str) -> Option<u64> {
    text.parse::<f64>().ok().map(f64::to_bits)
}

fn sol(lamports: u64) -> f64 {
    f64::from_bits(lamports_to_sol(lamports))
}

fn lamports(sol: f64) -> u64 {
    sol_to_lamports(sol.to_bits())
}

/// A fixed sequence of well mixed 64-bit values.
fn next(state: &mut u64) -> u64 {
    *state = state.wrapping_add(0x9E37_79B9_7F4A_7C15);
    let mut z = *state;
    z = (z ^ (z >> 30)).wrapping_mul(0xBF58_476D_1CE4_E5B9);
    z = (z ^ (z >> 27)).wrapping_mul(0x94D0_49BB_1331_11EB);
    z ^ (z >> 31)
}

/// Two to the 64: the least number that is more than a `u64` can hold.
const BEYOND_U64: f64 = 18446744073709551616.0;

fn is_amount(x: f64) -> bool {
    x > 0.0 && x.is_finite() && x * (LAMPORTS_PER_SOL as f64) < BEYOND_U64
}

#[test]
fn test_lamports_to_sol_exact_one_sol() {
    assert_eq!(sol(1_000_000_000), 1.0);
}

#[test]
fn test_lamports_to_sol_max_u64() {
    let result = sol(u64::MAX);
    assert!(result > 0.0, "Should handle u64::MAX without panic");
    assert!(result < f64::INFINITY, "Should not overflow to infinity");
}

#[test]
fn lamports_to_sol_of_zero_is_zero() {
    assert_eq!(lamports_to_sol(0), 0);
    assert_eq!(lamports_to_sol(0), 0.0f64.to_bits());
}

#[test]
fn lamports_to_sol_gives_exact_values() {
    assert_eq!(sol(1), 1e-9);
    assert_eq!(sol(500_000_000), 0.5);
    assert_eq!(sol(1_500_000_000), 1.5);
    assert_eq!(sol(999_999_999), 0.999999999);
    assert_eq!(sol(123_456_789_012), 123.456789012);
    assert_eq!(lamports_to_sol(u64::MAX), 0x4211_2E0B_E826_D695);
    assert_eq!(sol(u64::MAX), 18446744073.709553);
}

#[test]
fn lamports_to_sol_divides_as_the_machine_does() {
    let mut state = 1;
    for round in 0..200_000u32 {
        let all = next(&mut state);
        let short = all >> (round % 64);
        let whole = (all % 18_446_744_074) * LAMPORTS_PER_SOL;
        for l in [all, short, whole, whole.wrapping_add(1), whole.wrapping_sub(1)] {
            let expected = l as f64 / LAMPORTS_PER_SOL as f64;
            assert_eq!(lamports_to_sol(l), expected.to_bits(), "{}", l);
        }
    }
    for l in [1u64 << 53, (1 << 53) + 1, (1 << 53) - 1, (1 << 63) + 1023, (1 << 63) + 1024, u64::MAX - 1023, u64::MAX - 1024] {
        assert_eq!(lamports_to_sol(l), (l as f64 / 1e9).to_bits(), "{}", l);
    }
}

#[test]
fn sol_to_lamports_gives_exact_values() {
    assert_eq!(lamports(1.0), 1_000_000_000);
    assert_eq!(lamports(1.5), 1_500_000_000);
    assert_eq!(lamports(0.5), 500_000_000);
    assert_eq!(lamports(1e-9), 1);
    assert_eq!(lamports(0.57), 570_000_000);
    assert_eq!(lamports(0.0), 0);
    assert_eq!(lamports(18446744073.709553), u64::MAX);
}

#[test]
fn sol_to_lamports_drops_what_is_below_one_lamport() {
    assert_eq!(lamports(0.9999999999), 999_999_999);
    assert_eq!(lamports(1.9999999996), 1_999_999_999);
    assert_eq!(lamports(0.0000000009), 0);
    assert_eq!(lamports(2.0000000005), 2_000_000_000);
    assert_eq!(lamports(sol(999_999_999)), 999_999_999);
    assert_eq!(lamports(sol(999_999_999)) / LAMPORTS_PER_SOL, 0);
}

#[test]
fn sol_to_lamports_of_what_is_no_amount() {
    assert_eq!(lamports(-1.0), 0);
    assert_eq!(lamports(-0.0), 0);
    assert_eq!(lamports(f64::NAN), 0);
    assert_eq!(lamports(-f64::NAN), 0);
    assert_eq!(lamports(f64::NEG_INFINITY), 0);
    assert_eq!(lamports(f64::INFINITY), u64::MAX);
    assert_eq!(lamports(f64::MAX), u64::MAX);
    assert_eq!(lamports(1e300), u64::MAX);
    assert_eq!(lamports(f64::MIN_POSITIVE), 0);
    assert_eq!(lamports(f64::from_bits(1)), 0);
}

#[test]
fn sol_to_lamports_multiplies_as_the_machine_does() {
    let mut state = 2;
    for round in 0..200_000u32 {
        let bits = next(&mut state);
        let small = (next(&mut state) % 20_000_000_000_000) as f64 / 1e3;
        let tiny = (next(&mut state) % 1_000_000_000_000) as f64 / 10f64.powi((round % 13) as i32);
        for x in [f64::from_bits(bits), small, tiny, small * 1e-9, 1.0 / small] {
            let expected = (x * LAMPORTS_PER_SOL as f64) as u64;
            assert_eq!(sol_to_lamports(x.to_bits()), expected, "{:e}", x);
        }
    }
}

#[test]
fn amounts_are_what_the_machine_takes_for_amounts() {
    let mut state = 3;
    let edge = (u64::MAX as f64 / 1e9).to_bits();
    for round in 0..200_000u64 {
        let bits = next(&mut state);
        let near = edge - 100_000 + round;
        let small = ((next(&mut state) % 20_000_000_000_000) as f64 / 1e3).to_bits();
        for b in [bits, near, small] {
            let x = f64::from_bits(b);
            assert_eq!(SolAmount::from_bits(b).is_ok(), is_amount(x), "{:#x}", b);
        }
    }
}

#[test]
fn largest_amount_is_the_last_whose_lamports_fit() {
    assert_eq!(LARGEST_AMOUNT, 0x4211_2E0B_E826_D694);
    assert_eq!(f64::from_bits(LARGEST_AMOUNT), 18446744073.70955);
    let amount = SolAmount::from_bits(LARGEST_AMOUNT).unwrap();
    assert_eq!(amount.value(), LARGEST_AMOUNT);
    assert_eq!(amount.to_lamports(), 18446744073709549568);
    let beyond = LARGEST_AMOUNT + 1;
    assert_eq!(f64::from_bits(beyond) * 1e9, BEYOND_U64);
    let checked = SolAmount::from_bits(beyond).map(|a| a.value());
    assert_eq!(checked, Err(ValidationError::AmountTooLarge { bits: beyond }));
    assert_eq!(sol_to_lamports(beyond), u64::MAX);
    assert_eq!(lamports_to_sol(u64::MAX), beyond);
}

#[test]
fn amounts_are_the_numbers_whose_exact_product_fits() {
    let mut state = 5;
    for round in 0..100_000u64 {
        let near = LARGEST_AMOUNT - 50_000 + round;
        let any = next(&mut state) % 0x7FF0_0000_0000_0000;
        for bits in [near, any] {
            if bits == 0 {
                continue;
            }
            let field = (bits >> 52) as i32;
            let fraction = (bits & ((1 << 52) - 1)) as u128;
            let (m, e) = if field == 0 { (fraction, -1074) } else { (fraction + (1 << 52), field - 1075) };
            let product = m * LAMPORTS_PER_SOL as u128;
            let fits = if e >= 0 {
                e < 40 && (product << e) <= u64::MAX as u128
            } else if e <= -64 {
                true
            } else {
                product <= (u64::MAX as u128) << (-e)
            };
            assert_eq!(SolAmount::from_bits(bits).is_ok(), fits, "{:#x}", bits);
        }
    }
}

#[test]
fn amount_must_be_positive_and_finite() {
    for x in [0.0, -0.0, -1.0, f64::NAN, f64::INFINITY, f64::NEG_INFINITY, -1e-300] {
        let bits = x.to_bits();
        let checked = SolAmount::from_bits(bits).map(|a| a.value());
        assert_eq!(checked, Err(ValidationError::AmountNotPositive { bits }), "{}", x);
    }
    assert!(SolAmount::from_bits(1).is_ok());
    assert!(SolAmount::from_bits(f64::MIN_POSITIVE.to_bits()).is_ok());
}

#[test]
fn amount_too_large_is_turned_down() {
    for x in [18446744073.709553, 18446744073.71, 1e11, 1e300, f64::MAX] {
        let bits = x.to_bits();
        let checked = SolAmount::from_bits(bits).map(|a| a.value());
        assert_eq!(checked, Err(ValidationError::AmountTooLarge { bits }), "{}", x);
    }
}

#[test]
fn parse_amount_of_blank_input_fails() {
    assert_eq!(parse_amount("", read).map(|a| a.value()), Err(ValidationError::EmptyAmount));
    assert_eq!(parse_amount("  \t", read).map(|a| a.value()), Err(ValidationError::EmptyAmount));
}

#[test]
fn parse_amount_reads_a_positive_decimal() {
    let amount = parse_amount(" 1.5 ", read).unwrap();
    assert_eq!(f64::from_bits(amount.value()), 1.5);
    assert_eq!(amount.to_lamports(), 1_500_000_000);
    let copy = amount;
    assert_eq!(copy.value(), amount.value());
    assert_eq!(parse_amount("0.000000001", read).unwrap().to_lamports(), 1);
    assert_eq!(parse_amount("2e3", read).unwrap().to_lamports(), 2_000_000_000_000);
    let largest = parse_amount("18446744073.70955", read).unwrap();
    assert_eq!(largest.value(), LARGEST_AMOUNT);
    assert_eq!(largest.to_lamports(), 18446744073709549568);
}

#[test]
fn parse_amount_turns_down_what_is_no_amount() {
    let invalid = ValidationError::InvalidNumber {
        field: "amount".to_string(),
        text: "1,5".to_string(),
    };
    assert_eq!(parse_amount(" 1,5\n", read).map(|a| a.value()), Err(invalid));
    for text in ["0", "-3", "inf", "NaN", "-0.0", "1e400"] {
        let bits = text.parse::<f64>().unwrap().to_bits();
        let parsed = parse_amount(text, read).map(|a| a.value());
        assert_eq!(parsed, Err(ValidationError::AmountNotPositive { bits }), "{}", text);
    }
    for text in ["18446744073.709553", "18446744073.709557", "1e12", "1e300"] {
        let bits = text.parse::<f64>().unwrap().to_bits();
        let parsed = parse_amount(text, read).map(|a| a.value());
        assert_eq!(parsed, Err(ValidationError::AmountTooLarge { bits }), "{}", text);
    }
}

#[test]
fn whole_sol_survive_the_round_trip() {
    let mut state = 4;
    for _ in 0..200_000 {
        let whole = next(&mut state) % 4_611_686_018;
        let l = whole * LAMPORTS_PER_SOL;
        assert_eq!(sol_to_lamports(lamports_to_sol(l)), l);
    }
    assert_eq!(sol_to_lamports(lamports_to_sol(0)), 0);
    assert_eq!(sol_to_lamports(lamports_to_sol(4_611_686_018_000_000_000)), 4_611_686_018_000_000_000);
}

#[test]
fn lamports_that_no_binary64_number_holds_come_back_changed() {
    assert_eq!(sol_to_lamports(lamports_to_sol(12_095_020_799_000_000_000)), 12_095_020_799_000_000_512);
    assert_eq!(sol_to_lamports(lamports_to_sol(u64::MAX)), u64::MAX);
    assert_eq!(sol_to_lamports(lamports_to_sol(u64::MAX - 1)), u64::MAX);
}

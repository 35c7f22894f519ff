use scilla::text::{parse_u8, trim, white_space};
use scilla::{parse_commission, trim_and_parse, Commission, ValidationError, MAX_COMMISSION};

fn invalid(field: &str, text: &str) -> ValidationError {
    ValidationError::InvalidNumber { field: field.to_string(), text: text.to_string() }
}

#[test]
fn white_space_agrees_with_std_on_every_char() {
    let mut code: u32 = 0;
    while code <= 0x10FFFF {
        if let Some(c) = char::from_u32(code) {
            assert_eq!(white_space(c), c.is_whitespace(), "code point {:#x}", code);
        }
        code += 1;
    }
}

#[test]
fn trim_strips_both_ends_only() {
    assert_eq!(trim("  12 3 \t\n"), "12 3");
    assert_eq!(trim("abc"), "abc");
    assert_eq!(trim(""), "");
    assert_eq!(trim(" \t\r\n"), "");
    assert_eq!(trim("x "), "x");
    assert_eq!(trim(" x"), "x");
}

#[test]
fn trim_agrees_with_std() {
    let samples = [
        "",
        " ",
        "a",
        " a",
        "a ",
        "\u{a0}42\u{3000}",
        "\u{2003}\u{2028}x y\u{85}",
        "\u{feff}7 ",
        "\u{200b} 7",
        "\u{180e}1",
        "é \u{1680}",
        "\n\n\n",
        "  多 字  ",
    ];
    for s in samples {
        assert_eq!(trim(s), s.trim(), "{:?}", s);
    }
}

#[test]
fn parse_u8_reads_every_byte_value() {
    for n in 0u32..=255 {
        assert_eq!(parse_u8(&n.to_string()), Some(n as u8));
        assert_eq!(parse_u8(&format!("+{}", n)), Some(n as u8));
        assert_eq!(parse_u8(&format!("00{}", n)), Some(n as u8));
    }
}

#[test]
fn parse_u8_turns_down_what_is_no_byte() {
    for n in 256u32..=3000 {
        assert_eq!(parse_u8(&n.to_string()), None);
    }
    for s in ["", "+", "-", "-0", "-1", "++1", "1+", "1 ", " 1", "1_0", "0x10", "1.0", "1e2", "a", "٣", "99999999999999999999999999"] {
        assert_eq!(parse_u8(s), None, "{:?}", s);
    }
}

#[test]
fn parse_u8_agrees_with_std() {
    let pieces = ["", "+", "-", "0", "1", "9", "25", "5", "6", " ", "a", "00"];
    for a in pieces {
        for b in pieces {
            for c in pieces {
                let s = format!("{}{}{}", a, b, c);
                assert_eq!(parse_u8(&s), s.parse::<u8>().ok(), "{:?}", s);
            }
        }
    }
}

#[test]
fn trim_and_parse_blank_is_none() {
    assert_eq!(trim_and_parse("", "commission", parse_u8), Ok(None));
    assert_eq!(trim_and_parse(" \t ", "commission", parse_u8), Ok(None));
}

#[test]
fn trim_and_parse_hands_the_trimmed_text_to_the_reader() {
    assert_eq!(trim_and_parse(" 17\n", "commission", parse_u8), Ok(Some(17)));
    let seen = trim_and_parse("  abc  ", "name", |t: &str| Some(t.to_string()));
    assert_eq!(seen, Ok(Some("abc".to_string())));
    let amount = trim_and_parse(" 1.5 ", "amount", |t: &str| t.parse::<f64>().ok());
    assert_eq!(amount, Ok(Some(1.5)));
}

#[test]
fn trim_and_parse_names_field_and_trimmed_text_in_its_error() {
    assert_eq!(trim_and_parse(" 1x ", "commission", parse_u8), Err(invalid("commission", "1x")));
    let amount = trim_and_parse("\tten ", "amount", |t: &str| t.parse::<f64>().ok());
    assert_eq!(amount, Err(invalid("amount", "ten")));
}

#[test]
fn commission_of_blank_input_is_zero() {
    assert_eq!(parse_commission("").map(|c| c.value()), Ok(0));
    assert_eq!(parse_commission("   ").map(|c| c.value()), Ok(0));
    assert_eq!(parse_commission("\n\t").map(|c| c.value()), Ok(0));
}

#[test]
fn commission_accepts_zero_to_hundred() {
    for c in 0u8..=100 {
        let parsed = parse_commission(&c.to_string());
        assert_eq!(parsed.map(|v| v.value()), Ok(c));
        let padded = parse_commission(&format!("  {}\n", c));
        assert_eq!(padded.map(|v| v.value()), Ok(c));
    }
    assert_eq!(MAX_COMMISSION, 100);
}

#[test]
fn commission_above_hundred_is_out_of_range() {
    for c in 101u8..=255 {
        let parsed = parse_commission(&c.to_string());
        assert_eq!(
            parsed.map(|v| v.value()),
            Err(ValidationError::CommissionOutOfRange { value: c })
        );
    }
}

#[test]
fn commission_that_is_no_byte_is_invalid() {
    for text in ["256", "1000", "-1", "-0", "5%", "ten", "1.5", "1 0"] {
        let parsed = parse_commission(&format!(" {} ", text));
        assert_eq!(parsed.map(|v| v.value()), Err(invalid("commission", text)));
    }
}

#[test]
fn commission_parses_through_from_str() {
    let c: Commission = "7".parse().unwrap();
    assert_eq!(c.value(), 7);
    let d: Commission = "".parse().unwrap();
    assert_eq!(d.value(), 0);
    assert!("101".parse::<Commission>().is_err());
    let copy = c;
    assert_eq!(copy.value(), c.value());
}

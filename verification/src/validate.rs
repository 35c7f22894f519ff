//! From a line of operator input to a checked value.

use vstd::prelude::*;
use vstd::string::StringExecFns;
use crate::error::{ValidationError, ValidationErrorView};
use crate::text::{
    decimal_text, decimal_u8, integer_text, is_white_space, lemma_blank_trims_to_nothing,
    lemma_decimal_text_reads_back, parse_u8, trim, trimmed,
};

verus! {

/// The highest commission, in percent.
pub const MAX_COMMISSION: u8 = 100;

/// What `trim_and_parse` makes of what the reader `parse` returned for the
/// trimmed text `text` of the field `field`.
pub open spec fn parsed_field<T>(field: Seq<char>, text: Seq<char>, parsed: Option<T>) -> Result<
    Option<T>,
    ValidationErrorView,
> {
    match parsed {
        Some(value) => Ok(Some(value)),
        None => Err(ValidationErrorView::InvalidNumber { field, text }),
    }
}

/// Trims `s` and, unless nothing is left, reads a value from the rest.
///
/// Blank input is `Ok(None)`: the caller decides whether the field has a
/// default. Otherwise `parse` is handed the trimmed text, once; what it reads
/// is returned, and text that it turns down is an `InvalidNumber` error that
/// names the field and carries the trimmed text.
pub fn trim_and_parse<T, F>(s: &str, field_name: &str, parse: F) -> (r: Result<
    Option<T>,
    ValidationError,
>) where F: Fn(&str) -> Option<T>
    requires
        forall|t: &str| t@ == trimmed(s@) ==> #[trigger] parse.requires((t,)),
    ensures
        trimmed(s@).len() == 0 ==> r == Ok::<Option<T>, ValidationError>(None),
        trimmed(s@).len() > 0 ==> exists|t: &str, parsed: Option<T>|
            {
                &&& t@ == trimmed(s@)
                &&& #[trigger] parse.ensures((t,), parsed)
                &&& match r {
                    Ok(v) => Ok(v),
                    Err(e) => Err(e@),
                } == parsed_field(field_name@, t@, parsed)
            },
{
    let trimmed = trim(s);
    if trimmed.unicode_len() == 0 {
        Ok(None)
    } else {
        match parse(trimmed) {
            Some(value) => Ok(Some(value)),
            None => Err(
                ValidationError::InvalidNumber {
                    field: String::from_str(field_name),
                    text: String::from_str(trimmed),
                },
            ),
        }
    }
}

/// A commission in percent, from 0 to 100.
#[derive(Debug, Clone, Copy)]
pub struct Commission(u8);

impl View for Commission {
    type V = u8;

    closed spec fn view(&self) -> u8 {
        self.0
    }
}

impl Commission {
    #[verifier::type_invariant]
    spec fn in_range(self) -> bool {
        self.0 <= MAX_COMMISSION
    }

    /// The commission in percent.
    pub fn value(&self) -> (v: u8)
        ensures
            v == self@,
            v <= MAX_COMMISSION,
    {
        proof {
            use_type_invariant(self);
        }
        self.0
    }
}

/// The commission that `text` asks for: blank text is the default of 0,
/// anything else must be an unsigned decimal of at most 100.
pub open spec fn commission_of(text: Seq<char>) -> Result<u8, ValidationErrorView> {
    let t = trimmed(text);
    if t.len() == 0 {
        Ok(0u8)
    } else {
        match decimal_u8(t) {
            None => Err(ValidationErrorView::InvalidNumber { field: "commission"@, text: t }),
            Some(value) => if value > MAX_COMMISSION {
                Err(ValidationErrorView::CommissionOutOfRange { value })
            } else {
                Ok(value)
            },
        }
    }
}

/// Reads a commission from operator input.
pub fn parse_commission(text: &str) -> (r: Result<Commission, ValidationError>)
    ensures
        match r {
            Ok(c) => Ok(c@),
            Err(e) => Err(e@),
        } == commission_of(text@),
{
    match trim_and_parse(text, "commission", parse_u8) {
        Err(e) => Err(e),
        Ok(None) => Ok(Commission(0)),
        Ok(Some(value)) => if value > MAX_COMMISSION {
            Err(ValidationError::CommissionOutOfRange { value })
        } else {
            Ok(Commission(value))
        },
    }
}

impl std::str::FromStr for Commission {
    type Err = ValidationError;

    /// Reads a commission as `parse_commission` does.
    fn from_str(s: &str) -> (r: Result<Commission, ValidationError>)
        ensures
            match r {
                Ok(c) => Ok(c@),
                Err(e) => Err(e@),
            } == commission_of(s@),
    {
        parse_commission(s)
    }
}

/// Blank input asks for the default commission of 0.
pub proof fn lemma_blank_commission_is_zero(text: Seq<char>)
    requires
        forall|i: int| 0 <= i < text.len() ==> is_white_space(text[i]),
    ensures
        commission_of(text) == Ok::<u8, ValidationErrorView>(0u8),
{
    lemma_blank_trims_to_nothing(text);
}

/// Of the integers, written in the usual way, exactly those from 0 to 100
/// are commissions, each its own: a larger one that still fits a byte is out
/// of range, and anything else, a negative number among them, is no number
/// that a commission can be.
pub proof fn lemma_commission_accepts_zero_to_hundred(c: int)
    ensures
        0 <= c <= 100 ==> commission_of(integer_text(c)) == Ok::<u8, ValidationErrorView>(
            c as u8,
        ),
        100 < c <= 255 ==> commission_of(integer_text(c)) == Err::<u8, ValidationErrorView>(
            ValidationErrorView::CommissionOutOfRange { value: c as u8 },
        ),
        c < 0 || c > 255 ==> commission_of(integer_text(c)) == Err::<u8, ValidationErrorView>(
            ValidationErrorView::InvalidNumber { field: "commission"@, text: integer_text(c) },
        ),
{
    let text = integer_text(c);
    if c < 0 {
        let digits = decimal_text((-c) as nat);
        lemma_decimal_text_reads_back((-c) as nat);
        assert(text.first() == '-');
        assert(text.last() == digits.last());
        assert(trimmed(text) == text);
    } else {
        lemma_decimal_text_reads_back(c as nat);
        assert(trimmed(text) == text);
    }
}

} // verus!

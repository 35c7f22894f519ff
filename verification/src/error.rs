//! Why a line of operator input was turned down.

use vstd::prelude::*;

verus! {

/// Why a piece of operator input was turned down.
#[derive(Debug, PartialEq, Eq)]
pub enum ValidationError {
    /// The field held text that is not a number of the kind asked for.
    InvalidNumber { field: String, text: String },
    /// The commission is a number, but above one hundred percent.
    CommissionOutOfRange { value: u8 },
    /// No amount was entered, and an amount has no default.
    EmptyAmount,
    /// The amount, given by its binary64 bit pattern, is zero, negative,
    /// infinite or not a number.
    AmountNotPositive { bits: u64 },
    /// The amount, given by its binary64 bit pattern, is more than a count
    /// of lamports can hold.
    AmountTooLarge { bits: u64 },
}

/// A [`ValidationError`] with its texts as sequences of characters.
pub enum ValidationErrorView {
    InvalidNumber { field: Seq<char>, text: Seq<char> },
    CommissionOutOfRange { value: u8 },
    EmptyAmount,
    AmountNotPositive { bits: u64 },
    AmountTooLarge { bits: u64 },
}

impl View for ValidationError {
    type V = ValidationErrorView;

    open spec fn view(&self) -> ValidationErrorView {
        match self {
            ValidationError::InvalidNumber { field, text } => ValidationErrorView::InvalidNumber {
                field: field@,
                text: text@,
            },
            ValidationError::CommissionOutOfRange { value } => {
                ValidationErrorView::CommissionOutOfRange { value: *value }
            },
            ValidationError::EmptyAmount => ValidationErrorView::EmptyAmount,
            ValidationError::AmountNotPositive { bits } => ValidationErrorView::AmountNotPositive {
                bits: *bits,
            },
            ValidationError::AmountTooLarge { bits } => ValidationErrorView::AmountTooLarge {
                bits: *bits,
            },
        }
    }
}

} // verus!

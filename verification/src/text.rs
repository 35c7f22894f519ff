//! Operator input as text: white space and trimming, and the decimal
//! digits of an unsigned number.

use vstd::prelude::*;

verus! {

/// Whether `c` has the Unicode `White_Space` property.
pub open spec fn is_white_space(c: char) -> bool {
    let u = c as u32;
    ||| 0x09 <= u <= 0x0D
    ||| u == 0x20
    ||| u == 0x85
    ||| u == 0xA0
    ||| u == 0x1680
    ||| 0x2000 <= u <= 0x200A
    ||| u == 0x2028
    ||| u == 0x2029
    ||| u == 0x202F
    ||| u == 0x205F
    ||| u == 0x3000
}

/// `text` without its leading and trailing white space.
pub open spec fn trimmed(text: Seq<char>) -> Seq<char>
    decreases text.len(),
{
    if text.len() > 0 && is_white_space(text.first()) {
        trimmed(text.drop_first())
    } else if text.len() > 0 && is_white_space(text.last()) {
        trimmed(text.drop_last())
    } else {
        text
    }
}

/// Decides whether `c` is white space.
pub fn white_space(c: char) -> (b: bool)
    ensures
        b == is_white_space(c),
{
    let u: u32 = c as u32;
    (0x09 <= u && u <= 0x0D) || u == 0x20 || u == 0x85 || u == 0xA0 || u == 0x1680 || (0x2000 <= u
        && u <= 0x200A) || u == 0x2028 || u == 0x2029 || u == 0x202F || u == 0x205F || u == 0x3000
}

/// A slice of `text` that starts and ends on something other than white
/// space, with nothing but white space around it, is what trimming leaves.
pub proof fn lemma_trimmed_bounds(text: Seq<char>, a: int, b: int)
    requires
        0 <= a <= b <= text.len(),
        forall|i: int| 0 <= i < a ==> is_white_space(text[i]),
        forall|i: int| b <= i < text.len() ==> is_white_space(text[i]),
        a < b ==> !is_white_space(text[a]) && !is_white_space(text[b - 1]),
    ensures
        trimmed(text) == text.subrange(a, b),
    decreases text.len(),
{
    if text.len() == 0 {
    } else if is_white_space(text.first()) {
        let rest = text.drop_first();
        if a == 0 {
            lemma_trimmed_bounds(rest, 0, 0);
        } else {
            lemma_trimmed_bounds(rest, a - 1, b - 1);
        }
    } else if is_white_space(text.last()) {
        lemma_trimmed_bounds(text.drop_last(), a, b);
    } else {
    }
}

/// Strips leading and trailing white space.
pub fn trim(text: &str) -> (r: &str)
    ensures
        r@ == trimmed(text@),
{
    let n = text.unicode_len();
    let mut start: usize = n;
    let mut end: usize = 0;
    let mut i: usize = 0;
    for c in it: text.chars()
        invariant
            n == text@.len(),
            it.seq() == text@,
            i == it.index(),
            start == n ==> end == 0 && forall|j: int| 0 <= j < i ==> is_white_space(text@[j]),
            start != n ==> {
                &&& start < end <= i
                &&& !is_white_space(text@[start as int])
                &&& !is_white_space(text@[end - 1])
                &&& forall|j: int| 0 <= j < start ==> is_white_space(text@[j])
                &&& forall|j: int| end <= j < i ==> is_white_space(text@[j])
            },
    {
        if !white_space(c) {
            if start == n {
                start = i;
            }
            end = i + 1;
        }
        i = i + 1;
    }
    if start == n {
        start = 0;
    }
    proof {
        lemma_trimmed_bounds(text@, start as int, end as int);
    }
    text.substring_char(start, end)
}

/// Whether `c` is one of the ten decimal digits.
pub open spec fn is_decimal_digit(c: char) -> bool {
    '0' <= c <= '9'
}

/// The number that the decimal digit `c` stands for.
pub open spec fn digit_value(c: char) -> nat {
    (c as u32 - '0' as u32) as nat
}

/// Whether `digits` holds decimal digits only.
pub open spec fn all_decimal_digits(digits: Seq<char>) -> bool {
    forall|i: int| 0 <= i < digits.len() ==> is_decimal_digit(#[trigger] digits[i])
}

/// The number written by `digits`, most significant digit first.
pub open spec fn decimal_value(digits: Seq<char>) -> nat
    decreases digits.len(),
{
    if digits.len() == 0 {
        0
    } else {
        10 * decimal_value(digits.drop_last()) + digit_value(digits.last())
    }
}

/// `text` without one leading plus sign.
pub open spec fn unsigned_digits(text: Seq<char>) -> Seq<char> {
    if text.len() > 0 && text.first() == '+' {
        text.drop_first()
    } else {
        text
    }
}

/// The number written by `text` as an unsigned decimal: an optional plus
/// sign, then one or more decimal digits and nothing else.
pub open spec fn unsigned_decimal(text: Seq<char>) -> Option<nat> {
    let digits = unsigned_digits(text);
    if digits.len() > 0 && all_decimal_digits(digits) {
        Some(decimal_value(digits))
    } else {
        None
    }
}

/// The `u8` written by `text`, if `text` is an unsigned decimal that fits.
pub open spec fn decimal_u8(text: Seq<char>) -> Option<u8> {
    match unsigned_decimal(text) {
        Some(v) if v <= u8::MAX => Some(v as u8),
        _ => None,
    }
}

/// More digits never write a smaller number.
pub proof fn lemma_decimal_value_prefix(digits: Seq<char>, k: int)
    requires
        0 <= k <= digits.len(),
    ensures
        decimal_value(digits.take(k)) <= decimal_value(digits),
    decreases digits.len(),
{
    if k == digits.len() {
        assert(digits.take(k) == digits);
    } else {
        lemma_decimal_value_prefix(digits.drop_last(), k);
        assert(digits.drop_last().take(k) == digits.take(k));
    }
}

/// Reads an unsigned decimal that fits in a `u8`.
pub fn parse_u8(text: &str) -> (r: Option<u8>)
    ensures
        r == decimal_u8(text@),
{
    let n = text.unicode_len();
    let ghost digits = unsigned_digits(text@);
    let mut value: u16 = 0;
    let mut skipped: usize = 0;
    let mut i: usize = 0;
    for c in it: text.chars()
        invariant
            n == text@.len(),
            it.seq() == text@,
            i == it.index(),
            digits == unsigned_digits(text@),
            skipped <= 1,
            skipped <= i,
            i > 0 ==> skipped + digits.len() == n,
            i > 0 ==> (skipped == 1 <==> text@[0] == '+'),
            all_decimal_digits(digits.take(i - skipped)),
            value == decimal_value(digits.take(i - skipped)),
            value <= u8::MAX,
    {
        if i == 0 && c == '+' {
            skipped = 1;
            assert(digits.take(0) =~= Seq::<char>::empty());
        } else if '0' <= c && c <= '9' {
            let d: u16 = (c as u32 - '0' as u32) as u16;
            let ghost k = i - skipped;
            assert(digits[k] == c);
            assert(digits.take(k + 1).drop_last() == digits.take(k));
            value = value * 10 + d;
            if value > 255 {
                proof {
                    lemma_decimal_value_prefix(digits, k + 1);
                }
                return None;
            }
        } else {
            assert(!is_decimal_digit(digits[i - skipped]));
            return None;
        }
        i = i + 1;
    }
    assert(digits.take(i - skipped) == digits);
    if i == skipped {
        None
    } else {
        Some(value as u8)
    }
}

/// The decimal digit that stands for `d`, for `d` below ten.
pub open spec fn digit_char(d: nat) -> char {
    if d == 0 {
        '0'
    } else if d == 1 {
        '1'
    } else if d == 2 {
        '2'
    } else if d == 3 {
        '3'
    } else if d == 4 {
        '4'
    } else if d == 5 {
        '5'
    } else if d == 6 {
        '6'
    } else if d == 7 {
        '7'
    } else if d == 8 {
        '8'
    } else {
        '9'
    }
}

/// The usual way to write `n`: decimal digits, no sign, no leading zero.
pub open spec fn decimal_text(n: nat) -> Seq<char>
    decreases n,
{
    if n < 10 {
        seq![digit_char(n)]
    } else {
        decimal_text(n / 10).push(digit_char(n % 10))
    }
}

/// The usual way to write `c`: a minus sign if it is negative, then the
/// digits of its magnitude.
pub open spec fn integer_text(c: int) -> Seq<char> {
    if c < 0 {
        seq!['-'] + decimal_text((-c) as nat)
    } else {
        decimal_text(c as nat)
    }
}

/// Text that is white space throughout trims to nothing.
pub proof fn lemma_blank_trims_to_nothing(text: Seq<char>)
    requires
        forall|i: int| 0 <= i < text.len() ==> is_white_space(text[i]),
    ensures
        trimmed(text).len() == 0,
{
    lemma_trimmed_bounds(text, 0, 0);
}

/// Text that neither starts nor ends on white space is its own trimmed
/// form, and trimming twice is trimming once.
pub proof fn lemma_trimmed_is_stable(text: Seq<char>)
    ensures
        trimmed(text).len() > 0 ==> !is_white_space(trimmed(text).first()) && !is_white_space(
            trimmed(text).last(),
        ),
        trimmed(trimmed(text)) == trimmed(text),
    decreases text.len(),
{
    if text.len() > 0 && is_white_space(text.first()) {
        lemma_trimmed_is_stable(text.drop_first());
    } else if text.len() > 0 && is_white_space(text.last()) {
        lemma_trimmed_is_stable(text.drop_last());
    }
}

/// The usual way to write a number is read back as that number: it is one
/// or more decimal digits, of which the first is no plus sign.
pub proof fn lemma_decimal_text_reads_back(n: nat)
    ensures
        decimal_text(n).len() > 0,
        all_decimal_digits(decimal_text(n)),
        decimal_value(decimal_text(n)) == n,
        unsigned_decimal(decimal_text(n)) == Some(n),
    decreases n,
{
    let text = decimal_text(n);
    if n < 10 {
        assert(text.drop_last() == Seq::<char>::empty());
        assert(text.last() == digit_char(n));
        assert(decimal_value(text.drop_last()) == 0);
    } else {
        lemma_decimal_text_reads_back(n / 10);
        assert(text.drop_last() == decimal_text(n / 10));
        assert(text.last() == digit_char(n % 10));
    }
    assert(is_decimal_digit(text.first()));
    assert(unsigned_digits(text) == text);
}

} // verus!

//! Prices as decimal text, and their fixed-point value.
//!
//! A price is written as a JSON number: an optional minus sign, digits, an
//! optional fraction, an optional exponent. Its fixed-point value is the
//! number of whole hundredths in it: the decimal point moves two places to
//! the right and what is left behind it is cut off, not rounded.

use vstd::prelude::*;
use vstd::utf8::{encode_utf8, is_ascii_chars, is_ascii_chars_encode_utf8};
use crate::text::{decimal, digit, price_text};

verus! {

/// Whether the byte is an ASCII digit.
pub open spec fn is_digit(byte: u8) -> bool {
    48 <= byte <= 57
}

/// The position after the run of digits that starts at `from`.
pub open spec fn digits_end(text: Seq<u8>, from: int) -> int
    decreases text.len() - from,
{
    if 0 <= from < text.len() && is_digit(text[from]) {
        digits_end(text, from + 1)
    } else {
        from
    }
}

/// The number that a string of digits writes; the empty string writes 0.
pub open spec fn number(digits: Seq<u8>) -> nat
    decreases digits.len(),
{
    if digits.len() == 0 {
        0
    } else {
        number(digits.drop_last()) * 10 + (digits.last() - 48) as nat
    }
}

/// The first `cut` digits of a digit string, with zeros appended where the
/// string is shorter, and nothing where `cut` is not positive.
pub open spec fn window(digits: Seq<u8>, cut: int) -> Seq<u8> {
    if cut <= 0 {
        Seq::empty()
    } else if cut <= digits.len() {
        digits.take(cut)
    } else {
        digits + Seq::new((cut - digits.len()) as nat, |i: int| 48u8)
    }
}

/// Whether the text starts with a minus sign.
pub open spec fn is_negative(text: Seq<u8>) -> bool {
    text.len() > 0 && text[0] == 45
}

/// Where the whole part starts.
pub open spec fn whole_start(text: Seq<u8>) -> int {
    if is_negative(text) {
        1
    } else {
        0
    }
}

/// Where the whole part ends.
pub open spec fn whole_end(text: Seq<u8>) -> int {
    digits_end(text, whole_start(text))
}

/// Whether a decimal point follows the whole part.
pub open spec fn has_fraction(text: Seq<u8>) -> bool {
    whole_end(text) < text.len() && text[whole_end(text)] == 46
}

/// Where the digits of the fraction start.
pub open spec fn fraction_start(text: Seq<u8>) -> int {
    if has_fraction(text) {
        whole_end(text) + 1
    } else {
        whole_end(text)
    }
}

/// Where the digits of the fraction end.
pub open spec fn fraction_end(text: Seq<u8>) -> int {
    digits_end(text, fraction_start(text))
}

/// Whether an exponent mark follows the fraction.
pub open spec fn has_exponent(text: Seq<u8>) -> bool {
    fraction_end(text) < text.len() && (text[fraction_end(text)] == 101 || text[fraction_end(text)]
        == 69)
}

/// Whether the exponent has a sign.
pub open spec fn exponent_signed(text: Seq<u8>) -> bool {
    fraction_end(text) + 1 < text.len() && (text[fraction_end(text) + 1] == 43 || text[fraction_end(
        text,
    ) + 1] == 45)
}

/// Where the digits of the exponent start.
pub open spec fn exponent_start(text: Seq<u8>) -> int {
    if exponent_signed(text) {
        fraction_end(text) + 2
    } else {
        fraction_end(text) + 1
    }
}

/// Where the digits of the exponent end.
pub open spec fn exponent_end(text: Seq<u8>) -> int {
    digits_end(text, exponent_start(text))
}

/// Whether the text is a number: `-`? digits (`.` digits)? ((`e`|`E`)
/// (`+`|`-`)? digits)?, with at least one digit in each run of digits.
pub open spec fn is_number(text: Seq<u8>) -> bool {
    &&& whole_end(text) > whole_start(text)
    &&& has_fraction(text) ==> fraction_end(text) > fraction_start(text)
    &&& if has_exponent(text) {
        exponent_end(text) > exponent_start(text) && exponent_end(text) == text.len()
    } else {
        fraction_end(text) == text.len()
    }
}

/// The exponent of a number, 0 where it has none.
pub open spec fn exponent(text: Seq<u8>) -> int {
    if has_exponent(text) {
        let size = number(text.subrange(exponent_start(text), exponent_end(text)));
        if exponent_signed(text) && text[fraction_end(text) + 1] == 45 {
            -size
        } else {
            size as int
        }
    } else {
        0
    }
}

/// The digits of a number: those of the whole part, then those of the
/// fraction.
pub open spec fn mantissa(text: Seq<u8>) -> Seq<u8> {
    text.subrange(whole_start(text), whole_end(text)) + text.subrange(
        fraction_start(text),
        fraction_end(text),
    )
}

/// How many digits of the mantissa stand before the decimal point once it
/// has moved by the exponent and by two more places.
pub open spec fn hundredths_cut(text: Seq<u8>) -> int {
    whole_end(text) - whole_start(text) + exponent(text) + 2
}

/// The whole hundredths in a number: none in a negative one.
pub open spec fn hundredths(text: Seq<u8>) -> nat {
    if is_negative(text) {
        0
    } else {
        number(window(mantissa(text), hundredths_cut(text)))
    }
}

/// The fixed-point price that a text writes: the whole hundredths in the
/// number, or the largest price where there are more than that; nothing
/// where the text is not a number.
pub open spec fn price_of(text: Seq<u8>) -> Option<usize> {
    if is_number(text) {
        if hundredths(text) <= usize::MAX {
            Some(hundredths(text) as usize)
        } else {
            Some(usize::MAX)
        }
    } else {
        None
    }
}

/// Ten to the power `k`.
pub open spec fn pow10(k: nat) -> nat
    decreases k,
{
    if k == 0 {
        1
    } else {
        10 * pow10((k - 1) as nat)
    }
}

/// Largest size of an exponent that is read exactly. A larger one moves the
/// decimal point beyond any text that fits in memory.
pub const EXPONENT_LIMIT: u128 = 1_000_000_000_000_000_000_000_000;

/// A window that is one digit longer ends in the next digit of the string,
/// or in a zero behind its end.
proof fn lemma_window_step(digits: Seq<u8>, cut: int)
    requires
        cut >= 0,
    ensures
        window(digits, cut + 1) == window(digits, cut).push(
            if cut < digits.len() {
                digits[cut]
            } else {
                48u8
            },
        ),
{
    assert(window(digits, cut + 1) =~= window(digits, cut).push(
        if cut < digits.len() {
            digits[cut]
        } else {
            48u8
        },
    ));
}

/// A longer window of digits writes no smaller number.
proof fn lemma_window_grows(digits: Seq<u8>, shorter: int, longer: int)
    requires
        shorter <= longer,
        forall|i: int| 0 <= i < digits.len() ==> is_digit(#[trigger] digits[i]),
    ensures
        number(window(digits, shorter)) <= number(window(digits, longer)),
    decreases longer - shorter,
{
    if shorter < longer {
        if longer <= 0 {
            assert(window(digits, shorter) =~= window(digits, longer));
        } else {
            lemma_window_grows(digits, shorter, longer - 1);
            lemma_window_step(digits, longer - 1);
            let front = window(digits, longer - 1);
            let whole = window(digits, longer);
            assert(whole.drop_last() =~= front);
            assert(number(whole) >= number(front) * 10);
        }
    }
}

/// Zeros behind a digit string multiply its number by ten each.
proof fn lemma_zeros_scale(digits: Seq<u8>, zeros: nat)
    ensures
        number(window(digits, (digits.len() + zeros) as int)) == number(digits) * pow10(zeros),
    decreases zeros,
{
    if zeros == 0 {
        assert(window(digits, digits.len() as int) =~= digits);
        assert(pow10(0) == 1);
        assert(number(digits) * 1 == number(digits));
    } else {
        let shorter = (digits.len() + zeros - 1) as int;
        lemma_zeros_scale(digits, (zeros - 1) as nat);
        lemma_window_step(digits, shorter);
        let front = window(digits, shorter);
        let whole = window(digits, shorter + 1);
        assert(whole.drop_last() =~= front);
        assert(whole.last() == 48u8);
        assert(number(whole) == number(front) * 10);
        assert(number(front) == number(digits) * pow10((zeros - 1) as nat));
        assert(number(digits) * pow10((zeros - 1) as nat) * 10 == number(digits) * pow10(zeros))
            by (nonlinear_arith)
            requires
                pow10(zeros) == 10 * pow10((zeros - 1) as nat),
        ;
    }
}

/// Twenty zeros behind a number other than 0 take it beyond any price.
proof fn lemma_twenty_zeros_overflow(digits: Seq<u8>, zeros: nat)
    requires
        zeros >= 20,
        number(digits) > 0,
    ensures
        number(window(digits, (digits.len() + zeros) as int)) > usize::MAX,
    decreases zeros,
{
    if zeros == 20 {
        lemma_zeros_scale(digits, 20);
        reveal_with_fuel(pow10, 21);
        assert(pow10(20) == 100_000_000_000_000_000_000);
        assert(number(digits) * pow10(20) >= pow10(20)) by (nonlinear_arith)
            requires
                number(digits) >= 1,
        ;
    } else {
        lemma_twenty_zeros_overflow(digits, (zeros - 1) as nat);
        lemma_window_grows_by_zero(digits, digits.len() + zeros - 1);
    }
}

/// A zero more behind a digit string writes no smaller number.
proof fn lemma_window_grows_by_zero(digits: Seq<u8>, cut: int)
    requires
        cut >= digits.len(),
    ensures
        number(window(digits, cut + 1)) >= number(window(digits, cut)),
{
    lemma_window_step(digits, cut);
    let front = window(digits, cut);
    let whole = window(digits, cut + 1);
    assert(whole.drop_last() =~= front);
    assert(number(whole) == number(front) * 10);
}

/// The fixed-point price that a text writes, the text taken as its bytes
/// in UTF-8.
pub open spec fn price_of_text(text: Seq<char>) -> Option<usize> {
    price_of(encode_utf8(text))
}

/// Finds the end of the run of digits that starts at `from`.
fn scan_digits(text: &[u8], from: usize) -> (end: usize)
    requires
        from <= text@.len(),
    ensures
        end == digits_end(text@, from as int),
        from <= end <= text@.len(),
        forall|i: int| from <= i < end ==> is_digit(#[trigger] text@[i]),
{
    let mut end = from;
    while end < text.len() && text[end] >= 48 && text[end] <= 57
        invariant
            from <= end <= text@.len(),
            digits_end(text@, end as int) == digits_end(text@, from as int),
            forall|i: int| from <= i < end ==> is_digit(#[trigger] text@[i]),
        decreases text@.len() - end,
    {
        end = end + 1;
    }
    end
}

/// Reads the digits from `from` to `to` as a number, up to the limit for
/// exponents: a number over the limit reads as the limit.
fn read_size(text: &[u8], from: usize, to: usize) -> (size: u128)
    requires
        from <= to <= text@.len(),
        forall|i: int| from <= i < to ==> is_digit(#[trigger] text@[i]),
    ensures
        size == if number(text@.subrange(from as int, to as int)) < EXPONENT_LIMIT {
            number(text@.subrange(from as int, to as int))
        } else {
            EXPONENT_LIMIT as nat
        },
{
    let mut size: u128 = 0;
    let mut i = from;
    assert(text@.subrange(from as int, from as int) =~= Seq::<u8>::empty());
    while i < to
        invariant
            from <= i <= to <= text@.len(),
            forall|k: int| from <= k < to ==> is_digit(#[trigger] text@[k]),
            size == if number(text@.subrange(from as int, i as int)) < EXPONENT_LIMIT {
                number(text@.subrange(from as int, i as int))
            } else {
                EXPONENT_LIMIT as nat
            },
        decreases to - i,
    {
        let ghost upto = text@.subrange(from as int, i + 1);
        assert(upto.drop_last() =~= text@.subrange(from as int, i as int));
        assert(upto.last() == text@[i as int]);
        let next: u128 = size * 10 + (text[i] - 48) as u128;
        size = if next < EXPONENT_LIMIT {
            next
        } else {
            EXPONENT_LIMIT
        };
        i = i + 1;
    }
    size
}

/// Reads the first `cut` digits of a mantissa, with zeros where the
/// mantissa is shorter, as a number; `None` where the number is beyond any
/// price.
fn read_window(
    text: &[u8],
    whole_from: usize,
    whole_to: usize,
    fraction_from: usize,
    fraction_to: usize,
    cut: u128,
) -> (value: Option<usize>)
    requires
        whole_from <= whole_to <= fraction_from <= fraction_to <= text@.len(),
        forall|i: int| whole_from <= i < whole_to ==> is_digit(#[trigger] text@[i]),
        forall|i: int| fraction_from <= i < fraction_to ==> is_digit(#[trigger] text@[i]),
    ensures
        match value {
            Some(v) => v == number(
                window(
                    text@.subrange(whole_from as int, whole_to as int) + text@.subrange(
                        fraction_from as int,
                        fraction_to as int,
                    ),
                    cut as int,
                ),
            ),
            None => number(
                window(
                    text@.subrange(whole_from as int, whole_to as int) + text@.subrange(
                        fraction_from as int,
                        fraction_to as int,
                    ),
                    cut as int,
                ),
            ) > usize::MAX,
        },
{
    let ghost digits = text@.subrange(whole_from as int, whole_to as int) + text@.subrange(
        fraction_from as int,
        fraction_to as int,
    );
    let whole: usize = whole_to - whole_from;
    let length: usize = whole + (fraction_to - fraction_from);
    let mut value: u128 = 0;
    let mut i: usize = 0;
    assert(forall|k: int| 0 <= k < digits.len() ==> is_digit(#[trigger] digits[k]));
    while i < length && (i as u128) < cut
        invariant
            0 <= i <= length,
            i <= cut,
            length == digits.len(),
            whole == whole_to - whole_from,
            whole_from <= whole_to <= fraction_from <= fraction_to <= text@.len(),
            digits == text@.subrange(whole_from as int, whole_to as int) + text@.subrange(
                fraction_from as int,
                fraction_to as int,
            ),
            forall|k: int| 0 <= k < digits.len() ==> is_digit(#[trigger] digits[k]),
            value == number(window(digits, i as int)),
            value <= usize::MAX,
        decreases length - i,
    {
        let byte = if i < whole {
            text[whole_from + i]
        } else {
            text[fraction_from + (i - whole)]
        };
        proof {
            assert(byte == digits[i as int]);
            lemma_window_step(digits, i as int);
            assert(window(digits, i + 1).drop_last() =~= window(digits, i as int));
        }
        value = value * 10 + (byte - 48) as u128;
        if value > usize::MAX as u128 {
            proof {
                lemma_window_grows(digits, i + 1, cut as int);
            }
            return None;
        }
        i = i + 1;
    }
    if (i as u128) < cut {
        if value == 0 {
            proof {
                assert(window(digits, length as int) =~= digits);
                lemma_zeros_scale(digits, (cut - length) as nat);
                assert(0 * pow10((cut - length) as nat) == 0);
            }
        } else {
            let mut k: u128 = i as u128;
            while k < cut
                invariant
                    length <= k <= cut,
                    length == digits.len(),
                    digits == text@.subrange(whole_from as int, whole_to as int) + text@.subrange(
                        fraction_from as int,
                        fraction_to as int,
                    ),
                    value == number(window(digits, k as int)),
                    0 < value <= usize::MAX,
                    forall|x: int| 0 <= x < digits.len() ==> is_digit(#[trigger] digits[x]),
                decreases cut - k,
            {
                proof {
                    lemma_window_step(digits, k as int);
                    assert(window(digits, k + 1).drop_last() =~= window(digits, k as int));
                }
                value = value * 10;
                if value > usize::MAX as u128 {
                    proof {
                        lemma_window_grows(digits, k + 1, cut as int);
                    }
                    return None;
                }
                k = k + 1;
            }
        }
    }
    Some(value as usize)
}

/// Where the parts of a number stand in its text.
struct Layout {
    negative: bool,
    whole_from: usize,
    whole_to: usize,
    fraction_from: usize,
    fraction_to: usize,
    marked: bool,
    downward: bool,
    exponent_from: usize,
    exponent_to: usize,
}

impl Layout {
    /// The layout is that of the number that `text` writes.
    spec fn describes(self, text: Seq<u8>) -> bool {
        &&& self.negative == is_negative(text)
        &&& self.whole_from == whole_start(text)
        &&& self.whole_to == whole_end(text)
        &&& self.fraction_from == fraction_start(text)
        &&& self.fraction_to == fraction_end(text)
        &&& self.marked == has_exponent(text)
        &&& self.marked ==> {
            &&& self.downward == (exponent_signed(text) && text[fraction_end(text) + 1] == 45)
            &&& self.exponent_from == exponent_start(text)
            &&& self.exponent_to == exponent_end(text)
            &&& self.fraction_to < self.exponent_from <= self.exponent_to <= text.len()
            &&& forall|i: int|
                self.exponent_from <= i < self.exponent_to ==> is_digit(#[trigger] text[i])
        }
        &&& self.whole_from < self.whole_to <= self.fraction_from <= self.fraction_to <= text.len()
        &&& forall|i: int| self.whole_from <= i < self.whole_to ==> is_digit(#[trigger] text[i])
        &&& forall|i: int| self.fraction_from <= i < self.fraction_to ==> is_digit(#[trigger] text[i])
    }
}

/// Finds the parts of a number in `text`, or finds that it is no number.
fn read_layout(text: &[u8]) -> (layout: Option<Layout>)
    ensures
        match layout {
            Some(found) => is_number(text@) && found.describes(text@),
            None => !is_number(text@),
        },
{
    let length = text.len();
    let negative = length > 0 && text[0] == 45;
    let whole_from: usize = if negative {
        1
    } else {
        0
    };
    let whole_to = scan_digits(text, whole_from);
    if whole_to == whole_from {
        return None;
    }
    let pointed = whole_to < length && text[whole_to] == 46;
    let fraction_from: usize = if pointed {
        whole_to + 1
    } else {
        whole_to
    };
    let fraction_to = scan_digits(text, fraction_from);
    if pointed && fraction_to == fraction_from {
        return None;
    }
    let marked = fraction_to < length && (text[fraction_to] == 101 || text[fraction_to] == 69);
    if !marked {
        if fraction_to != length {
            return None;
        }
        return Some(
            Layout {
                negative,
                whole_from,
                whole_to,
                fraction_from,
                fraction_to,
                marked,
                downward: false,
                exponent_from: fraction_to,
                exponent_to: fraction_to,
            },
        );
    }
    let signed = fraction_to + 1 < length && (text[fraction_to + 1] == 43 || text[fraction_to + 1]
        == 45);
    let downward = signed && text[fraction_to + 1] == 45;
    let exponent_from: usize = if signed {
        fraction_to + 2
    } else {
        fraction_to + 1
    };
    let exponent_to = scan_digits(text, exponent_from);
    if exponent_to == exponent_from || exponent_to != length {
        return None;
    }
    Some(
        Layout {
            negative,
            whole_from,
            whole_to,
            fraction_from,
            fraction_to,
            marked,
            downward,
            exponent_from,
            exponent_to,
        },
    )
}

/// How many digits of the mantissa to read for the whole hundredths, or a
/// count that reads as many as matter where the exponent is over the limit.
fn read_cut(text: &[u8], layout: &Layout) -> (cut: u128)
    requires
        is_number(text@),
        layout.describes(text@),
    ensures
        cut == hundredths_cut(text@) || (hundredths_cut(text@) <= 0 && cut == 0) || (cut
            == mantissa(text@).len() + 20 && hundredths_cut(text@) >= cut),
{
    let whole: u128 = (layout.whole_to - layout.whole_from) as u128;
    let digits: u128 = whole + (layout.fraction_to - layout.fraction_from) as u128;
    if !layout.marked {
        return whole + 2;
    }
    let size = read_size(text, layout.exponent_from, layout.exponent_to);
    if layout.downward {
        if size >= whole + 2 {
            0
        } else {
            whole + 2 - size
        }
    } else if size >= EXPONENT_LIMIT {
        digits + 20
    } else {
        whole + 2 + size
    }
}

/// Reads a price from decimal text as whole hundredths.
///
/// The text is a JSON number. What stands behind the second decimal is cut
/// off; a negative number reads as 0, one beyond the largest price as the
/// largest price. Text that is no number reads as nothing.
pub fn parse_price(text: &str) -> (price: Option<usize>)
    ensures
        price == price_of_text(text@),
{
    let bytes = text.as_bytes();
    let layout = match read_layout(bytes) {
        Some(layout) => layout,
        None => {
            return None;
        },
    };
    if layout.negative {
        return Some(0);
    }
    let cut = read_cut(bytes, &layout);
    let ghost all = mantissa(bytes@);
    let ghost exact = hundredths_cut(bytes@);
    let value = read_window(
        bytes,
        layout.whole_from,
        layout.whole_to,
        layout.fraction_from,
        layout.fraction_to,
        cut,
    );
    proof {
        assert(forall|k: int| 0 <= k < all.len() ==> is_digit(#[trigger] all[k]));
        if cut != exact {
            if exact <= 0 {
                assert(window(all, exact) =~= window(all, 0));
            } else {
                lemma_window_grows(all, cut as int, exact);
                if value is Some {
                    if number(all) > 0 {
                        lemma_twenty_zeros_overflow(all, 20);
                    } else {
                        lemma_zeros_scale(all, (exact - all.len()) as nat);
                        assert(0 * pow10((exact - all.len()) as nat) == 0);
                        lemma_window_grows(all, 0, cut as int);
                        assert(number(window(all, 0)) == 0);
                        lemma_window_grows(all, all.len() as int, cut as int);
                        assert(window(all, all.len() as int) =~= all);
                    }
                }
            }
        }
    }
    match value {
        Some(found) => Some(found),
        None => Some(usize::MAX),
    }
}

/// The bytes of text that holds ASCII characters only.
spec fn ascii_bytes(text: Seq<char>) -> Seq<u8> {
    Seq::new(text.len(), |i: int| text[i] as u8)
}

/// A number in decimal notation is a string of digits, and that string
/// writes the number.
proof fn lemma_decimal_writes_number(n: nat)
    ensures
        decimal(n).len() >= 1,
        is_ascii_chars(decimal(n)),
        forall|i: int| 0 <= i < decimal(n).len() ==> is_digit(#[trigger] ascii_bytes(decimal(n))[i]),
        number(ascii_bytes(decimal(n))) == n,
    decreases n,
{
    let bytes = ascii_bytes(decimal(n));
    if n < 10 {
        assert(bytes.drop_last() =~= Seq::<u8>::empty());
        assert(number(bytes.drop_last()) == 0);
        assert(bytes.last() == 48 + n);
    } else {
        lemma_decimal_writes_number(n / 10);
        let front = ascii_bytes(decimal(n / 10));
        assert(bytes.drop_last() =~= front);
        assert(bytes.last() == 48 + n % 10);
        assert forall|i: int| 0 <= i < decimal(n).len() implies is_digit(#[trigger] bytes[i]) by {
            if i < front.len() {
                assert(bytes[i] == front[i]);
            }
        }
        assert forall|i: int| 0 <= i < decimal(n).len() implies '\0' <= #[trigger] decimal(n)[i]
            <= '\u{7f}' by {
            if i < front.len() {
                assert(decimal(n)[i] == decimal(n / 10)[i]);
            }
        }
    }
}

/// A run of digits ends where the digits end.
proof fn lemma_digits_end_at(text: Seq<u8>, from: int, to: int)
    requires
        0 <= from <= to <= text.len(),
        forall|i: int| from <= i < to ==> is_digit(#[trigger] text[i]),
        to < text.len() ==> !is_digit(text[to]),
    ensures
        digits_end(text, from) == to,
    decreases to - from,
{
    if from < to {
        lemma_digits_end_at(text, from + 1, to);
    }
}

/// A price written with two decimals reads back as the same price.
pub proof fn lemma_written_price_reads_back(price: usize)
    ensures
        price_of_text(price_text(price as nat)) == Some(price),
{
    let whole = (price / 100) as nat;
    let tenths = ((price % 100) / 10) as nat;
    let hundredths_digit = (price % 10) as nat;
    let text = price_text(price as nat);
    let head = decimal(whole);
    let n = head.len() as int;
    lemma_decimal_writes_number(whole);
    assert(text.len() == n + 3);
    assert forall|i: int| 0 <= i < text.len() implies '\0' <= #[trigger] text[i] <= '\u{7f}' by {
        if i < n {
            assert(text[i] == head[i]);
        }
    }
    is_ascii_chars_encode_utf8(text);
    let bytes = encode_utf8(text);
    assert(bytes.len() == n + 3);
    assert forall|i: int| 0 <= i < n implies is_digit(#[trigger] bytes[i]) && bytes[i]
        == ascii_bytes(head)[i] by {
        assert(bytes[i] == text[i] as u8);
        assert(text[i] == head[i]);
        assert(is_digit(ascii_bytes(head)[i]));
    }
    assert(bytes[n] == text[n] as u8 && text[n] == '.');
    assert(bytes[n + 1] == text[n + 1] as u8 && text[n + 1] == digit(tenths));
    assert(bytes[n + 2] == text[n + 2] as u8 && text[n + 2] == digit(hundredths_digit));
    assert(bytes[n] == 46);
    assert(bytes[n + 1] == 48 + tenths);
    assert(bytes[n + 2] == 48 + hundredths_digit);
    assert(is_digit(bytes[0]));
    assert(!is_negative(bytes));
    lemma_digits_end_at(bytes, 0, n);
    lemma_digits_end_at(bytes, n + 1, n + 3);
    assert(whole_end(bytes) == n);
    assert(has_fraction(bytes));
    assert(fraction_end(bytes) == n + 3);
    assert(!has_exponent(bytes));
    assert(is_number(bytes));
    let digits = mantissa(bytes);
    assert(bytes.subrange(0, n) =~= ascii_bytes(head));
    assert(digits.len() == n + 2);
    assert(window(digits, hundredths_cut(bytes)) =~= digits);
    let upper = digits.drop_last();
    assert(upper.drop_last() =~= ascii_bytes(head));
    assert(upper.last() == bytes[n + 1]);
    assert(digits.last() == bytes[n + 2]);
    assert(number(upper) == whole * 10 + tenths);
    assert(number(digits) == (whole * 10 + tenths) * 10 + hundredths_digit);
    assert(number(digits) == price);
}

} // verus!

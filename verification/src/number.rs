//! Integers in base ten: reading a literal and writing a value out.

use vstd::prelude::*;

verus! {

/// One of the ten digits.
pub open spec fn is_digit(c: char) -> bool {
    '0' <= c <= '9'
}

/// The number that the digit `c` stands for.
pub open spec fn digit_value(c: char) -> nat {
    (c as u32 - '0' as u32) as nat
}

/// Every character of `text` is a digit.
pub open spec fn all_digits(text: Seq<char>) -> bool {
    forall|i: int| 0 <= i < text.len() ==> is_digit(#[trigger] text[i])
}

/// The number that a run of digits writes, most significant digit first.
pub open spec fn digits_value(text: Seq<char>) -> nat
    decreases text.len(),
{
    if text.len() == 0 {
        0
    } else {
        digits_value(text.drop_last()) * 10 + digit_value(text.last())
    }
}

/// `text` begins with `+` or `-`.
pub open spec fn has_sign(text: Seq<char>) -> bool {
    text.len() > 0 && (text[0] == '-' || text[0] == '+')
}

/// `text` begins with `-`.
pub open spec fn is_negative(text: Seq<char>) -> bool {
    text.len() > 0 && text[0] == '-'
}

/// What follows the sign of a literal, or all of it where it has none.
pub open spec fn digits_part(text: Seq<char>) -> Seq<char> {
    if has_sign(text) {
        text.skip(1)
    } else {
        text
    }
}

/// The number that `text` writes when its digits are all digits.
pub open spec fn signed_value(text: Seq<char>) -> int {
    if is_negative(text) {
        -(digits_value(digits_part(text)) as int)
    } else {
        digits_value(digits_part(text)) as int
    }
}

/// The integer that `text` denotes: an optional `+` or `-`, then one or more
/// digits, the whole within sixty-four signed bits. `None` for anything else.
pub open spec fn int_literal(text: Seq<char>) -> Option<i64> {
    if digits_part(text).len() > 0 && all_digits(digits_part(text)) && i64::MIN <= signed_value(
        text,
    ) <= i64::MAX {
        Some(signed_value(text) as i64)
    } else {
        None
    }
}

/// A longer run of digits writes no smaller a number than its beginning.
pub proof fn lemma_digits_value_grows(text: Seq<char>, cut: int)
    requires
        0 <= cut <= text.len(),
    ensures
        digits_value(text.take(cut)) <= digits_value(text),
    decreases text.len(),
{
    if cut == text.len() {
        assert(text.take(cut) == text);
    } else {
        lemma_digits_value_grows(text.drop_last(), cut);
        assert(text.drop_last().take(cut) == text.take(cut));
    }
}

/// Reads an integer literal.
pub fn parse_int(text: &Vec<char>) -> (value: Option<i64>)
    ensures
        value == int_literal(text@),
{
    let len = text.len();
    if len == 0 {
        return None;
    }
    let negative = text[0] == '-';
    let start: usize = if text[0] == '-' || text[0] == '+' {
        1
    } else {
        0
    };
    if start == len {
        return None;
    }
    let ghost digits = digits_part(text@);
    assert(digits == text@.skip(start as int));
    // The magnitude may reach 2^63 while the sign is still to be applied.
    let limit: u64 = if negative {
        0x8000_0000_0000_0000
    } else {
        0x7fff_ffff_ffff_ffff
    };
    let mut magnitude: u64 = 0;
    let mut at: usize = start;
    while at < len
        invariant
            start <= at <= len,
            len == text.len(),
            digits == text@.skip(start as int),
            digits == digits_part(text@),
            all_digits(digits.take(at - start)),
            magnitude == digits_value(digits.take(at - start)),
            magnitude <= limit,
            negative == is_negative(text@),
            limit == if negative { 0x8000_0000_0000_0000u64 } else { 0x7fff_ffff_ffff_ffffu64 },
        decreases len - at,
    {
        let c = text[at];
        assert(c == digits[at - start]);
        if !('0' <= c && c <= '9') {
            assert(!is_digit(digits[at - start]));
            return None;
        }
        let digit: u64 = (c as u32 - '0' as u32) as u64;
        proof {
            assert(digits.take(at - start + 1).drop_last() == digits.take(at - start));
            assert(digits.take(at - start + 1).last() == c);
            assert forall|i: int| 0 <= i < at - start + 1 implies is_digit(
                #[trigger] digits.take(at - start + 1)[i],
            ) by {
                if i < at - start {
                    assert(digits.take(at - start + 1)[i] == digits.take(at - start)[i]);
                }
            }
        }
        if magnitude > (limit - digit) / 10 {
            proof {
                lemma_digits_value_grows(digits, at - start + 1);
                assert(digits_value(digits.take(at - start + 1)) == magnitude * 10 + digit);
                assert(digits_value(digits) > limit);
            }
            return None;
        }
        magnitude = magnitude * 10 + digit;
        at += 1;
    }
    assert(digits.take(at - start) == digits);
    if negative {
        if magnitude == 0x8000_0000_0000_0000 {
            Some(i64::MIN)
        } else {
            Some(-(magnitude as i64))
        }
    } else {
        Some(magnitude as i64)
    }
}

/// The digit that writes `d`.
pub open spec fn digit_char(d: nat) -> char {
    (48u8 + d as u8) as char
}

/// The digits of `n`, most significant first; empty for zero.
pub open spec fn leading_digits(n: nat) -> Seq<char>
    decreases n,
{
    if n == 0 {
        Seq::empty()
    } else {
        leading_digits(n / 10).push(digit_char(n % 10))
    }
}

/// `n` in base ten, without leading zeros.
pub open spec fn decimal(n: nat) -> Seq<char> {
    leading_digits(n / 10).push(digit_char(n % 10))
}

/// `value` in base ten, with a `-` in front where it is negative.
pub open spec fn int_text(value: int) -> Seq<char> {
    if value < 0 {
        seq!['-'] + decimal((-value) as nat)
    } else {
        decimal(value as nat)
    }
}

/// Writes an integer out in base ten.
pub fn render_int(value: i64) -> (text: String)
    ensures
        text@ == int_text(value as int),
{
    let magnitude: u64 = if value < 0 {
        (-(value + 1)) as u64 + 1
    } else {
        value as u64
    };
    // The digits, least significant first.
    let mut reversed: Vec<char> = Vec::new();
    reversed.push((48u8 + (magnitude % 10) as u8) as char);
    let mut rest: u64 = magnitude / 10;
    while rest > 0
        invariant
            reversed.len() > 0,
            decimal(magnitude as nat) == leading_digits(rest as nat) + reversed@.reverse(),
        decreases rest,
    {
        let ghost before = reversed@;
        reversed.push((48u8 + (rest % 10) as u8) as char);
        proof {
            let digit = digit_char((rest % 10) as nat);
            assert(reversed@.reverse() == seq![digit] + before.reverse());
            assert(leading_digits(rest as nat) == leading_digits((rest / 10) as nat).push(digit));
            assert(leading_digits((rest / 10) as nat).push(digit) + before.reverse()
                == leading_digits((rest / 10) as nat) + (seq![digit] + before.reverse()));
        }
        rest = rest / 10;
    }
    assert(decimal(magnitude as nat) == reversed@.reverse()) by {
        assert(leading_digits(0) + reversed@.reverse() == reversed@.reverse());
    }
    let mut text = String::new();
    if value < 0 {
        text.push('-');
    }
    let ghost sign = text@;
    let mut left: usize = reversed.len();
    while left > 0
        invariant
            left <= reversed.len(),
            text@ == sign + reversed@.reverse().take(reversed.len() - left),
        decreases left,
    {
        left -= 1;
        text.push(reversed[left]);
        proof {
            let written = reversed@.reverse();
            let count = reversed.len() - left;
            assert(written.take(count) == written.take(count - 1).push(written[count - 1]));
            assert(written[count - 1] == reversed@[left as int]);
            assert((sign + written.take(count - 1)).push(written[count - 1]) == sign
                + written.take(count - 1).push(written[count - 1]));
        }
    }
    assert(reversed@.reverse().take(reversed.len() as int) == reversed@.reverse());
    text
}

/// A digit is written as the character that stands for it.
pub proof fn lemma_digit_char(d: nat)
    requires
        d < 10,
    ensures
        is_digit(digit_char(d)),
        digit_value(digit_char(d)) == d,
        digit_char(d) != '-',
        digit_char(d) != '+',
{
}

/// The digits of a number are digits, and write that number.
pub proof fn lemma_leading_digits(n: nat)
    ensures
        all_digits(leading_digits(n)),
        digits_value(leading_digits(n)) == n,
        n > 0 ==> leading_digits(n).len() > 0,
    decreases n,
{
    if n > 0 {
        let fewer = leading_digits(n / 10);
        let last = digit_char(n % 10);
        lemma_leading_digits(n / 10);
        lemma_digit_char(n % 10);
        assert(fewer.push(last).drop_last() == fewer);
        assert forall|i: int| 0 <= i < fewer.push(last).len() implies is_digit(
            #[trigger] fewer.push(last)[i],
        ) by {
            if i < fewer.len() {
                assert(fewer.push(last)[i] == fewer[i]);
            }
        }
    }
}

/// What an integer is written as is read as that integer.
pub proof fn lemma_int_text_read_back(value: i64)
    ensures
        int_literal(int_text(value as int)) == Some(value),
{
    let magnitude: nat = if value < 0 {
        (-value) as nat
    } else {
        value as nat
    };
    let digits = decimal(magnitude);
    let fewer = leading_digits(magnitude / 10);
    let last = digit_char(magnitude % 10);
    lemma_leading_digits(magnitude / 10);
    lemma_digit_char(magnitude % 10);
    assert(digits.drop_last() == fewer);
    assert(digits_value(digits) == magnitude);
    assert forall|i: int| 0 <= i < digits.len() implies is_digit(#[trigger] digits[i]) by {
        if i < fewer.len() {
            assert(digits[i] == fewer[i]);
        }
    }
    assert(is_digit(digits[0]));
    let text = int_text(value as int);
    if value < 0 {
        assert(text[0] == '-');
        assert(text.skip(1) == digits);
    } else {
        assert(text == digits);
        assert(!has_sign(text));
    }
}

} // verus!

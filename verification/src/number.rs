//! Decimal numbers in protocol parameters.

use vstd::prelude::*;
use vstd::string::*;

verus! {

pub open spec fn is_digit(c: char) -> bool {
    '0' <= c <= '9'
}

/// The value of a decimal digit; zero for any other character.
pub open spec fn digit_value(c: char) -> nat {
    if is_digit(c) {
        (c as nat - '0' as nat) as nat
    } else {
        0
    }
}

/// The number that a run of decimal digits writes, most significant digit
/// first.
pub open spec fn decimal_value(digits: Seq<char>) -> nat
    decreases digits.len(),
{
    if digits.len() == 0 {
        0
    } else {
        decimal_value(digits.drop_last()) * 10 + digit_value(digits.last())
    }
}

pub open spec fn all_digits(digits: Seq<char>) -> bool {
    forall|i: int| 0 <= i < digits.len() ==> is_digit(#[trigger] digits[i])
}

/// The digits of a numeral: the numeral without its optional plus sign.
pub open spec fn unsigned_digits(numeral: Seq<char>) -> Seq<char> {
    if numeral.len() > 0 && numeral[0] == '+' {
        numeral.drop_first()
    } else {
        numeral
    }
}

/// The number a numeral stands for, if it is one and no greater than `max`:
/// an optional plus sign, then one or more decimal digits and nothing else.
pub open spec fn parse_unsigned(numeral: Seq<char>, max: nat) -> Option<nat> {
    let digits = unsigned_digits(numeral);
    if digits.len() > 0 && all_digits(digits) && decimal_value(digits) <= max {
        Some(decimal_value(digits))
    } else {
        None
    }
}

/// What is read as an unsigned 16-bit number.
pub open spec fn parse_u16(numeral: Seq<char>) -> Option<u16> {
    match parse_unsigned(numeral, 0xffff) {
        Some(n) => Some(n as u16),
        None => None,
    }
}

/// What is read as an unsigned 8-bit number.
pub open spec fn parse_u8(numeral: Seq<char>) -> Option<u8> {
    match parse_unsigned(numeral, 0xff) {
        Some(n) => Some(n as u8),
        None => None,
    }
}

/// Digits that follow never make a number smaller.
proof fn lemma_decimal_value_grows(digits: Seq<char>, count: int)
    requires
        0 <= count <= digits.len(),
    ensures
        decimal_value(digits.take(count)) <= decimal_value(digits),
    decreases digits.len() - count,
{
    if count == digits.len() {
        assert(digits.take(count) =~= digits);
    } else {
        lemma_decimal_value_grows(digits.drop_last(), count);
        assert(digits.drop_last().take(count) =~= digits.take(count));
    }
}

/// Reads a numeral no greater than `max`.
pub fn unsigned(numeral: &str, max: u32) -> (value: Option<u32>)
    ensures
        match parse_unsigned(numeral@, max as nat) {
            Some(n) => value == Some(n as u32),
            None => value is None,
        },
{
    broadcast use is_ascii_spec_bytes;

    let ghost digits = unsigned_digits(numeral@);
    if !numeral.is_ascii() {
        proof {
            let at = choose|i: int|
                0 <= i < numeral@.len() && !('\0' <= #[trigger] numeral@[i] <= '\u{7f}');
            if numeral@[0] == '+' {
                assert(!is_digit(digits[at - 1]));
            } else {
                assert(!is_digit(digits[at]));
            }
        }
        return None;
    }
    let bytes = numeral.as_bytes();
    let len = bytes.len();
    if len == 0 {
        return None;
    }
    let start: usize = if bytes[0] == 0x2b {
        1
    } else {
        0
    };
    assert(digits =~= numeral@.subrange(start as int, len as int));
    if start == len {
        return None;
    }
    let mut value: u64 = 0;
    let mut at: usize = start;
    assert(digits.take(0) =~= Seq::<char>::empty());
    while at < len
        invariant
            start <= at <= len,
            len == numeral@.len(),
            bytes@.len() == len,
            forall|i: int| 0 <= i < len ==> bytes@[i] == numeral@[i] as u8,
            forall|i: int| 0 <= i < len ==> '\0' <= #[trigger] numeral@[i] <= '\u{7f}',
            digits == unsigned_digits(numeral@),
            digits == numeral@.subrange(start as int, len as int),
            all_digits(digits.take(at - start)),
            value == decimal_value(digits.take(at - start)),
            value <= max,
        decreases len - at,
    {
        let b = bytes[at];
        assert(b == numeral@[at as int] as u8);
        assert(digits[at - start] == numeral@[at as int]);
        if b < 0x30 || b > 0x39 {
            assert(!is_digit(digits[at - start]));
            return None;
        }
        let digit: u64 = (b - 0x30) as u64;
        let ghost longer = digits.take(at - start + 1);
        proof {
            assert(longer.drop_last() =~= digits.take(at - start));
            assert(longer.last() == digits[at - start]);
            assert(digit_value(longer.last()) == digit);
            assert(decimal_value(longer) == value * 10 + digit);
            lemma_decimal_value_grows(digits, at - start + 1);
        }
        if value * 10 + digit > max as u64 {
            return None;
        }
        value = value * 10 + digit;
        at += 1;
    }
    assert(digits.take(at - start) =~= digits);
    Some(value as u32)
}

} // verus!

//! Unsigned decimal numbers as text.

use vstd::prelude::*;
use vstd::std_specs::iter::IteratorSpec;

verus! {

/// Whether the character is one of `0` to `9`.
pub open spec fn is_digit(c: char) -> bool {
    '0' <= c <= '9'
}

/// The value of a digit; zero for any other character.
pub open spec fn digit_value(c: char) -> nat {
    if is_digit(c) {
        (c as int - '0' as int) as nat
    } else {
        0
    }
}

/// The digit of a value below ten.
pub open spec fn digit_char(value: nat) -> char {
    ('0' as u8 + value as u8) as char
}

/// Whether every character is a digit.
pub open spec fn all_digits(text: Seq<char>) -> bool {
    forall|i: int| 0 <= i < text.len() ==> is_digit(#[trigger] text[i])
}

/// The number that a run of digits writes, most significant digit first.
pub open spec fn decimal_value(digits: Seq<char>) -> nat
    decreases digits.len(),
{
    if digits.len() == 0 {
        0
    } else {
        decimal_value(digits.drop_last()) * 10 + digit_value(digits.last())
    }
}

/// The digits of a number, most significant first, without leading zeros.
pub open spec fn decimal_digits(value: nat) -> Seq<char>
    decreases value,
{
    if value < 10 {
        seq![digit_char(value)]
    } else {
        decimal_digits(value / 10).push(digit_char(value % 10))
    }
}

/// The field without the plus sign that may lead it.
pub open spec fn unsigned_part(field: Seq<char>) -> Seq<char> {
    if field.len() > 0 && field[0] == '+' {
        field.skip(1)
    } else {
        field
    }
}

/// The number that a field writes: an optional plus sign, then one or more
/// digits, of a value that fits in 64 bits. Anything else writes no number.
pub open spec fn parsed_u64(field: Seq<char>) -> Option<u64> {
    let digits = unsigned_part(field);
    if digits.len() > 0 && all_digits(digits) && decimal_value(digits) <= u64::MAX {
        Some(decimal_value(digits) as u64)
    } else {
        None
    }
}

/// The value of a run of digits is at least the value of each of its prefixes.
pub proof fn lemma_decimal_value_rises(digits: Seq<char>, count: int)
    requires
        0 <= count <= digits.len(),
    ensures
        decimal_value(digits.take(count)) <= decimal_value(digits),
    decreases digits.len(),
{
    if count == digits.len() {
        assert(digits.take(count) =~= digits);
    } else {
        let front = digits.drop_last();
        assert(front.take(count) =~= digits.take(count));
        lemma_decimal_value_rises(front, count);
    }
}

/// The digits of a number are digits, at least one, and write that number.
pub proof fn lemma_decimal_digits(value: nat)
    ensures
        decimal_digits(value).len() > 0,
        all_digits(decimal_digits(value)),
        decimal_value(decimal_digits(value)) == value,
    decreases value,
{
    if value < 10 {
        let digits = decimal_digits(value);
        assert(digits.drop_last() =~= Seq::<char>::empty());
        assert(digit_value(digit_char(value)) == value);
        assert(decimal_value(digits.drop_last()) == 0);
    } else {
        lemma_decimal_digits(value / 10);
        let front = decimal_digits(value / 10);
        let digits = decimal_digits(value);
        assert(digits.drop_last() =~= front);
        assert(digit_value(digit_char(value % 10)) == value % 10);
        assert forall|i: int| 0 <= i < digits.len() implies is_digit(#[trigger] digits[i]) by {
            if i < front.len() {
                assert(digits[i] == front[i]);
            }
        }
    }
}

/// Reading back the digits of a number gives the number.
pub proof fn lemma_parse_decimal_digits(value: u64)
    ensures
        parsed_u64(decimal_digits(value as nat)) == Some(value),
{
    lemma_decimal_digits(value as nat);
    let digits = decimal_digits(value as nat);
    assert(is_digit(digits[0]));
}

/// The characters of a string.
pub fn chars_of(text: &str) -> (chars: Vec<char>)
    ensures
        chars@ == text@,
{
    let mut chars: Vec<char> = Vec::new();
    let mut rest = text.chars();
    loop
        invariant
            chars@ + rest.remaining() == text@,
            rest.obeys_prophetic_iter_laws(),
            rest.decrease() is Some,
        ensures
            chars@ == text@,
        decreases rest.decrease()->0,
    {
        match rest.next() {
            Some(c) => {
                chars.push(c);
            },
            None => {
                break;
            },
        }
    }
    chars
}

/// Reads the number that a field writes.
pub fn parse_u64(field: &[char]) -> (number: Option<u64>)
    ensures
        number == parsed_u64(field@),
{
    let start: usize = if field.len() > 0 && field[0] == '+' {
        1
    } else {
        0
    };
    let ghost digits = unsigned_part(field@);
    if start == field.len() {
        return None;
    }
    let mut at: usize = start;
    let mut value: u64 = 0;
    proof {
        assert(digits.take(0) =~= Seq::<char>::empty());
    }
    while at < field.len()
        invariant
            start <= at <= field.len(),
            start <= 1,
            digits == unsigned_part(field@),
            digits == field@.skip(start as int),
            all_digits(digits.take(at - start)),
            value == decimal_value(digits.take(at - start)),
        decreases field.len() - at,
    {
        let c = field[at];
        let ghost seen = digits.take(at - start);
        let ghost next = digits.take(at - start + 1);
        proof {
            assert(next.drop_last() =~= seen);
            assert(next.last() == c);
            assert(digits[at - start] == c);
        }
        if !('0' <= c && c <= '9') {
            return None;
        }
        let digit: u64 = (c as u32 - '0' as u32) as u64;
        proof {
            lemma_decimal_value_rises(digits, at - start + 1);
        }
        let tenfold = match value.checked_mul(10) {
            Some(tenfold) => tenfold,
            None => {
                return None;
            },
        };
        value = match tenfold.checked_add(digit) {
            Some(sum) => sum,
            None => {
                return None;
            },
        };
        proof {
            assert forall|i: int| 0 <= i < next.len() implies is_digit(#[trigger] next[i]) by {
                if i < seen.len() {
                    assert(next[i] == seen[i]);
                }
            }
        }
        at += 1;
    }
    proof {
        assert(digits.take(at - start) =~= digits);
    }
    Some(value)
}

/// The text of one digit.
fn digit_text(digit: u64) -> (text: &'static str)
    requires
        digit < 10,
    ensures
        text@ == seq![digit_char(digit as nat)],
{
    proof {
        reveal_strlit("0");
        reveal_strlit("1");
        reveal_strlit("2");
        reveal_strlit("3");
        reveal_strlit("4");
        reveal_strlit("5");
        reveal_strlit("6");
        reveal_strlit("7");
        reveal_strlit("8");
        reveal_strlit("9");
    }
    let text = if digit == 0 {
        "0"
    } else if digit == 1 {
        "1"
    } else if digit == 2 {
        "2"
    } else if digit == 3 {
        "3"
    } else if digit == 4 {
        "4"
    } else if digit == 5 {
        "5"
    } else if digit == 6 {
        "6"
    } else if digit == 7 {
        "7"
    } else if digit == 8 {
        "8"
    } else {
        "9"
    };
    proof {
        assert(text@ =~= seq![digit_char(digit as nat)]);
    }
    text
}

/// Appends the digits of a number to a text.
pub fn push_decimal(text: &mut String, value: u64)
    ensures
        final(text)@ == old(text)@ + decimal_digits(value as nat),
    decreases value,
{
    if value >= 10 {
        push_decimal(text, value / 10);
    }
    text.append(digit_text(value % 10));
    proof {
        if value >= 10 {
            assert(text@ =~= old(text)@ + decimal_digits(value as nat));
        } else {
            assert(text@ =~= old(text)@ + decimal_digits(value as nat));
        }
    }
}

} // verus!

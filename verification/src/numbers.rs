//! Numbers as text: writing them in decimal, and reading them back.

use crate::text::chars_of;
use vstd::prelude::*;

verus! {

/// The character of a decimal digit.
pub open spec fn digit_char(d: nat) -> char {
    (('0' as u8) + d) as u8 as char
}

/// A natural number in decimal, without leading zeros.
pub open spec fn digits(n: nat) -> Seq<char>
    decreases n,
{
    if n < 10 {
        seq![digit_char(n)]
    } else {
        digits(n / 10).push(digit_char(n % 10))
    }
}

/// An integer in decimal, with `-` before a negative one.
pub open spec fn decimal(n: int) -> Seq<char> {
    if n < 0 {
        seq!['-'] + digits((-n) as nat)
    } else {
        digits(n as nat)
    }
}

/// Appends `n` in decimal to `text`.
pub fn push_digits(text: &mut String, n: u64)
    ensures
        final(text)@ == old(text)@ + digits(n as nat),
    decreases n,
{
    if n >= 10 {
        push_digits(text, n / 10);
    }
    let d: u8 = (n % 10) as u8;
    let ch: char = ('0' as u8 + d) as char;
    text.push(ch);
    assert(text@ =~= old(text)@ + digits(n as nat));
}

/// Appends `n` in decimal to `text`, with `-` before a negative number.
pub fn push_decimal(text: &mut String, n: i64)
    ensures
        final(text)@ == old(text)@ + decimal(n as int),
{
    if n < 0 {
        text.push('-');
        let size: u64 = (-(n as i128)) as u64;
        push_digits(text, size);
        assert(text@ =~= old(text)@ + decimal(n as int));
    } else {
        push_digits(text, n as u64);
    }
}

/// The remainder of a division that rounds towards zero.
pub open spec fn rem_towards_zero(n: int, by: int) -> int {
    if n >= 0 {
        n % by
    } else {
        -((-n) % by)
    }
}

/// The remainder of `n` by 1000, with the sign of `n`: the last three digits
/// of a stamp.
pub fn last_three_digits(n: i64) -> (rest: i64)
    ensures
        rest == rem_towards_zero(n as int, 1000),
{
    if n >= 0 {
        n % 1000
    } else {
        let size: u64 = (-(n as i128)) as u64;
        -((size % 1000) as i64)
    }
}

/// Whether a character is a decimal digit.
pub open spec fn is_digit(c: char) -> bool {
    '0' <= c && c <= '9'
}

/// Whether a text is made of decimal digits only.
pub open spec fn all_digits(text: Seq<char>) -> bool {
    forall|i: int| 0 <= i < text.len() ==> is_digit(#[trigger] text[i])
}

/// The number that a text of decimal digits writes.
pub open spec fn digits_value(text: Seq<char>) -> nat
    decreases text.len(),
{
    if text.len() == 0 {
        0
    } else {
        digits_value(text.drop_last()) * 10 + (text.last() as u32 - '0' as u32) as nat
    }
}

/// A text without the `+` that may stand at its start.
pub open spec fn unsigned_body(text: Seq<char>) -> Seq<char> {
    if text.len() > 0 && text[0] == '+' {
        text.skip(1)
    } else {
        text
    }
}

/// The number up to `max` that a text writes in decimal: one or more digits,
/// a `+` allowed before them. Any other text, and a number above `max`, give
/// `None`.
pub open spec fn parsed(text: Seq<char>, max: nat) -> Option<nat> {
    let body = unsigned_body(text);
    if body.len() > 0 && all_digits(body) && digits_value(body) <= max {
        Some(digits_value(body))
    } else {
        None
    }
}

/// The number written by the first digits of a text is no larger than the
/// number written by all of them.
pub proof fn lemma_digits_value_grows(text: Seq<char>, n: int)
    requires
        0 <= n <= text.len(),
    ensures
        digits_value(text.subrange(0, n)) <= digits_value(text),
    decreases text.len() - n,
{
    if n < text.len() {
        lemma_digits_value_grows(text, n + 1);
        assert(text.subrange(0, n + 1).drop_last() == text.subrange(0, n));
    } else {
        assert(text.subrange(0, n) == text);
    }
}

/// Reads a number up to `max`, written in decimal.
pub fn parse_number(text: &str, max: u32) -> (number: Option<u32>)
    ensures
        match number {
            Some(n) => parsed(text@, max as nat) == Some(n as nat),
            None => parsed(text@, max as nat) is None,
        },
{
    let chars = chars_of(text);
    let start: usize = if chars.len() > 0 && chars[0] == '+' {
        1
    } else {
        0
    };
    let ghost body = unsigned_body(text@);
    assert(body == chars@.subrange(start as int, chars@.len() as int));
    if start == chars.len() {
        return None;
    }
    let mut value: u64 = 0;
    let mut i: usize = start;
    assert(body.subrange(0, 0) =~= Seq::<char>::empty());
    while i < chars.len()
        invariant
            start <= i <= chars.len(),
            body == unsigned_body(text@),
            body == chars@.subrange(start as int, chars@.len() as int),
            all_digits(body.subrange(0, i - start)),
            value == digits_value(body.subrange(0, i - start)),
            value <= max,
        decreases chars.len() - i,
    {
        let c = chars[i];
        let ghost head = body.subrange(0, i - start + 1);
        proof {
            assert(body[i - start] == c);
            assert(head.drop_last() == body.subrange(0, i - start));
            assert(head.last() == c);
        }
        if c < '0' || c > '9' {
            assert(!is_digit(body[i - start]));
            return None;
        }
        let d: u64 = (c as u32 - '0' as u32) as u64;
        value = value * 10 + d;
        assert(value == digits_value(head));
        assert forall|j: int| 0 <= j < head.len() implies is_digit(#[trigger] head[j]) by {
            if j < head.len() - 1 {
                assert(body.subrange(0, i - start)[j] == head[j]);
            }
        }
        if value > max as u64 {
            proof {
                lemma_digits_value_grows(body, i - start + 1);
            }
            return None;
        }
        i += 1;
    }
    assert(body.subrange(0, body.len() as int) == body);
    Some(value as u32)
}

} // verus!

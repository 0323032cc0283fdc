//! Decimal notation of signed 32-bit integers: reading a token and writing
//! a number.

use vstd::prelude::*;
use vstd::string::StringExecFns;
use vstd::utf8::is_ascii_chars;
use crate::text::{is_line, is_space};

verus! {

/// Whether `c` is one of the ten decimal digits.
pub open spec fn is_digit(c: char) -> bool {
    '0' <= c <= '9'
}

/// The number that the digit `c` stands for.
pub open spec fn digit_value(c: char) -> int {
    c as int - '0' as int
}

/// The digit that stands for `d`, a number below ten.
pub open spec fn digit_char(d: int) -> char {
    (d + '0' as int) as u8 as char
}

/// Whether `s` holds decimal digits only.
pub open spec fn all_digits(s: Seq<char>) -> bool {
    forall|i: int| 0 <= i < s.len() ==> is_digit(#[trigger] s[i])
}

/// The number that the digits `s` denote; leading zeros count for nothing.
pub open spec fn digits_value(s: Seq<char>) -> int
    decreases s.len(),
{
    if s.len() == 0 {
        0
    } else {
        digits_value(s.drop_last()) * 10 + digit_value(s.last())
    }
}

/// Whether `token` starts with a sign.
pub open spec fn has_sign(token: Seq<char>) -> bool {
    token.len() > 0 && (token[0] == '+' || token[0] == '-')
}

/// The part of `token` behind its sign, if it has one.
pub open spec fn unsigned_part(token: Seq<char>) -> Seq<char> {
    if has_sign(token) {
        token.drop_first()
    } else {
        token
    }
}

/// Whether `token` is a decimal integer: an optional sign, `+` or `-`, and
/// then one digit or more, with nothing else before, between or after.
pub open spec fn is_integer(token: Seq<char>) -> bool {
    unsigned_part(token).len() > 0 && all_digits(unsigned_part(token))
}

/// The number that the decimal integer `token` denotes.
pub open spec fn integer_value(token: Seq<char>) -> int {
    if token.len() > 0 && token[0] == '-' {
        -digits_value(unsigned_part(token))
    } else {
        digits_value(unsigned_part(token))
    }
}

/// What `token` parses to: its value where it is a decimal integer that a
/// signed 32-bit integer can hold, and nothing otherwise.
pub open spec fn parse_token(token: Seq<char>) -> Option<i32> {
    if is_integer(token) && i32::MIN <= integer_value(token) <= i32::MAX {
        Some(integer_value(token) as i32)
    } else {
        None
    }
}

/// The digits of `n`, without leading zeros.
pub open spec fn digits_of(n: nat) -> Seq<char>
    decreases n,
{
    if n < 10 {
        seq![digit_char(n as int)]
    } else {
        digits_of(n / 10).push(digit_char((n % 10) as int))
    }
}

/// The decimal notation of `n`: its digits, behind a `-` where it is
/// negative.
pub open spec fn decimal(n: int) -> Seq<char> {
    if n < 0 {
        seq!['-'] + digits_of((-n) as nat)
    } else {
        digits_of(n as nat)
    }
}

/// The digits of a number are digits, at least one of them, and denote that
/// number. Only zero starts with the digit zero.
pub proof fn lemma_digits_of(n: nat)
    ensures
        digits_of(n).len() > 0,
        all_digits(digits_of(n)),
        digits_value(digits_of(n)) == n,
        n > 0 ==> digits_of(n)[0] != '0',
    decreases n,
{
    if n < 10 {
        let s = digits_of(n);
        assert(s[0] == digit_char(n as int));
        assert(s.drop_last() =~= Seq::<char>::empty());
        assert(digits_value(s.drop_last()) == 0);
        assert(is_digit(digit_char(n as int)));
        assert(digit_value(digit_char(n as int)) == n);
    } else {
        let front = digits_of(n / 10);
        let s = digits_of(n);
        lemma_digits_of(n / 10);
        assert(s.drop_last() =~= front);
        assert(s[0] == front[0]);
        assert(is_digit(digit_char((n % 10) as int)));
        assert(digit_value(digit_char((n % 10) as int)) == n % 10);
        assert forall|i: int| 0 <= i < s.len() implies is_digit(#[trigger] s[i]) by {
            if i < front.len() {
                assert(s[i] == front[i]);
            }
        }
    }
}

/// The decimal notation of a signed 32-bit integer parses to that integer.
pub proof fn lemma_parse_decimal(n: i32)
    ensures
        is_integer(decimal(n as int)),
        parse_token(decimal(n as int)) == Some(n),
{
    let token = decimal(n as int);
    if n < 0 {
        let digits = digits_of((-n) as nat);
        lemma_digits_of((-n) as nat);
        assert(token[0] == '-');
        assert(unsigned_part(token) =~= digits);
    } else {
        lemma_digits_of(n as nat);
        assert(is_digit(token[0]));
        assert(!has_sign(token));
    }
}

/// A decimal integer holds neither white space nor a line feed.
pub proof fn lemma_integer_is_solid(token: Seq<char>)
    requires
        is_integer(token),
    ensures
        token.len() > 0,
        !is_space(token[0]),
        !is_space(token.last()),
        is_line(token),
{
    let digits = unsigned_part(token);
    assert(is_digit(digits[digits.len() - 1]));
    assert(token.last() == digits.last());
    if !has_sign(token) {
        assert(is_digit(digits[0]));
    }
    assert forall|i: int| 0 <= i < token.len() implies token[i] != '\n' by {
        if has_sign(token) {
            if i > 0 {
                assert(is_digit(digits[i - 1]));
            }
        } else {
            assert(is_digit(digits[i]));
        }
    }
}

/// A decimal integer is made of ASCII characters.
pub proof fn lemma_integer_is_ascii(token: Seq<char>)
    requires
        is_integer(token),
    ensures
        is_ascii_chars(token),
{
    let digits = unsigned_part(token);
    assert forall|i: int| 0 <= i < token.len() implies '\0' <= #[trigger] token[i] <= '\u{7f}' by {
        if has_sign(token) {
            if i > 0 {
                assert(is_digit(digits[i - 1]));
            }
        } else {
            assert(is_digit(digits[i]));
        }
    }
}

/// The integer that `chars[start..end]` parses to, if any.
pub fn parse_span(chars: &[char], start: usize, end: usize) -> (parsed: Option<i32>)
    requires
        start <= end <= chars@.len(),
    ensures
        parsed == parse_token(chars@.subrange(start as int, end as int)),
{
    let ghost token = chars@.subrange(start as int, end as int);
    if start == end {
        return None;
    }
    let first = chars[start];
    assert(token[0] == first);
    let negative = first == '-';
    let from: usize = if first == '-' || first == '+' {
        start + 1
    } else {
        start
    };
    let ghost digits = chars@.subrange(from as int, end as int);
    assert(digits =~= unsigned_part(token));
    if from == end {
        return None;
    }
    let limit: i64 = 0x8000_0000;
    let mut value: i64 = 0;
    let mut beyond = false;
    let mut i: usize = from;
    while i < end
        invariant
            from <= i <= end <= chars@.len(),
            start <= from,
            token == chars@.subrange(start as int, end as int),
            digits == chars@.subrange(from as int, end as int),
            digits == unsigned_part(token),
            limit == 0x8000_0000,
            all_digits(chars@.subrange(from as int, i as int)),
            !beyond ==> value == digits_value(chars@.subrange(from as int, i as int)),
            !beyond ==> 0 <= value <= limit,
            beyond ==> digits_value(chars@.subrange(from as int, i as int)) > limit,
        decreases end - i,
    {
        let c = chars[i];
        let ghost before = chars@.subrange(from as int, i as int);
        let ghost after = chars@.subrange(from as int, i as int + 1);
        assert(after.drop_last() =~= before);
        assert(after.last() == c);
        if !(c >= '0' && c <= '9') {
            assert(digits[i - from] == c);
            return None;
        }
        assert forall|k: int| 0 <= k < after.len() implies is_digit(#[trigger] after[k]) by {
            if k < before.len() {
                assert(after[k] == before[k]);
            }
        }
        let d: i64 = (c as u32 - '0' as u32) as i64;
        if !beyond {
            value = value * 10 + d;
            if value > limit {
                beyond = true;
            }
        }
        i = i + 1;
    }
    assert(chars@.subrange(from as int, i as int) =~= digits);
    if beyond {
        None
    } else if negative {
        Some((-value) as i32)
    } else if value < limit {
        Some(value as i32)
    } else {
        None
    }
}

/// The one-character text of the digit for `d`.
fn digit_text(d: u8) -> (text: &'static str)
    requires
        d < 10,
    ensures
        text@ == seq![digit_char(d as int)],
{
    proof {
        reveal_strlit("0");
        reveal_strlit("1");
        reveal_strlit("2");
        reveal_strlit("3");
        reveal_strlit("4");
        reveal_strlit("5");
        reveal_strlit("6");
        reveal_strlit("7");
        reveal_strlit("8");
        reveal_strlit("9");
    }
    let text = match d {
        0 => "0",
        1 => "1",
        2 => "2",
        3 => "3",
        4 => "4",
        5 => "5",
        6 => "6",
        7 => "7",
        8 => "8",
        _ => "9",
    };
    assert(text@ =~= seq![digit_char(d as int)]);
    text
}

/// Appends the digits of `n` to `out`.
pub fn push_digits(out: &mut String, n: u32)
    ensures
        final(out)@ == old(out)@ + digits_of(n as nat),
    decreases n,
{
    if n >= 10 {
        push_digits(out, n / 10);
    }
    out.append(digit_text((n % 10) as u8));
    assert(final(out)@ =~= old(out)@ + digits_of(n as nat));
}

/// Appends the decimal notation of `n` to `out`.
pub fn push_decimal(out: &mut String, n: i32)
    ensures
        final(out)@ == old(out)@ + decimal(n as int),
{
    if n < 0 {
        proof {
            reveal_strlit("-");
        }
        out.append("-");
        push_digits(out, (-(n as i64)) as u32);
        assert(final(out)@ =~= old(out)@ + decimal(n as int));
    } else {
        push_digits(out, n as u32);
    }
}

} // verus!

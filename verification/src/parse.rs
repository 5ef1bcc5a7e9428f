//! Reading one line of text as a signed 32-bit decimal integer.

use vstd::prelude::*;
use vstd::std_specs::iter::IteratorSpec;

verus! {

/// Why a line is not an integer.
#[derive(Clone, Copy, Debug, PartialEq, Eq, Structural)]
pub enum ParseFailure {
    /// The line holds no text.
    Empty,
    /// The line is not an optional sign followed by one or more decimal digits.
    InvalidDigit,
    /// The line is a decimal number that does not fit in 32 bits.
    OutOfRange,
}

/// What one line gives: its integer, or the reason it has none.
pub type ParseOutcome = Result<i32, ParseFailure>;

pub open spec fn is_digit(c: char) -> bool {
    '0' <= c && c <= '9'
}

pub open spec fn digit_value(c: char) -> int {
    c as int - '0' as int
}

pub open spec fn all_digits(s: Seq<char>) -> bool {
    forall|i: int| 0 <= i < s.len() ==> is_digit(#[trigger] s[i])
}

/// The number that a run of decimal digits denotes, most significant first.
pub open spec fn digits_value(s: Seq<char>) -> int
    decreases s.len(),
{
    if s.len() == 0 {
        0
    } else {
        10 * digits_value(s.drop_last()) + digit_value(s.last())
    }
}

/// The line without one trailing line feed and the carriage return before it, if any.
pub open spec fn trimmed(s: Seq<char>) -> Seq<char> {
    if s.len() > 0 && s.last() == '\n' {
        let t = s.drop_last();
        if t.len() > 0 && t.last() == '\r' {
            t.drop_last()
        } else {
            t
        }
    } else {
        s
    }
}

pub open spec fn has_sign(s: Seq<char>) -> bool {
    s.len() > 0 && (s[0] == '+' || s[0] == '-')
}

/// The text after the optional sign.
pub open spec fn magnitude_digits(s: Seq<char>) -> Seq<char> {
    if has_sign(s) {
        s.skip(1)
    } else {
        s
    }
}

pub open spec fn signed_value(s: Seq<char>) -> int {
    if s.len() > 0 && s[0] == '-' {
        -digits_value(magnitude_digits(s))
    } else {
        digits_value(magnitude_digits(s))
    }
}

/// The outcome for text that carries no line terminator.
pub open spec fn integer_of(s: Seq<char>) -> ParseOutcome {
    if s.len() == 0 {
        Err(ParseFailure::Empty)
    } else if magnitude_digits(s).len() == 0 || !all_digits(magnitude_digits(s)) {
        Err(ParseFailure::InvalidDigit)
    } else if signed_value(s) < i32::MIN || signed_value(s) > i32::MAX {
        Err(ParseFailure::OutOfRange)
    } else {
        Ok(signed_value(s) as i32)
    }
}

/// The outcome for a line: its terminator is dropped, the rest is read as an integer.
pub open spec fn outcome_of(line: Seq<char>) -> ParseOutcome {
    integer_of(trimmed(line))
}

/// The characters of `text`, in order.
fn chars_of(text: &str) -> (v: Vec<char>)
    ensures
        v@ == text@,
{
    let mut v: Vec<char> = Vec::new();
    let mut it = text.chars();
    loop
        invariant
            it.obeys_prophetic_iter_laws(),
            it.decrease() is Some,
            v@ + it.remaining() == text@,
        ensures
            v@ == text@,
        decreases it.decrease()->0,
    {
        let ghost rest = it.remaining();
        let ghost taken = v@;
        match it.next() {
            Some(c) => {
                v.push(c);
                assert(v@ + it.remaining() =~= taken + rest);
            },
            None => {
                assert(v@ + it.remaining() =~= v@);
                break ;
            },
        }
    }
    v
}

/// Reads the digits `chars[..end]` as a signed decimal integer.
fn parse_integer(chars: &Vec<char>, end: usize) -> (r: ParseOutcome)
    requires
        end <= chars.len(),
    ensures
        r == integer_of(chars@.take(end as int)),
{
    let ghost s = chars@.take(end as int);
    if end == 0 {
        return Err(ParseFailure::Empty);
    }
    let negative = chars[0] == '-';
    let start: usize = if chars[0] == '-' || chars[0] == '+' {
        1
    } else {
        0
    };
    if start == end {
        return Err(ParseFailure::InvalidDigit);
    }
    let ghost body = magnitude_digits(s);
    assert(body =~= chars@.subrange(start as int, end as int));
    let limit: i64 = 2147483648;
    let mut acc: i64 = 0;
    let mut too_large = false;
    let mut i: usize = start;
    while i < end
        invariant
            start <= i <= end <= chars.len(),
            s == chars@.take(end as int),
            body == magnitude_digits(s),
            body =~= chars@.subrange(start as int, end as int),
            limit == 2147483648,
            all_digits(body.take(i - start)),
            !too_large ==> acc == digits_value(body.take(i - start)) && 0 <= acc <= limit,
            too_large ==> digits_value(body.take(i - start)) > limit,
        decreases end - i,
    {
        let c = chars[i];
        assert(c == body[i - start]);
        if !(c >= '0' && c <= '9') {
            assert(!is_digit(body[i - start]));
            return Err(ParseFailure::InvalidDigit);
        }
        let d: i64 = (c as u32 - '0' as u32) as i64;
        proof {
            let next = body.take(i + 1 - start);
            assert(next.drop_last() =~= body.take(i - start));
            assert(next.last() == c);
            assert(digits_value(next) == 10 * digits_value(body.take(i - start)) + d);
        }
        if !too_large {
            acc = acc * 10 + d;
            if acc > limit {
                too_large = true;
            }
        }
        i += 1;
    }
    assert(body.take(end - start) =~= body);
    if too_large {
        return Err(ParseFailure::OutOfRange);
    }
    let value: i64 = if negative {
        -acc
    } else {
        acc
    };
    if value < -2147483648 || value > 2147483647 {
        Err(ParseFailure::OutOfRange)
    } else {
        Ok(value as i32)
    }
}

/// Reads one line as an integer.
///
/// A trailing line feed, with the carriage return before it if there is one,
/// is not part of the number. What is left must be an optional `+` or `-`
/// and then one or more of the digits `0` to `9`, with a value that fits in
/// an `i32`.
pub fn parse_line(text: &str) -> (r: ParseOutcome)
    ensures
        r == outcome_of(text@),
{
    let chars = chars_of(text);
    let mut end: usize = chars.len();
    if end > 0 && chars[end - 1] == '\n' {
        end -= 1;
        if end > 0 && chars[end - 1] == '\r' {
            end -= 1;
        }
    }
    assert(chars@.take(end as int) =~= trimmed(text@));
    parse_integer(&chars, end)
}

} // verus!

//! Parsing a line of user text as a signed 32-bit integer, with a typed
//! error instead of a crash on bad input: an optional leading '+' or '-',
//! then one or more decimal digits, whose value must fit in an `i32`.

use vstd::prelude::*;

verus! {

/// Why a line failed to parse as an `i32`: no digits at all, a character
/// that is not a decimal digit, or a value outside the `i32` range.
#[derive(Clone, Copy, Debug, PartialEq, Eq, Structural)]
pub enum ParseError {
    Empty,
    InvalidDigit,
    OutOfRange,
}

/// A decimal digit '0' to '9'.
pub open spec fn is_digit_char(c: char) -> bool {
    '0' as u32 <= c as u32 <= '9' as u32
}

/// The value of a decimal digit.
pub open spec fn digit_value(c: char) -> int {
    c as u32 - '0' as u32
}

/// Every character is a decimal digit.
pub open spec fn all_digits(s: Seq<char>) -> bool {
    forall|i: int| 0 <= i < s.len() ==> is_digit_char(s[i])
}

/// The value of a digit string read left to right in base 10.
pub open spec fn digits_value(s: Seq<char>) -> int
    decreases s.len(),
{
    if s.len() == 0 {
        0
    } else {
        digits_value(s.drop_last()) * 10 + digit_value(s.last())
    }
}

/// The literal with a leading '+' or '-' stripped: the digit part.
pub open spec fn int_body(s: Seq<char>) -> Seq<char> {
    if s.len() > 0 && (s[0] == '-' || s[0] == '+') {
        s.subrange(1, s.len() as int)
    } else {
        s
    }
}

/// Whether the literal carries a leading '-'.
pub open spec fn is_negative_literal(s: Seq<char>) -> bool {
    s.len() > 0 && s[0] == '-'
}

/// The mathematical value a well-formed literal denotes.
pub open spec fn parsed_value(s: Seq<char>) -> int {
    if is_negative_literal(s) {
        -digits_value(int_body(s))
    } else {
        digits_value(int_body(s))
    }
}

/// What parsing a literal as an `i32` yields: the denoted value when the
/// digit part is non-empty, all digits, and the value fits in an `i32`;
/// otherwise the one error that applies.
pub open spec fn spec_parse_i32(s: Seq<char>) -> Result<int, ParseError> {
    if int_body(s).len() == 0 {
        Err(ParseError::Empty)
    } else if !all_digits(int_body(s)) {
        Err(ParseError::InvalidDigit)
    } else if parsed_value(s) < i32::MIN as int || parsed_value(s) > i32::MAX as int {
        Err(ParseError::OutOfRange)
    } else {
        Ok(parsed_value(s))
    }
}

/// A digit string has a non-negative value.
proof fn lemma_digits_value_nonneg(s: Seq<char>)
    requires
        all_digits(s),
    ensures
        digits_value(s) >= 0,
    decreases s.len(),
{
    if s.len() > 0 {
        assert(all_digits(s.drop_last()));
        lemma_digits_value_nonneg(s.drop_last());
        assert(is_digit_char(s.last()));
    }
}

/// Extending a digit string with further digits never lowers its value.
proof fn lemma_digits_value_prefix(s: Seq<char>, m: int)
    requires
        all_digits(s),
        0 <= m <= s.len(),
    ensures
        digits_value(s) >= digits_value(s.subrange(0, m)),
    decreases s.len(),
{
    if m == s.len() {
        assert(s.subrange(0, m) =~= s);
    } else {
        assert(all_digits(s.drop_last()));
        assert(s.subrange(0, m) =~= s.drop_last().subrange(0, m));
        lemma_digits_value_prefix(s.drop_last(), m);
        lemma_digits_value_nonneg(s.drop_last());
        assert(is_digit_char(s.last()));
    }
}

/// Parses a line as an `i32`. Accepts an optional leading '+' or '-'
/// followed by one or more decimal digits; reports `Empty` when the digit
/// part is missing, `InvalidDigit` when a non-digit occurs in it, and
/// `OutOfRange` when the value does not fit in an `i32`.
pub fn parse_i32(s: &str) -> (r: Result<i32, ParseError>)
    ensures
        match r {
            Ok(v) => spec_parse_i32(s@) == Ok::<int, ParseError>(v as int),
            Err(e) => spec_parse_i32(s@) == Err::<int, ParseError>(e),
        },
{
    let n = s.unicode_len();
    let mut start: usize = 0;
    let mut negative: bool = false;
    if n > 0 {
        let c0 = s.get_char(0);
        if c0 == '-' {
            negative = true;
            start = 1;
        } else if c0 == '+' {
            start = 1;
        }
    }
    let ghost body = int_body(s@);
    proof {
        assert(body =~= s@.subrange(start as int, n as int));
        assert(negative == is_negative_literal(s@));
    }
    if start == n {
        return Err(ParseError::Empty);
    }
    let mut i: usize = start;
    while i < n
        invariant
            start <= i <= n,
            n == s@.len(),
            body == int_body(s@),
            body == s@.subrange(start as int, n as int),
            forall|j: int| 0 <= j < i - start ==> is_digit_char(body[j]),
        decreases n - i,
    {
        let u = s.get_char(i) as u32;
        if u < 48 || u > 57 {
            proof {
                assert(body[i - start as int] == s@[i as int]);
                assert(!is_digit_char(body[i - start as int]));
            }
            return Err(ParseError::InvalidDigit);
        }
        proof {
            assert(body[i - start as int] == s@[i as int]);
        }
        i += 1;
    }
    assert(all_digits(body));
    let mut value: u64 = 0;
    let mut i: usize = start;
    while i < n
        invariant
            start <= i <= n,
            n == s@.len(),
            body == int_body(s@),
            body == s@.subrange(start as int, n as int),
            all_digits(body),
            negative == is_negative_literal(s@),
            value as int == digits_value(body.subrange(0, i - start as int)),
            value <= 2147483648,
        decreases n - i,
    {
        let u = s.get_char(i) as u32;
        proof {
            assert(body[i - start as int] == s@[i as int]);
            assert(is_digit_char(body[i - start as int]));
        }
        value = value * 10 + ((u - 48) as u64);
        proof {
            let ghost p = body.subrange(0, i + 1 - start as int);
            assert(p.drop_last() =~= body.subrange(0, i - start as int));
            assert(p.last() == body[i - start as int]);
            assert(value as int == digits_value(p));
        }
        if value > 2147483648 {
            proof {
                lemma_digits_value_prefix(body, i + 1 - start as int);
                assert(digits_value(body) > 2147483648);
            }
            return Err(ParseError::OutOfRange);
        }
        i += 1;
    }
    proof {
        assert(body.subrange(0, n - start as int) =~= body);
        assert(value as int == digits_value(body));
    }
    if negative {
        if value == 2147483648 {
            Ok(i32::MIN)
        } else {
            Ok(-(value as i32))
        }
    } else {
        if value > 2147483647 {
            Err(ParseError::OutOfRange)
        } else {
            Ok(value as i32)
        }
    }
}

} // verus!

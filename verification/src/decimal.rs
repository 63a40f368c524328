//! Decimal numbers as FEN and UCI write them: reading and writing `u32` and `u64`.
use vstd::prelude::*;
use crate::coord::push_char;

verus! {

/// Why a text is not a decimal number of the requested size.
#[derive(Debug, Clone, Copy, PartialEq, Eq, Hash, Structural)]
pub enum ParseIntError {
    Empty,
    InvalidDigit,
    PosOverflow,
    Zero,
}

/// Whether a character is an ASCII decimal digit.
pub open spec fn is_digit(c: char) -> bool {
    '0' <= c <= '9'
}

/// The value of a decimal digit.
pub open spec fn digit_value(c: char) -> int {
    c as int - '0' as int
}

/// Reading digits from index `i` on, with the value `acc` of those before,
/// up to `max`: stops at the first character that is not a digit, or at the
/// first digit that takes the value past `max`.
pub open spec fn parse_digits(t: Seq<char>, i: int, acc: int, max: int) -> Result<int, ParseIntError>
    decreases t.len() - i,
{
    if i < 0 || i >= t.len() {
        Ok(acc)
    } else if !is_digit(t[i]) {
        Err(ParseIntError::InvalidDigit)
    } else if acc * 10 + digit_value(t[i]) > max {
        Err(ParseIntError::PosOverflow)
    } else {
        parse_digits(t, i + 1, acc * 10 + digit_value(t[i]), max)
    }
}

/// What reading an unsigned number up to `max` gives: an optional `+`, then
/// at least one digit.
pub open spec fn parse_unsigned(s: Seq<char>, max: int) -> Result<int, ParseIntError> {
    if s.len() == 0 {
        Err(ParseIntError::Empty)
    } else if s[0] == '+' && s.len() == 1 {
        Err(ParseIntError::InvalidDigit)
    } else if s[0] == '+' {
        parse_digits(s, 1, 0, max)
    } else {
        parse_digits(s, 0, 0, max)
    }
}

/// The decimal text of a number, without leading zeros.
pub open spec fn decimal_text(n: nat) -> Seq<char>
    decreases n,
{
    if n < 10 {
        seq![(n + 48) as char]
    } else {
        decimal_text(n / 10).push(((n % 10) + 48) as char)
    }
}

/// Reads digits from index `i` on, as `parse_digits` says.
fn read_digits(s: &Vec<char>, i: usize, max: u64) -> (r: Result<u64, ParseIntError>)
    requires
        i <= s@.len(),
    ensures
        match parse_digits(s@, i as int, 0, max as int) {
            Ok(v) => r == Ok::<u64, ParseIntError>(v as u64),
            Err(e) => r == Err::<u64, ParseIntError>(e),
        },
        r matches Ok(v) ==> v <= max,
        parse_digits(s@, i as int, 0, max as int) matches Ok(v) ==> 0 <= v <= max,
{
    proof {
        lemma_parse_digits_bound(s@, i as int, 0, max as int);
    }
    let mut acc: u64 = 0;
    let mut j = i;
    while j < s.len()
        invariant
            i <= j <= s@.len(),
            acc <= max,
            parse_digits(s@, i as int, 0, max as int) == parse_digits(s@, j as int, acc as int, max as int),
        decreases s@.len() - j,
    {
        let c = s[j];
        if !('0' <= c && c <= '9') {
            return Err(ParseIntError::InvalidDigit);
        }
        let d = (c as u32 - '0' as u32) as u64;
        if d > max || acc > (max - d) / 10 {
            proof {
                if d <= max {
                    assert(acc * 10 + d > max) by (nonlinear_arith)
                        requires
                            acc > (max - d) / 10,
                            d <= max,
                    ;
                }
            }
            return Err(ParseIntError::PosOverflow);
        }
        proof {
            assert(acc * 10 + d <= max) by (nonlinear_arith)
                requires
                    acc <= (max - d) / 10,
                    d <= max,
            ;
        }
        acc = acc * 10 + d;
        j = j + 1;
    }
    Ok(acc)
}

/// Reads an unsigned number up to `max`, as `parse_unsigned` says.
fn read_unsigned(s: &Vec<char>, max: u64) -> (r: Result<u64, ParseIntError>)
    ensures
        match parse_unsigned(s@, max as int) {
            Ok(v) => r == Ok::<u64, ParseIntError>(v as u64),
            Err(e) => r == Err::<u64, ParseIntError>(e),
        },
        r matches Ok(v) ==> v <= max,
        parse_unsigned(s@, max as int) matches Ok(v) ==> 0 <= v <= max,
{
    if s.len() == 0 {
        return Err(ParseIntError::Empty);
    }
    if s[0] == '+' {
        if s.len() == 1 {
            return Err(ParseIntError::InvalidDigit);
        }
        read_digits(s, 1, max)
    } else {
        read_digits(s, 0, max)
    }
}

/// Reads a `u32` written in decimal, with an optional `+`.
pub fn parse_u32(s: &Vec<char>) -> (r: Result<u32, ParseIntError>)
    ensures
        match parse_unsigned(s@, u32::MAX as int) {
            Ok(v) => r == Ok::<u32, ParseIntError>(v as u32),
            Err(e) => r == Err::<u32, ParseIntError>(e),
        },
        parse_unsigned(s@, u32::MAX as int) matches Ok(v) ==> 0 <= v <= u32::MAX,
{
    match read_unsigned(s, u32::MAX as u64) {
        Ok(v) => Ok(v as u32),
        Err(e) => Err(e),
    }
}

/// Reads a `u64` written in decimal, with an optional `+`.
pub fn parse_u64(s: &Vec<char>) -> (r: Result<u64, ParseIntError>)
    ensures
        match parse_unsigned(s@, u64::MAX as int) {
            Ok(v) => r == Ok::<u64, ParseIntError>(v as u64),
            Err(e) => r == Err::<u64, ParseIntError>(e),
        },
        parse_unsigned(s@, u64::MAX as int) matches Ok(v) ==> 0 <= v <= u64::MAX,
{
    read_unsigned(s, u64::MAX)
}

/// Reads a `usize` written in decimal, with an optional `+`.
pub fn parse_usize(s: &Vec<char>) -> (r: Result<usize, ParseIntError>)
    ensures
        match parse_unsigned(s@, usize::MAX as int) {
            Ok(v) => r == Ok::<usize, ParseIntError>(v as usize),
            Err(e) => r == Err::<usize, ParseIntError>(e),
        },
        parse_unsigned(s@, usize::MAX as int) matches Ok(v) ==> 0 <= v <= usize::MAX,
{
    match read_unsigned(s, usize::MAX as u64) {
        Ok(v) => Ok(v as usize),
        Err(e) => Err(e),
    }
}

/// What reading a number that may not be zero gives: as `parse_unsigned`,
/// with zero refused.
pub open spec fn parse_nonzero(s: Seq<char>, max: int) -> Result<int, ParseIntError> {
    match parse_unsigned(s, max) {
        Ok(v) => if v == 0 {
            Err(ParseIntError::Zero)
        } else {
            Ok(v)
        },
        Err(e) => Err(e),
    }
}

/// Reads a positive `usize` written in decimal, with an optional `+`.
pub fn parse_nonzero_usize(s: &Vec<char>) -> (r: Result<usize, ParseIntError>)
    ensures
        match parse_nonzero(s@, usize::MAX as int) {
            Ok(v) => r == Ok::<usize, ParseIntError>(v as usize),
            Err(e) => r == Err::<usize, ParseIntError>(e),
        },
        r matches Ok(v) ==> v > 0,
{
    match parse_usize(s) {
        Ok(0) => Err(ParseIntError::Zero),
        Ok(v) => Ok(v),
        Err(e) => Err(e),
    }
}

/// Appends the decimal text of `n`.
pub fn push_decimal(s: &mut String, n: u64)
    ensures
        final(s)@ == old(s)@ + decimal_text(n as nat),
    decreases n,
{
    if n >= 10 {
        push_decimal(s, n / 10);
    }
    let d = (n % 10) as u8;
    push_char(s, (d + 48u8) as char);
    proof {
        if n >= 10 {
            assert(old(s)@ + decimal_text(n as nat) =~= old(s)@ + decimal_text((n / 10) as nat) + seq![((n % 10) + 48) as char]);
        }
    }
}

proof fn lemma_parse_digits_bound(t: Seq<char>, i: int, acc: int, max: int)
    requires
        0 <= acc <= max,
    ensures
        parse_digits(t, i, acc, max) matches Ok(v) ==> 0 <= v <= max,
    decreases t.len() - i,
{
    if 0 <= i < t.len() && is_digit(t[i]) && acc * 10 + digit_value(t[i]) <= max {
        lemma_parse_digits_bound(t, i + 1, acc * 10 + digit_value(t[i]), max);
    }
}

/// Reading digits of a longer text carries on from the value read so far.
proof fn lemma_parse_digits_push(t: Seq<char>, d: char, i: int, acc: int, max: int)
    requires
        0 <= i <= t.len(),
        0 <= acc,
        is_digit(d),
        parse_digits(t, i, acc, max) is Ok,
        parse_digits(t, i, acc, max)->Ok_0 * 10 + digit_value(d) <= max,
    ensures
        parse_digits(t.push(d), i, acc, max) == Ok::<int, ParseIntError>(
            parse_digits(t, i, acc, max)->Ok_0 * 10 + digit_value(d),
        ),
    decreases t.len() - i,
{
    let t2 = t.push(d);
    if i < t.len() {
        assert(t2[i] == t[i]);
        assert(is_digit(t[i]));
        let acc2 = acc * 10 + digit_value(t[i]);
        lemma_parse_digits_push(t, d, i + 1, acc2, max);
    } else {
        assert(t2[i] == d);
        assert(parse_digits(t2, i + 1, acc * 10 + digit_value(d), max) == Ok::<int, ParseIntError>(
            acc * 10 + digit_value(d),
        ));
    }
}

/// The decimal text of a number starts with a digit other than `+`.
pub(crate) proof fn lemma_decimal_digits(n: nat)
    ensures
        decimal_text(n).len() > 0,
        forall|i: int| 0 <= i < decimal_text(n).len() ==> is_digit(#[trigger] decimal_text(n)[i]),
    decreases n,
{
    if n >= 10 {
        lemma_decimal_digits(n / 10);
        let t = decimal_text(n / 10);
        assert forall|i: int| 0 <= i < decimal_text(n).len() implies is_digit(#[trigger] decimal_text(n)[i]) by {
            if i < t.len() {
                assert(decimal_text(n)[i] == t[i]);
            }
        }
    }
}

/// Reading the decimal text of a number gives back the number.
pub proof fn lemma_decimal_round_trip(n: nat, max: int)
    requires
        n <= max,
    ensures
        parse_unsigned(decimal_text(n), max) == Ok::<int, ParseIntError>(n as int),
    decreases n,
{
    lemma_decimal_digits(n);
    if n < 10 {
        let t = decimal_text(n);
        assert(t[0] != '+');
        assert(parse_digits(t, 1, n as int, max) == Ok::<int, ParseIntError>(n as int));
    } else {
        lemma_decimal_round_trip(n / 10, max);
        lemma_decimal_digits(n / 10);
        let t = decimal_text(n / 10);
        assert(t[0] != '+');
        let d = ((n % 10) + 48) as char;
        assert(digit_value(d) == n % 10);
        assert((n / 10) * 10 + n % 10 == n);
        lemma_parse_digits_push(t, d, 0, 0, max);
        assert(decimal_text(n)[0] == t[0]);
    }
}


/// The decimal text of a signed number: a minus sign for negatives.
pub open spec fn signed_text(n: int) -> Seq<char> {
    if n < 0 {
        seq!['-'] + decimal_text((-n) as nat)
    } else {
        decimal_text(n as nat)
    }
}

/// Appends the decimal text of a signed number.
pub fn push_signed(s: &mut String, n: i64)
    ensures
        final(s)@ == old(s)@ + signed_text(n as int),
{
    if n < 0 {
        push_char(s, '-');
        let m: u64 = if n == i64::MIN {
            9223372036854775808u64
        } else {
            (-n) as u64
        };
        push_decimal(s, m);
        proof {
            assert(final(s)@ =~= old(s)@ + signed_text(n as int));
        }
    } else {
        push_decimal(s, n as u64);
    }
}

} // verus!

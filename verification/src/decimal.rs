//! Decimal integers in text: the syntax that std's integer parsing accepts,
//! and which error it reports for text it refuses.

use vstd::prelude::*;

verus! {

/// Why text is not an integer of the wanted type, as std's integer parsing
/// tells it apart.
#[derive(Debug, Clone, Copy, PartialEq, Eq)]
pub enum IntErrorKind {
    /// The text is empty.
    Empty,
    /// A character is not a decimal digit, or a sign stands alone.
    InvalidDigit,
    /// The value is above the type's maximum.
    PosOverflow,
    /// The value is below the type's minimum.
    NegOverflow,
}

pub open spec fn is_digit(c: char) -> bool {
    '0' <= c && c <= '9'
}

pub open spec fn digit_value(c: char) -> int {
    c as int - '0' as int
}

/// The digits `d` read from left to right, each step multiplying by ten
/// and adding (or, for a negative number, subtracting) the next digit. The
/// first character that is not a digit gives `InvalidDigit`; the first
/// partial value outside `lo ..= hi` gives an overflow.
pub open spec fn scan_digits(d: Seq<char>, negative: bool, lo: int, hi: int) -> Result<
    int,
    IntErrorKind,
>
    decreases d.len(),
{
    if d.len() == 0 {
        Ok(0)
    } else {
        match scan_digits(d.drop_last(), negative, lo, hi) {
            Err(e) => Err(e),
            Ok(v) => if !is_digit(d.last()) {
                Err(IntErrorKind::InvalidDigit)
            } else {
                let w = if negative {
                    v * 10 - digit_value(d.last())
                } else {
                    v * 10 + digit_value(d.last())
                };
                if w > hi {
                    Err(IntErrorKind::PosOverflow)
                } else if w < lo {
                    Err(IntErrorKind::NegOverflow)
                } else {
                    Ok(w)
                }
            },
        }
    }
}

/// The integer in `lo ..= hi` that `s` writes, as std parses it: an
/// optional `+` (or, for a signed type, `-`) and at least one digit.
pub open spec fn integer_value(s: Seq<char>, signed: bool, lo: int, hi: int) -> Result<
    int,
    IntErrorKind,
> {
    if s.len() == 0 {
        Err(IntErrorKind::Empty)
    } else if s.len() == 1 && (s[0] == '+' || s[0] == '-') {
        Err(IntErrorKind::InvalidDigit)
    } else if s[0] == '+' {
        scan_digits(s.skip(1), false, lo, hi)
    } else if s[0] == '-' && signed {
        scan_digits(s.skip(1), true, lo, hi)
    } else {
        scan_digits(s, false, lo, hi)
    }
}

/// Bounds that every integer type here fits in.
pub open spec fn bounds_ok(lo: i128, hi: i128) -> bool {
    -0x1_0000_0000_0000_0000 <= lo <= 0 <= hi <= 0x1_0000_0000_0000_0000
}

fn scan(chars: &Vec<char>, start: usize, negative: bool, lo: i128, hi: i128) -> (r: Result<
    i128,
    IntErrorKind,
>)
    requires
        start <= chars@.len(),
        bounds_ok(lo, hi),
    ensures
        match (r, scan_digits(chars@.skip(start as int), negative, lo as int, hi as int)) {
            (Ok(v), Ok(w)) => v == w,
            (Err(e), Err(f)) => e == f,
            _ => false,
        },
{
    let ghost d = chars@.skip(start as int);
    let mut value: i128 = 0;
    let mut i: usize = start;
    assert(d.take(0) =~= Seq::<char>::empty());
    while i < chars.len()
        invariant
            start <= i <= chars@.len(),
            d == chars@.skip(start as int),
            bounds_ok(lo, hi),
            lo <= value <= hi,
            scan_digits(d.take(i - start), negative, lo as int, hi as int) == Ok::<
                int,
                IntErrorKind,
            >(value as int),
        decreases chars@.len() - i,
    {
        let c = chars[i];
        proof {
            assert(d.take(i - start + 1).drop_last() =~= d.take(i - start));
            assert(d.take(i - start + 1).last() == c);
        }
        if !('0' <= c && c <= '9') {
            proof {
                lemma_scan_error_stays(d, i - start + 1, negative, lo as int, hi as int);
            }
            return Err(IntErrorKind::InvalidDigit);
        }
        let digit = (c as u32 - '0' as u32) as i128;
        let next = if negative {
            value * 10 - digit
        } else {
            value * 10 + digit
        };
        if next > hi {
            proof {
                lemma_scan_error_stays(d, i - start + 1, negative, lo as int, hi as int);
            }
            return Err(IntErrorKind::PosOverflow);
        }
        if next < lo {
            proof {
                lemma_scan_error_stays(d, i - start + 1, negative, lo as int, hi as int);
            }
            return Err(IntErrorKind::NegOverflow);
        }
        value = next;
        i = i + 1;
    }
    proof {
        assert(d.take(i - start) =~= d);
    }
    Ok(value)
}

/// Once a prefix of the digits is refused, so are the digits.
proof fn lemma_scan_error_stays(d: Seq<char>, k: int, negative: bool, lo: int, hi: int)
    requires
        0 <= k <= d.len(),
        scan_digits(d.take(k), negative, lo, hi) is Err,
    ensures
        scan_digits(d, negative, lo, hi) == scan_digits(d.take(k), negative, lo, hi),
    decreases d.len() - k,
{
    if k < d.len() {
        assert(d.take(k + 1).drop_last() =~= d.take(k));
        lemma_scan_error_stays(d, k + 1, negative, lo, hi);
    } else {
        assert(d.take(k) =~= d);
    }
}

/// Parses the integer in `lo ..= hi` that `chars` write, as
/// `integer_value` describes; `signed` allows a leading `-`.
pub fn parse_integer(chars: &Vec<char>, signed: bool, lo: i128, hi: i128) -> (r: Result<
    i128,
    IntErrorKind,
>)
    requires
        bounds_ok(lo, hi),
    ensures
        match (r, integer_value(chars@, signed, lo as int, hi as int)) {
            (Ok(v), Ok(w)) => v == w,
            (Err(e), Err(f)) => e == f,
            _ => false,
        },
{
    if chars.len() == 0 {
        return Err(IntErrorKind::Empty);
    }
    if chars.len() == 1 && (chars[0] == '+' || chars[0] == '-') {
        return Err(IntErrorKind::InvalidDigit);
    }
    if chars[0] == '+' {
        scan(chars, 1, false, lo, hi)
    } else if chars[0] == '-' && signed {
        scan(chars, 1, true, lo, hi)
    } else {
        assert(chars@.skip(0) =~= chars@);
        scan(chars, 0, false, lo, hi)
    }
}

} // verus!

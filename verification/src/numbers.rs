//! Decimal integers read from text, as `str::parse` reads them for the
//! primitive integer types.
use vstd::prelude::*;
use crate::text::chars_of;

verus! {

/// Why a decimal integer could not be read (`std::num::IntErrorKind`).
#[derive(Clone, Copy, Debug, PartialEq, Eq, Structural)]
pub enum IntErrorKind {
    Empty,
    InvalidDigit,
    PosOverflow,
    NegOverflow,
}

pub open spec fn is_digit(c: char) -> bool {
    '0' <= c && c <= '9'
}

pub open spec fn digit_value(c: char) -> int {
    c as int - '0' as int
}

/// Reads the digits `ds` onto the value `v` read so far, most significant
/// digit first, going down for a negative number; stops at the first
/// non-digit or at the first step that leaves `[min, max]`.
pub open spec fn accumulate(ds: Seq<char>, v: int, neg: bool, min: int, max: int) -> Result<
    int,
    IntErrorKind,
>
    decreases ds.len(),
{
    if ds.len() == 0 {
        Ok(v)
    } else if !is_digit(ds[0]) {
        Err(IntErrorKind::InvalidDigit)
    } else {
        let w = if neg {
            v * 10 - digit_value(ds[0])
        } else {
            v * 10 + digit_value(ds[0])
        };
        if w > max {
            Err(IntErrorKind::PosOverflow)
        } else if w < min {
            Err(IntErrorKind::NegOverflow)
        } else {
            accumulate(ds.drop_first(), w, neg, min, max)
        }
    }
}

/// The integer in `[min, max]` that `s` spells in decimal: an optional `+`
/// (or, for a signed type, `-`) and then digits only.
pub open spec fn parse_int(s: Seq<char>, min: int, max: int, signed: bool) -> Result<
    int,
    IntErrorKind,
> {
    if s.len() == 0 {
        Err(IntErrorKind::Empty)
    } else if (s[0] == '+' || s[0] == '-') && s.len() == 1 {
        Err(IntErrorKind::InvalidDigit)
    } else if s[0] == '+' {
        accumulate(s.drop_first(), 0, false, min, max)
    } else if s[0] == '-' && signed {
        accumulate(s.drop_first(), 0, true, min, max)
    } else {
        accumulate(s, 0, false, min, max)
    }
}

proof fn lemma_accumulate_range(ds: Seq<char>, v: int, neg: bool, min: int, max: int)
    requires
        min <= v <= max,
    ensures
        accumulate(ds, v, neg, min, max) matches Ok(r) ==> min <= r <= max,
    decreases ds.len(),
{
    if ds.len() > 0 && is_digit(ds[0]) {
        let w = if neg {
            v * 10 - digit_value(ds[0])
        } else {
            v * 10 + digit_value(ds[0])
        };
        if min <= w <= max {
            lemma_accumulate_range(ds.drop_first(), w, neg, min, max);
        }
    }
}

/// Reads a decimal integer in `[min, max]` from `s`.
pub fn parse_decimal(s: &[char], min: i128, max: i128, signed: bool) -> (r: Result<
    i128,
    IntErrorKind,
>)
    requires
        -0x1_0000_0000_0000_0000 <= min <= 0 <= max <= 0x1_0000_0000_0000_0000,
    ensures
        r matches Ok(x) ==> parse_int(s@, min as int, max as int, signed) == Ok::<int, IntErrorKind>(x as int),
        r matches Err(e) ==> parse_int(s@, min as int, max as int, signed) == Err::<int, IntErrorKind>(e),
        r matches Ok(v) ==> min <= v <= max,
{
    let n = s.len();
    if n == 0 {
        return Err(IntErrorKind::Empty);
    }
    if (s[0] == '+' || s[0] == '-') && n == 1 {
        return Err(IntErrorKind::InvalidDigit);
    }
    let (neg, start): (bool, usize) = if s[0] == '+' {
        (false, 1)
    } else if s[0] == '-' && signed {
        (true, 1)
    } else {
        (false, 0)
    };
    let ghost total = parse_int(s@, min as int, max as int, signed);
    proof {
        assert(s@.skip(1) == s@.drop_first());
        assert(s@.skip(0) == s@);
        assert(total == accumulate(s@.skip(start as int), 0, neg, min as int, max as int));
        lemma_accumulate_range(s@.skip(start as int), 0, neg, min as int, max as int);
    }
    let mut v: i128 = 0;
    let mut i: usize = start;
    while i < n
        invariant
            start <= i <= n == s@.len(),
            -0x1_0000_0000_0000_0000 <= min <= 0 <= max <= 0x1_0000_0000_0000_0000,
            min <= v <= max,
            total == parse_int(s@, min as int, max as int, signed),
            total == accumulate(s@.skip(i as int), v as int, neg, min as int, max as int),
            total matches Ok(r) ==> min <= r <= max,
        decreases n - i,
    {
        let c = s[i];
        proof {
            assert(s@.skip(i as int)[0] == c);
            assert(s@.skip(i as int).drop_first() == s@.skip(i + 1));
        }
        if !('0' <= c && c <= '9') {
            return Err(IntErrorKind::InvalidDigit);
        }
        let d = (c as u32 - '0' as u32) as i128;
        assert(d == digit_value(c));
        let w = if neg {
            v * 10 - d
        } else {
            v * 10 + d
        };
        if w > max {
            return Err(IntErrorKind::PosOverflow);
        }
        if w < min {
            return Err(IntErrorKind::NegOverflow);
        }
        v = w;
        i = i + 1;
    }
    proof {
        assert(s@.skip(i as int).len() == 0);
    }
    Ok(v)
}

/// The message `ParseIntError` displays for each kind.
pub open spec fn int_error_text(k: IntErrorKind) -> Seq<char> {
    match k {
        IntErrorKind::Empty => "cannot parse integer from empty string"@,
        IntErrorKind::InvalidDigit => "invalid digit found in string"@,
        IntErrorKind::PosOverflow => "number too large to fit in target type"@,
        IntErrorKind::NegOverflow => "number too small to fit in target type"@,
    }
}

pub fn int_error_message(k: IntErrorKind) -> (r: Vec<char>)
    ensures
        r@ == int_error_text(k),
{
    match k {
        IntErrorKind::Empty => chars_of("cannot parse integer from empty string"),
        IntErrorKind::InvalidDigit => chars_of("invalid digit found in string"),
        IntErrorKind::PosOverflow => chars_of("number too large to fit in target type"),
        IntErrorKind::NegOverflow => chars_of("number too small to fit in target type"),
    }
}

/// Reads an `i32` (`str::parse::<i32>`).
pub fn parse_i32(s: &[char]) -> (r: Result<i32, IntErrorKind>)
    ensures
        r matches Ok(x) ==> parse_int(s@, i32::MIN as int, i32::MAX as int, true) == Ok::<int, IntErrorKind>(x as int),
        r matches Err(e) ==> parse_int(s@, i32::MIN as int, i32::MAX as int, true) == Err::<int, IntErrorKind>(e),
{
    match parse_decimal(s, i32::MIN as i128, i32::MAX as i128, true) {
        Ok(v) => Ok(v as i32),
        Err(e) => Err(e),
    }
}

/// Reads a `u32` (`str::parse::<u32>`).
pub fn parse_u32(s: &[char]) -> (r: Result<u32, IntErrorKind>)
    ensures
        r matches Ok(x) ==> parse_int(s@, 0, u32::MAX as int, false) == Ok::<int, IntErrorKind>(x as int),
        r matches Err(e) ==> parse_int(s@, 0, u32::MAX as int, false) == Err::<int, IntErrorKind>(e),
{
    match parse_decimal(s, 0, u32::MAX as i128, false) {
        Ok(v) => Ok(v as u32),
        Err(e) => Err(e),
    }
}

/// Reads an `i64` (`str::parse::<i64>`).
pub fn parse_i64(s: &[char]) -> (r: Result<i64, IntErrorKind>)
    ensures
        r matches Ok(x) ==> parse_int(s@, i64::MIN as int, i64::MAX as int, true) == Ok::<int, IntErrorKind>(x as int),
        r matches Err(e) ==> parse_int(s@, i64::MIN as int, i64::MAX as int, true) == Err::<int, IntErrorKind>(e),
{
    match parse_decimal(s, i64::MIN as i128, i64::MAX as i128, true) {
        Ok(v) => Ok(v as i64),
        Err(e) => Err(e),
    }
}

/// Reads a `usize` (`str::parse::<usize>`).
pub fn parse_usize(s: &[char]) -> (r: Result<usize, IntErrorKind>)
    ensures
        r matches Ok(x) ==> parse_int(s@, 0, usize::MAX as int, false) == Ok::<int, IntErrorKind>(x as int),
        r matches Err(e) ==> parse_int(s@, 0, usize::MAX as int, false) == Err::<int, IntErrorKind>(e),
{
    match parse_decimal(s, 0, usize::MAX as i128, false) {
        Ok(v) => Ok(v as usize),
        Err(e) => Err(e),
    }
}

} // verus!

//! Units and portion sizes of food (the `kcal` tool).
//!
//! The conversion factors are floating point and live with the program; what
//! is decided on text and units is here.
use vstd::prelude::*;
use crate::text::{chars_eq, chars_of, slice_range, string_of};

verus! {

/// A unit string was not recognized.
#[derive(Debug)]
pub struct BadUnit;

/// A unit of weight.
#[derive(Clone, Copy, Debug, PartialEq, Eq, Structural)]
pub enum Unit {
    Gram,
    Ounce,
    Pound,
}

impl Default for Unit {
    fn default() -> (u: Unit)
        ensures
            u == Unit::Gram,
    {
        Unit::Gram
    }
}

/// The unit a text names: the empty text means grams.
pub open spec fn unit_named(s: Seq<char>) -> Option<Unit> {
    if s == ""@ || s == "g"@ {
        Some(Unit::Gram)
    } else if s == "lb"@ || s == "lbs"@ || s == "#"@ {
        Some(Unit::Pound)
    } else if s == "oz"@ {
        Some(Unit::Ounce)
    } else {
        None
    }
}

/// The symbol a unit is shown with.
pub open spec fn unit_symbol(u: Unit) -> Seq<char> {
    match u {
        Unit::Gram => "g"@,
        Unit::Ounce => "oz"@,
        Unit::Pound => "lb"@,
    }
}

/// The unit a portion is converted to by default.
pub open spec fn dual_of(u: Unit) -> Unit {
    match u {
        Unit::Gram => Unit::Ounce,
        Unit::Ounce | Unit::Pound => Unit::Gram,
    }
}

pub fn text_is(s: &[char], lit: &str) -> (r: bool)
    ensures
        r == (s@ == lit@),
{
    let l = chars_of(lit);
    chars_eq(s, &l)
}

impl Unit {
    /// The unit to convert to by default: grams become ounces, everything
    /// else becomes grams.
    pub fn dual(self) -> (u: Unit)
        ensures
            u == dual_of(self),
    {
        match self {
            Unit::Gram => Unit::Ounce,
            Unit::Ounce | Unit::Pound => Unit::Gram,
        }
    }

    /// Reads a unit: `""` and `g` are grams; `lb`, `lbs` and `#` pounds; `oz`
    /// ounces.
    pub fn parse_unit(s: &str) -> (r: Result<Unit, BadUnit>)
        ensures
            match unit_named(s@) {
                Some(u) => r matches Ok(v) && v == u,
                None => r is Err,
            },
    {
        let c = chars_of(s);
        if text_is(&c, "") || text_is(&c, "g") {
            Ok(Unit::Gram)
        } else if text_is(&c, "lb") || text_is(&c, "lbs") || text_is(&c, "#") {
            Ok(Unit::Pound)
        } else if text_is(&c, "oz") {
            Ok(Unit::Ounce)
        } else {
            Err(BadUnit)
        }
    }

    /// The unit's symbol: `g`, `oz` or `lb`.
    pub fn to_string(&self) -> (s: String)
        ensures
            s@ == unit_symbol(*self),
    {
        match self {
            Unit::Gram => string_of(&chars_of("g")),
            Unit::Ounce => string_of(&chars_of("oz")),
            Unit::Pound => string_of(&chars_of("lb")),
        }
    }
}

impl core::str::FromStr for Unit {
    type Err = BadUnit;

    /// The unit `s` names, as `Unit::parse_unit` reads it.
    fn from_str(s: &str) -> (r: Result<Self, Self::Err>)
        ensures
            match unit_named(s@) {
                Some(u) => r matches Ok(v) && v == u,
                None => r is Err,
            },
    {
        Unit::parse_unit(s)
    }
}

/// A portion size could not be read.
#[derive(Debug)]
pub enum BadPortion {
    BadAmount(String),
    BadUnit(String),
    MissingUnit,
}

pub open spec fn bad_portion_text(b: BadPortion) -> Seq<char> {
    match b {
        BadPortion::BadAmount(v) => v@ + ": bad amount"@,
        BadPortion::BadUnit(v) => v@ + ": bad unit"@,
        BadPortion::MissingUnit => "missing unit"@,
    }
}

impl BadPortion {
    /// The message shown for the error.
    pub fn to_string(&self) -> (s: String)
        ensures
            s@ == bad_portion_text(*self),
    {
        match self {
            BadPortion::BadAmount(v) => {
                let mut t = chars_of(v.as_str());
                crate::text::append_chars(&mut t, &chars_of(": bad amount"));
                string_of(&t)
            },
            BadPortion::BadUnit(v) => {
                let mut t = chars_of(v.as_str());
                crate::text::append_chars(&mut t, &chars_of(": bad unit"));
                string_of(&t)
            },
            BadPortion::MissingUnit => string_of(&chars_of("missing unit")),
        }
    }
}

pub open spec fn is_amount_char(c: char) -> bool {
    c == '.' || ('0' <= c && c <= '9')
}

/// Where the unit starts in a portion text: after the leading run of digits
/// and dots.
pub open spec fn unit_start(s: Seq<char>) -> int
    decreases s.len(),
{
    if s.len() == 0 || !is_amount_char(s[0]) {
        0
    } else {
        1 + unit_start(s.drop_first())
    }
}

pub fn find_unit_start(s: &[char]) -> (i: usize)
    ensures
        i == unit_start(s@),
{
    let mut i: usize = 0;
    assert(s@.skip(0) == s@);
    while i < s.len() && (s[i] == '.' || ('0' <= s[i] && s[i] <= '9'))
        invariant
            i <= s@.len(),
            unit_start(s@) == i + unit_start(s@.skip(i as int)),
        decreases s@.len() - i,
    {
        assert(s@.skip(i as int).drop_first() == s@.skip(i + 1));
        i = i + 1;
    }
    i
}

/// Splits a portion text such as `1.5lb` into its amount text and its unit
/// text (`1.5`, `lb`); the unit text is empty when there is none.
pub fn split_portion(s: &str) -> (r: (String, String))
    ensures
        r.0@ == s@.take(unit_start(s@)),
        r.1@ == s@.skip(unit_start(s@)),
{
    let c = chars_of(s);
    let i = find_unit_start(&c);
    proof {
        lemma_unit_start_bound(c@);
    }
    (string_of(&slice_range(&c, 0, i)), string_of(&slice_range(&c, i, c.len())))
}

pub proof fn lemma_unit_start_bound(s: Seq<char>)
    ensures
        0 <= unit_start(s) <= s.len(),
    decreases s.len(),
{
    if s.len() > 0 && is_amount_char(s[0]) {
        lemma_unit_start_bound(s.drop_first());
    }
}

/// Reads the unit of a portion text, after its amount.
pub fn portion_unit(unit_text: &str) -> (r: Result<Unit, BadPortion>)
    ensures
        match unit_named(unit_text@) {
            Some(u) => r matches Ok(v) && v == u,
            None => r matches Err(BadPortion::BadUnit(t)) && t@ == unit_text@,
        },
{
    match Unit::parse_unit(unit_text) {
        Ok(u) => Ok(u),
        Err(_) => Err(BadPortion::BadUnit(string_of(&chars_of(unit_text)))),
    }
}

} // verus!

//! Units and portion sizes of the `convert` tool.
//!
//! The conversion factors are floating point and live with the program; what
//! is decided on text and units is here.
use vstd::prelude::*;
use crate::kcal::{lemma_unit_start_bound, find_unit_start, text_is, unit_start};
use crate::text::{append_chars, chars_of, slice_range, string_of};

verus! {

/// Two units cannot be converted into each other.
pub struct BadConversion;

impl BadConversion {
    /// The message shown for the error.
    pub fn to_string(&self) -> (s: String)
        ensures
            s@ == "incompatible units"@,
    {
        string_of(&chars_of("incompatible units"))
    }
}

/// A unit string was not recognized.
pub struct BadUnit;

/// A unit of weight.
#[derive(Clone, Copy, Debug, PartialEq, Eq, Structural)]
pub enum Unit {
    Gram,
    Ounce,
    Pound,
}

/// The unit a text names.
pub open spec fn unit_named(s: Seq<char>) -> Option<Unit> {
    if s == "g"@ {
        Some(Unit::Gram)
    } else if s == "lb"@ || s == "lbs"@ || s == "#"@ {
        Some(Unit::Pound)
    } else if s == "oz"@ {
        Some(Unit::Ounce)
    } else {
        None
    }
}

pub open spec fn unit_symbol(u: Unit) -> Seq<char> {
    match u {
        Unit::Gram => "g"@,
        Unit::Ounce => "oz"@,
        Unit::Pound => "lb"@,
    }
}

pub open spec fn dual_of(u: Unit) -> Unit {
    match u {
        Unit::Gram => Unit::Ounce,
        Unit::Ounce => Unit::Gram,
        Unit::Pound => Unit::Gram,
    }
}

impl Unit {
    /// The unit to convert to: grams become ounces, everything else grams.
    pub fn dual(self) -> (u: Unit)
        ensures
            u == dual_of(self),
    {
        match self {
            Unit::Gram => Unit::Ounce,
            Unit::Ounce => Unit::Gram,
            Unit::Pound => Unit::Gram,
        }
    }

    /// Reads a unit: `g` grams; `lb`, `lbs` and `#` pounds; `oz` ounces.
    pub fn parse_unit(s: &str) -> (r: Result<Unit, BadUnit>)
        ensures
            match unit_named(s@) {
                Some(u) => r matches Ok(v) && v == u,
                None => r is Err,
            },
    {
        let c = chars_of(s);
        if text_is(&c, "g") {
            Ok(Unit::Gram)
        } else if text_is(&c, "lb") || text_is(&c, "lbs") || text_is(&c, "#") {
            Ok(Unit::Pound)
        } else if text_is(&c, "oz") {
            Ok(Unit::Ounce)
        } else {
            Err(BadUnit)
        }
    }

    /// The unit's symbol: `g`, `oz` or `lb`.
    pub fn to_string(&self) -> (s: String)
        ensures
            s@ == unit_symbol(*self),
    {
        match self {
            Unit::Gram => string_of(&chars_of("g")),
            Unit::Ounce => string_of(&chars_of("oz")),
            Unit::Pound => string_of(&chars_of("lb")),
        }
    }
}

impl core::str::FromStr for Unit {
    type Err = BadUnit;

    /// The unit `s` names, as `Unit::parse_unit` reads it.
    fn from_str(s: &str) -> (r: Result<Self, Self::Err>)
        ensures
            match unit_named(s@) {
                Some(u) => r matches Ok(v) && v == u,
                None => r is Err,
            },
    {
        Unit::parse_unit(s)
    }
}

/// A portion size could not be read.
#[derive(Debug)]
pub enum BadPortion {
    BadAmount(String),
    BadUnit(String),
    MissingUnit,
}

pub open spec fn bad_portion_text(b: BadPortion) -> Seq<char> {
    match b {
        BadPortion::BadAmount(v) => v@ + ": bad amount"@,
        BadPortion::BadUnit(v) => v@ + ": bad unit"@,
        BadPortion::MissingUnit => "missing unit"@,
    }
}

impl BadPortion {
    /// The message shown for the error.
    pub fn to_string(&self) -> (s: String)
        ensures
            s@ == bad_portion_text(*self),
    {
        match self {
            BadPortion::BadAmount(v) => {
                let mut t = chars_of(v.as_str());
                append_chars(&mut t, &chars_of(": bad amount"));
                string_of(&t)
            },
            BadPortion::BadUnit(v) => {
                let mut t = chars_of(v.as_str());
                append_chars(&mut t, &chars_of(": bad unit"));
                string_of(&t)
            },
            BadPortion::MissingUnit => string_of(&chars_of("missing unit")),
        }
    }
}

/// Splits a portion text such as `8oz` into its amount text and its unit
/// text; a text made only of digits and dots has no unit.
pub fn split_portion(s: &str) -> (r: Result<(String, String), BadPortion>)
    ensures
        unit_start(s@) == s@.len() <==> r matches Err(BadPortion::MissingUnit),
        r matches Ok(p) ==> p.0@ == s@.take(unit_start(s@)) && p.1@ == s@.skip(unit_start(s@)),
        r is Ok || r matches Err(BadPortion::MissingUnit),
{
    let c = chars_of(s);
    let i = find_unit_start(&c);
    proof {
        lemma_unit_start_bound(c@);
    }
    if i == c.len() {
        return Err(BadPortion::MissingUnit);
    }
    Ok((string_of(&slice_range(&c, 0, i)), string_of(&slice_range(&c, i, c.len()))))
}

/// Reads the unit of a portion text, after its amount.
pub fn portion_unit(unit_text: &str) -> (r: Result<Unit, BadPortion>)
    ensures
        match unit_named(unit_text@) {
            Some(u) => r matches Ok(v) && v == u,
            None => r matches Err(BadPortion::BadUnit(t)) && t@ == unit_text@,
        },
{
    match Unit::parse_unit(unit_text) {
        Ok(u) => Ok(u),
        Err(_) => Err(BadPortion::BadUnit(string_of(&chars_of(unit_text)))),
    }
}

} // verus!

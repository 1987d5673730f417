//! The second generation of the argument parser: Boolean flags with checked
//! names, and parameter arities.
//!
//! Each parameter has a name.
//!
//! | mandatory | variadic | symbol |
//! |-----------|----------|--------|
//! | no        | no       | `?`    |
//! | no        | yes      | `*`    |
//! | yes       | no       | `1`    |
//! | yes       | yes      | `+`    |
use vstd::prelude::*;
use crate::text::{append_chars, chars_of, chars_eq, string_of};

verus! {

/// Something was wrong with the initialization of a [`Parser`].  In principle,
/// this should be a compile-time error.
#[derive(Debug, PartialEq)]
pub enum Init {
    /// The supplied flag name is not supported: names are ASCII letters and
    /// digits (and, for long names, inner hyphens).
    CharName(char),
    LongName(&'static str),
    /// The supplied flag name was bound to multiple target variables.
    CharDup(char),
    /// The target variable for a Boolean flag was already true when the
    /// variable was registered, so there would be no way to tell whether the
    /// flag was given.
    CharTautology(char),
    LongTautology(&'static str),
    FlexTautology(char, &'static str),
}

/// The name under which the parser's tests know [`Init`].
pub type InitError = Init;

pub open spec fn init_text(e: Init) -> Seq<char> {
    match e {
        Init::CharTautology(c) => "flag -"@ + seq![c] + " would always be true"@,
        Init::LongTautology(s) => "flag --"@ + s@ + " would always be true"@,
        Init::FlexTautology(c, s) => "flag -"@ + seq![c] + "|--"@ + s@ + " would always be true"@,
        Init::CharName(c) => "non-ASCII flag name -"@ + seq![c] + " is unsupported"@,
        Init::LongName(s) => "non-ASCII flag name --"@ + s@ + " is unsupported"@,
        Init::CharDup(c) => "flag -"@ + seq![c] + " cannot be bound to multiple variables"@,
    }
}

impl Init {
    /// The message shown for the error.
    pub fn to_string(&self) -> (r: String)
        ensures
            r@ == init_text(*self),
    {
        let mut t: Vec<char>;
        match self {
            Init::CharTautology(c) => {
                t = chars_of("flag -");
                t.push(*c);
                append_chars(&mut t, &chars_of(" would always be true"));
            },
            Init::LongTautology(s) => {
                t = chars_of("flag --");
                append_chars(&mut t, &chars_of(s));
                append_chars(&mut t, &chars_of(" would always be true"));
            },
            Init::FlexTautology(c, s) => {
                t = chars_of("flag -");
                t.push(*c);
                append_chars(&mut t, &chars_of("|--"));
                append_chars(&mut t, &chars_of(s));
                append_chars(&mut t, &chars_of(" would always be true"));
            },
            Init::CharName(c) => {
                t = chars_of("non-ASCII flag name -");
                t.push(*c);
                append_chars(&mut t, &chars_of(" is unsupported"));
            },
            Init::LongName(s) => {
                t = chars_of("non-ASCII flag name --");
                append_chars(&mut t, &chars_of(s));
                append_chars(&mut t, &chars_of(" is unsupported"));
            },
            Init::CharDup(c) => {
                t = chars_of("flag -");
                t.push(*c);
                append_chars(&mut t, &chars_of(" cannot be bound to multiple variables"));
            },
        }
        string_of(&t)
    }
}

/// A correctly initialized [`Parser`] has rejected runtime arguments.  This
/// is normal, and typically indicates end user error.
#[derive(Debug, PartialEq)]
pub enum Parse {
    /// A flag name was not recognized (its first byte).
    CharName(u8),
    /// A long flag name (or another argument) was not recognized.
    LongName(String),
}

/// A character could not be read as an arity.
pub enum Error {
    ArityChar(char),
}

/// How many arguments a parameter takes.
pub struct Arity(pub core::ops::RangeInclusive<usize>);

/// The arity each symbol stands for, as `(least, most)`.
pub open spec fn arity_bounds(c: char) -> Option<(int, int)> {
    if c == '?' {
        Some((0, 1))
    } else if c == '*' {
        Some((0, usize::MAX as int))
    } else if c == '+' {
        Some((1, usize::MAX as int))
    } else if c == '1' {
        Some((1, 1))
    } else {
        None
    }
}

impl Arity {
    /// The arity a symbol stands for: `?`, `*`, `+` or `1`.
    pub fn from_symbol(value: char) -> (r: Result<Arity, Error>)
        ensures
            match arity_bounds(value) {
                Some((lo, hi)) => r matches Ok(a) && a.0@.start == lo && a.0@.end == hi
                    && !a.0@.exhausted,
                None => r matches Err(Error::ArityChar(c)) && c == value,
            },
    {
        match value {
            '?' => Ok(Arity(core::ops::RangeInclusive::new(0, 1))),
            '*' => Ok(Arity(core::ops::RangeInclusive::new(0, usize::MAX))),
            '+' => Ok(Arity(core::ops::RangeInclusive::new(1, usize::MAX))),
            '1' => Ok(Arity(core::ops::RangeInclusive::new(1, 1))),
            _ => Err(Error::ArityChar(value)),
        }
    }
}

impl TryFrom<char> for Arity {
    type Error = Error;

    /// The arity the symbol `value` stands for, as `Arity::from_symbol` reads it.
    fn try_from(value: char) -> (r: Result<Self, Self::Error>)
        ensures
            match arity_bounds(value) {
                Some((lo, hi)) => r matches Ok(a) && a.0@.start == lo && a.0@.end == hi
                    && !a.0@.exhausted,
                None => r matches Err(Error::ArityChar(c)) && c == value,
            },
    {
        Arity::from_symbol(value)
    }
}

/// What `try_from` returns is stated by `Arity::from_symbol`; the range's
/// view is not a value a spec function can build, so no spec is offered here.
impl vstd::std_specs::convert::TryFromSpecImpl<char> for Arity {
    open spec fn obeys_try_from_spec() -> bool {
        false
    }

    open spec fn try_from_spec(v: char) -> Result<Self, Self::Error> {
        Err(Error::ArityChar(v))
    }
}

pub open spec fn is_ascii_alnum(c: char) -> bool {
    ('a' <= c && c <= 'z') || ('A' <= c && c <= 'Z') || ('0' <= c && c <= '9')
}

/// A long name is lower-case ASCII letters, digits and hyphens, not starting
/// with a hyphen.
pub open spec fn long_name_ok(s: Seq<char>) -> bool {
    &&& s.len() > 0
    &&& s[0] != '-'
    &&& forall|i: int|
        0 <= i < s.len() ==> ('a' <= #[trigger] s[i] && s[i] <= 'z') || ('0' <= s[i] && s[i]
            <= '9') || s[i] == '-'
}

fn is_alnum(c: char) -> (r: bool)
    ensures
        r == is_ascii_alnum(c),
{
    ('a' <= c && c <= 'z') || ('A' <= c && c <= 'Z') || ('0' <= c && c <= '9')
}

fn long_name_valid(name: &str) -> (r: bool)
    ensures
        r == long_name_ok(name@),
{
    let s = chars_of(name);
    if s.len() == 0 || s[0] == '-' {
        return false;
    }
    let mut i: usize = 0;
    while i < s.len()
        invariant
            i <= s@.len(),
            s@ == name@,
            forall|k: int|
                0 <= k < i ==> ('a' <= #[trigger] s@[k] && s@[k] <= 'z') || ('0' <= s@[k] && s@[k]
                    <= '9') || s@[k] == '-',
        decreases s@.len() - i,
    {
        let c = s[i];
        if !(('a' <= c && c <= 'z') || ('0' <= c && c <= '9') || c == '-') {
            return false;
        }
        i = i + 1;
    }
    true
}

/// A flag's names and the current value of its variable.
pub struct FlagModel {
    pub short: Option<char>,
    pub long: Option<Seq<char>>,
    pub value: bool,
}

/// A declared flag: its names and the variable it sets.
pub struct Flag<'a> {
    pub short: Option<char>,
    pub long: Option<&'static str>,
    pub target: &'a mut bool,
}

impl<'a> Flag<'a> {
    spec fn model(&self) -> FlagModel {
        FlagModel {
            short: self.short,
            long: match self.long {
                Some(s) => Some(s@),
                None => None,
            },
            value: *self.target,
        }
    }
}

/// Whether a flag of `flags` has the short name `c`.
pub open spec fn has_short(flags: Seq<FlagModel>, c: char) -> bool {
    exists|i: int| 0 <= i < flags.len() && flags[i].short == Some(c)
}

/// Whether a flag of `flags` has the long name `s`.
pub open spec fn has_long(flags: Seq<FlagModel>, s: Seq<char>) -> bool {
    exists|i: int| 0 <= i < flags.len() && flags[i].long == Some(s)
}

/// Why a short flag cannot be declared, if it cannot.
pub open spec fn char_flag_error(flags: Seq<FlagModel>, c: char, value: bool) -> Option<Init> {
    if !is_ascii_alnum(c) {
        Some(Init::CharName(c))
    } else if has_short(flags, c) {
        Some(Init::CharDup(c))
    } else if value {
        Some(Init::CharTautology(c))
    } else {
        None
    }
}

/// Why a long flag cannot be declared, if it cannot.
pub open spec fn long_flag_error(name: &'static str, value: bool) -> Option<Init> {
    if !long_name_ok(name@) {
        Some(Init::LongName(name))
    } else if value {
        Some(Init::LongTautology(name))
    } else {
        None
    }
}

/// Sets every flag named by an argument; a long name sets every flag of that
/// name.
pub open spec fn set_short(flags: Seq<FlagModel>, c: char) -> Seq<FlagModel> {
    flags.map_values(
        |f: FlagModel|
            if f.short == Some(c) {
                FlagModel { value: true, ..f }
            } else {
                f
            },
    )
}

pub open spec fn set_long(flags: Seq<FlagModel>, s: Seq<char>) -> Seq<FlagModel> {
    flags.map_values(
        |f: FlagModel|
            if f.long == Some(s) {
                FlagModel { value: true, ..f }
            } else {
                f
            },
    )
}

/// The flags after the characters `cs` of a `-abc` argument, or the first
/// character that names no flag.
pub open spec fn take_shorts(flags: Seq<FlagModel>, cs: Seq<char>) -> (Seq<FlagModel>, Option<char>)
    decreases cs.len(),
{
    if cs.len() == 0 {
        (flags, None)
    } else if !has_short(flags, cs[0]) {
        (flags, Some(cs[0]))
    } else {
        take_shorts(set_short(flags, cs[0]), cs.drop_first())
    }
}

/// The first byte of a character's UTF-8 encoding.
pub open spec fn first_byte(c: char) -> u8 {
    let u = c as u32;
    if u < 0x80 {
        u as u8
    } else if u < 0x800 {
        (0xc0 + u / 64) as u8
    } else if u < 0x10000 {
        (0xe0 + u / 4096) as u8
    } else {
        (0xf0 + u / 262144) as u8
    }
}

/// Why parsing stopped at an argument.
pub enum ArgStop {
    /// `--name` with no flag of that long name, or an argument that is not a
    /// flag at all: the name (or the argument).
    LongName(Seq<char>),
    /// `-c...` with a character that names no flag: its first byte.
    CharName(u8),
}

/// One argument: `--name` sets the flags of that long name; `-abc` sets the
/// flags named `a`, `b` and `c`; anything else is not recognized.
pub open spec fn take_arg(flags: Seq<FlagModel>, arg: Seq<char>) -> (Seq<FlagModel>, Option<ArgStop>) {
    if arg.len() >= 2 && arg[0] == '-' && arg[1] == '-' {
        let name = arg.skip(2);
        if has_long(flags, name) {
            (set_long(flags, name), None)
        } else {
            (flags, Some(ArgStop::LongName(name)))
        }
    } else if arg.len() >= 2 && arg[0] == '-' {
        match take_shorts(flags, arg.skip(1)) {
            (f2, None) => (f2, None),
            (f2, Some(c)) => (f2, Some(ArgStop::CharName(first_byte(c)))),
        }
    } else {
        (flags, Some(ArgStop::LongName(arg)))
    }
}

/// All arguments in order, until one is not recognized.
pub open spec fn take_args(flags: Seq<FlagModel>, args: Seq<Seq<char>>) -> (Seq<FlagModel>, Option<ArgStop>)
    decreases args.len(),
{
    if args.len() == 0 {
        (flags, None)
    } else {
        match take_arg(flags, args[0]) {
            (f2, None) => take_args(f2, args.drop_first()),
            (f2, Some(stop)) => (f2, Some(stop)),
        }
    }
}

/// A parser of Boolean flags.
pub struct Parser<'a> {
    pub flags: Vec<Flag<'a>>,
}

impl<'a> Parser<'a> {
    pub closed spec fn model(&self) -> Seq<FlagModel> {
        self.flags@.map_values(|f: Flag<'a>| f.model())
    }

    /// A parser with no flags.
    pub fn new() -> (p: Parser<'a>)
        ensures
            p.model().len() == 0,
            p.flags@.len() == 0,
    {
        let p = Parser { flags: Vec::new() };
        assert(p.model() =~= Seq::<FlagModel>::empty());
        p
    }

    fn has_short_flag(&self, c: char) -> (r: bool)
        ensures
            r == has_short(self.model(), c),
    {
        let ghost m = self.model();
        let mut i: usize = 0;
        while i < self.flags.len()
            invariant
                m == self.model(),
                i <= m.len(),
                forall|k: int| 0 <= k < i ==> m[k].short != Some(c),
            decreases m.len() - i,
        {
            match self.flags[i].short {
                Some(d) => {
                    if d == c {
                        assert(m[i as int].short == Some(c));
                        return true;
                    }
                },
                None => {},
            }
            i = i + 1;
        }
        false
    }

    /// Declares the flag `-name`, which sets `var`.  The variable must start
    /// out false, and the name must be an ASCII letter or digit not yet used.
    pub fn char_flag(&mut self, var: &'a mut bool, name: char, help: &str) -> (r: Result<(), Init>)
        ensures
            match char_flag_error(old(self).model(), name, *old(var)) {
                Some(e) => r == Err::<(), Init>(e) && final(self).flags@ == old(self).flags@ && *final(var)
                    == *old(var),
                None => r is Ok && final(self).model() == old(self).model().push(
                    FlagModel { short: Some(name), long: None, value: false },
                ) && final(self).flags@.len() == old(self).flags@.len() + 1
                    && final(self).flags@.drop_last() == old(self).flags@ && (final(self).flags@.last() matches Flag {
                    target: t,
                    ..
                } && *final(t) == *final(var)),
            },
    {
        if !is_alnum(name) {
            return Err(Init::CharName(name));
        }
        if self.has_short_flag(name) {
            return Err(Init::CharDup(name));
        }
        if *var {
            return Err(Init::CharTautology(name));
        }
        let ghost before = self.model();
        self.flags.push(Flag { short: Some(name), long: None, target: var });
        assert(self.model() =~= before.push(FlagModel { short: Some(name), long: None, value: false }));
        Ok(())
    }

    /// Declares the flag `--name`, which sets `var`.  The variable must start
    /// out false, and the name must be lower-case ASCII letters, digits and
    /// inner hyphens.
    pub fn long_flag(&mut self, var: &'a mut bool, name: &'static str, help: &str) -> (r: Result<
        (),
        Init,
    >)
        ensures
            match long_flag_error(name, *old(var)) {
                Some(e) => r == Err::<(), Init>(e) && final(self).flags@ == old(self).flags@ && *final(var)
                    == *old(var),
                None => r is Ok && final(self).model() == old(self).model().push(
                    FlagModel { short: None, long: Some(name@), value: false },
                ) && final(self).flags@.len() == old(self).flags@.len() + 1
                    && final(self).flags@.drop_last() == old(self).flags@ && (final(self).flags@.last() matches Flag {
                    target: t,
                    ..
                } && *final(t) == *final(var)),
            },
    {
        if !long_name_valid(name) {
            return Err(Init::LongName(name));
        }
        if *var {
            return Err(Init::LongTautology(name));
        }
        let ghost before = self.model();
        self.flags.push(Flag { short: None, long: Some(name), target: var });
        assert(self.model() =~= before.push(FlagModel { short: None, long: Some(name@), value: false }));
        Ok(())
    }

    fn set_where_short(&mut self, c: char)
        ensures
            final(self).flags@.len() == old(self).flags@.len(),
            forall|k: int| #![trigger final(self).flags@[k]]
                0 <= k < old(self).flags@.len() ==> ((final(self).flags@[k], old(self).flags@[k]) matches (
                    Flag { target: a, .. },
                    Flag { target: b, .. },
                ) && *final(a) == *final(b)),
            final(self).model() == set_short(old(self).model(), c),
    {
        let ghost m = old(self).model();
        let mut i: usize = 0;
        while i < self.flags.len()
            invariant
                m == old(self).model(),
                self.flags@.len() == m.len(),
                i <= m.len(),
                forall|k: int| 0 <= k < i ==> #[trigger] self.model()[k] == set_short(m, c)[k],
                forall|k: int| i <= k < m.len() ==> #[trigger] self.model()[k] == m[k],
                forall|k: int| #![trigger self.flags@[k]]
                    0 <= k < old(self).flags@.len() ==> ((self.flags@[k], old(self).flags@[k]) matches (
                        Flag { target: a, .. },
                        Flag { target: b, .. },
                    ) && *final(a) == *final(b)),
            decreases m.len() - i,
        {
            let hit = match self.flags[i].short {
                Some(d) => d == c,
                None => false,
            };
            let ghost before_flags = self.flags@;
            let ghost before = self.model();
            if hit {
                let mut f = self.flags.remove(i);
                *f.target = true;
                let ghost fv = f;
                self.flags.insert(i, f);
                proof {
                    assert(self.flags@ =~= before_flags.update(i as int, fv));
                    assert(self.model() =~= before.update(i as int, fv.model()));
                }
            }
            proof {
                assert forall|k: int| 0 <= k < i + 1 implies #[trigger] self.model()[k] == set_short(m, c)[k] by {
                    if k == i {
                        assert(m[k] == before[k]);
                        assert(before[k] == before_flags[k].model());
                        assert(set_short(m, c)[k] == (if m[k].short == Some(c) {
                            FlagModel { value: true, ..m[k] }
                        } else {
                            m[k]
                        }));
                    }
                }
            }
            i = i + 1;
        }
        assert(self.model() =~= set_short(m, c));
    }

    fn set_where_long(&mut self, name: &Vec<char>)
        ensures
            final(self).flags@.len() == old(self).flags@.len(),
            forall|k: int| #![trigger final(self).flags@[k]]
                0 <= k < old(self).flags@.len() ==> ((final(self).flags@[k], old(self).flags@[k]) matches (
                    Flag { target: a, .. },
                    Flag { target: b, .. },
                ) && *final(a) == *final(b)),
            final(self).model() == set_long(old(self).model(), name@),
    {
        let ghost m = old(self).model();
        let mut i: usize = 0;
        while i < self.flags.len()
            invariant
                m == old(self).model(),
                self.flags@.len() == m.len(),
                i <= m.len(),
                forall|k: int| 0 <= k < i ==> #[trigger] self.model()[k] == set_long(m, name@)[k],
                forall|k: int| i <= k < m.len() ==> #[trigger] self.model()[k] == m[k],
                forall|k: int| #![trigger self.flags@[k]]
                    0 <= k < old(self).flags@.len() ==> ((self.flags@[k], old(self).flags@[k]) matches (
                        Flag { target: a, .. },
                        Flag { target: b, .. },
                    ) && *final(a) == *final(b)),
            decreases m.len() - i,
        {
            let hit = match self.flags[i].long {
                Some(l) => chars_eq(&chars_of(l), name),
                None => false,
            };
            let ghost before_flags = self.flags@;
            let ghost before = self.model();
            if hit {
                let mut f = self.flags.remove(i);
                *f.target = true;
                let ghost fv = f;
                self.flags.insert(i, f);
                proof {
                    assert(self.flags@ =~= before_flags.update(i as int, fv));
                    assert(self.model() =~= before.update(i as int, fv.model()));
                }
            }
            proof {
                assert forall|k: int| 0 <= k < i + 1 implies #[trigger] self.model()[k] == set_long(m, name@)[k] by {
                    if k == i {
                        assert(m[k] == before[k]);
                        assert(before[k] == before_flags[k].model());
                        assert(set_long(m, name@)[k] == (if m[k].long == Some(name@) {
                            FlagModel { value: true, ..m[k] }
                        } else {
                            m[k]
                        }));
                    }
                }
            }
            i = i + 1;
        }
        assert(self.model() =~= set_long(m, name@));
    }

    fn has_long_flag(&self, name: &Vec<char>) -> (r: bool)
        ensures
            r == has_long(self.model(), name@),
    {
        let ghost m = self.model();
        let mut i: usize = 0;
        while i < self.flags.len()
            invariant
                m == self.model(),
                i <= m.len(),
                forall|k: int| 0 <= k < i ==> m[k].long != Some(name@),
            decreases m.len() - i,
        {
            match self.flags[i].long {
                Some(l) => {
                    if chars_eq(&chars_of(l), name) {
                        assert(m[i as int].long == Some(name@));
                        return true;
                    }
                },
                None => {},
            }
            i = i + 1;
        }
        false
    }

    /// Sets the flags named by the arguments after `args[0]`, stopping at the
    /// first argument that names none.
    pub fn parse(&mut self, args: &[&str]) -> (r: Result<(), Parse>)
        requires
            args@.len() >= 1,
        ensures
            final(self).model() == take_args(old(self).model(), crate::arg5::arg_views(args@)).0,
            final(self).flags@.len() == old(self).flags@.len(),
            forall|k: int| #![trigger final(self).flags@[k]]
                0 <= k < old(self).flags@.len() ==> ((final(self).flags@[k], old(self).flags@[k]) matches (
                    Flag { target: a, .. },
                    Flag { target: b, .. },
                ) && *final(a) == *final(b)),
            match take_args(old(self).model(), crate::arg5::arg_views(args@)).1 {
                None => r is Ok,
                Some(ArgStop::LongName(n)) => r matches Err(Parse::LongName(t)) && t@ == n,
                Some(ArgStop::CharName(b)) => r == Err::<(), Parse>(Parse::CharName(b)),
            },
    {
        let ghost all = crate::arg5::arg_views(args@);
        let ghost total = take_args(self.model(), all);
        let mut i: usize = 1;
        proof {
            assert(all.skip(0) == all);
        }
        while i < args.len()
            invariant
                1 <= i <= args@.len(),
                all == crate::arg5::arg_views(args@),
                total == take_args(old(self).model(), all),
                total == take_args(self.model(), all.skip(i - 1)),
                self.flags@.len() == old(self).flags@.len(),
                forall|k: int| #![trigger self.flags@[k]]
                    0 <= k < old(self).flags@.len() ==> ((self.flags@[k], old(self).flags@[k]) matches (
                        Flag { target: a, .. },
                        Flag { target: b, .. },
                    ) && *final(a) == *final(b)),
            decreases args@.len() - i,
        {
            let ghost m = self.model();
            let ghost rest = all.skip(i - 1);
            let a = chars_of(args[i]);
            proof {
                assert(rest[0] == a@);
                assert(rest.drop_first() == all.skip(i as int));
            }
            if a.len() >= 2 && a[0] == '-' && a[1] == '-' {
                let name = crate::text::slice_range(&a, 2, a.len());
                assert(name@ == a@.skip(2));
                if self.has_long_flag(&name) {
                    self.set_where_long(&name);
                } else {
                    return Err(Parse::LongName(string_of(&name)));
                }
            } else if a.len() >= 2 && a[0] == '-' {
                let ghost cs = a@.skip(1);
                let mut j: usize = 1;
                assert(cs.skip(0) == cs);
                while j < a.len()
                    invariant
                        1 <= j <= a@.len(),
                        cs == a@.skip(1),
                        a@.len() >= 2 && a@[0] == '-' && !(a@[1] == '-'),
                        all == crate::arg5::arg_views(args@),
                        all.skip(i - 1)[0] == a@,
                        all.skip(i - 1).len() > 0,
                        total == take_args(old(self).model(), all),
                        total == take_args(m, all.skip(i - 1)),
                        take_shorts(m, cs) == take_shorts(self.model(), cs.skip(j - 1)),
                        self.flags@.len() == old(self).flags@.len(),
                        forall|k: int| #![trigger self.flags@[k]]
                            0 <= k < old(self).flags@.len() ==> ((self.flags@[k], old(self).flags@[k]) matches (
                                Flag { target: a, .. },
                                Flag { target: b, .. },
                            ) && *final(a) == *final(b)),
                    decreases a@.len() - j,
                {
                    let c = a[j];
                    proof {
                        assert(cs.skip(j - 1)[0] == c);
                        assert(cs.skip(j - 1).drop_first() == cs.skip(j as int));
                    }
                    if self.has_short_flag(c) {
                        self.set_where_short(c);
                    } else {
                        proof {
                            let cur = self.model();
                            assert(take_shorts(cur, cs.skip(j - 1)) == (cur, Some(c)));
                            assert(take_shorts(m, cs) == (cur, Some(c)));
                            assert(take_arg(m, a@) == (cur, Some(ArgStop::CharName(first_byte(c)))));
                            assert(take_args(m, all.skip(i - 1)) == (cur, Some(ArgStop::CharName(first_byte(c)))));
                        }
                        return Err(Parse::CharName(first_byte_of(c)));
                    }
                    j = j + 1;
                }
                assert(cs.skip(j - 1).len() == 0);
            } else {
                return Err(Parse::LongName(string_of(&a)));
            }
            i = i + 1;
        }
        assert(all.skip(i - 1).len() == 0);
        Ok(())
    }
}

/// Once a parser is no longer used, each flag's variable holds the value
/// the parser's model gives it: what a parser writes through a variable's
/// reference is what the variable holds when the parser is gone.
pub proof fn lemma_flags_written<'a>(p: Parser<'a>)
    requires
        has_resolved(p),
    ensures
        forall|k: int| #![trigger p.flags@[k]]
            0 <= k < p.flags@.len() ==> (p.flags@[k] matches Flag { target: t, .. } && *final(t) == p.model()[k].value),
{
    assert(has_resolved(p.flags));
    assert forall|k: int| #![trigger p.flags@[k]]
        0 <= k < p.flags@.len() implies (p.flags@[k] matches Flag { target: t, .. } && *final(t) == p.model()[k].value) by {
        assert(has_resolved(p.flags@[k]));
        assert(has_resolved(p.flags@[k].target));
    }
}

fn first_byte_of(c: char) -> (b: u8)
    ensures
        b == first_byte(c),
{
    let u = c as u32;
    if u < 0x80 {
        u as u8
    } else if u < 0x800 {
        (0xc0 + u / 64) as u8
    } else if u < 0x10000 {
        (0xe0 + u / 4096) as u8
    } else {
        (0xf0 + u / 262144) as u8
    }
}

} // verus!

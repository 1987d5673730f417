//! A small command-line argument parser.
//!
//! * All parameters have names.
//! * Parameters declared positional receive positional arguments, in order.
//! * Arity is determined by type: `Option` for zero or one, a scalar for one.
//! * `-h` and `--help` ask for usage; the caller prints it and exits.
//! * A parameter whose type is not an `Option` is mandatory: parsing fails
//!   while one of them has no argument.
use vstd::prelude::*;
use crate::numbers::{int_error_message, int_error_text, parse_i32, parse_int, parse_u32};
use crate::order::{lemma_lex_total_ordering, lex_order, sort_strings};
use crate::text::{
    append_chars, chars_eq, chars_of, concat, string_of, to_uppercase, uppercase,
};

verus! {

/// A parse failure, with the message for the user.
#[derive(Debug, PartialEq, Eq)]
pub struct ParseError {
    pub what: String,
}

/// How many more arguments a parameter takes.
#[derive(Clone, Copy, Debug, PartialEq, Eq, Structural)]
pub enum Appetite {
    /// Requires more arguments.
    Hungry,
    /// Could accept more arguments, but doesn't require them.
    Peckish,
    /// Cannot accept any more arguments.
    Full,
}

/// How many arguments a parameter accepts in all.
#[derive(Clone, Copy, Debug, PartialEq, Eq, Structural)]
pub enum Capacity {
    /// Exactly one.
    Mandatory,
    /// Zero or one.
    Optional,
    /// Zero or more.
    Variadic,
}

/// The variable a parameter writes to.
#[derive(Debug)]
pub enum Store<'a> {
    I32(&'a mut i32),
    OptI32(&'a mut Option<i32>),
    Str(&'a mut String),
    OptStr(&'a mut Option<String>),
    U32(&'a mut u32),
    OptU32(&'a mut Option<u32>),
}

/// The value held by a parameter's variable.
pub enum Value {
    I32(i32),
    OptI32(Option<i32>),
    Str(Seq<char>),
    OptStr(Option<Seq<char>>),
    U32(u32),
    OptU32(Option<u32>),
}

/// Whether a value belongs to an optional parameter.
pub open spec fn is_optional(v: Value) -> bool {
    match v {
        Value::OptI32(_) | Value::OptStr(_) | Value::OptU32(_) => true,
        _ => false,
    }
}

pub open spec fn capacity_of(v: Value) -> Capacity {
    if is_optional(v) {
        Capacity::Optional
    } else {
        Capacity::Mandatory
    }
}

/// A fresh binding is hungry when its parameter is mandatory, else peckish.
pub open spec fn initial_appetite(v: Value) -> Appetite {
    if is_optional(v) {
        Appetite::Peckish
    } else {
        Appetite::Hungry
    }
}

/// What `str::parse` gives for an integer type, as the message of the error.
pub open spec fn parse_number(arg: Seq<char>, min: int, max: int, signed: bool) -> Result<
    int,
    Seq<char>,
> {
    match parse_int(arg, min, max, signed) {
        Ok(n) => Ok(n),
        Err(k) => Err(int_error_text(k)),
    }
}

/// The value an argument assigns to a variable of the kind of `v`, or the
/// message for why it cannot.
pub open spec fn parse_value(v: Value, arg: Seq<char>) -> Result<Value, Seq<char>> {
    match v {
        Value::I32(_) => match parse_number(arg, i32::MIN as int, i32::MAX as int, true) {
            Ok(n) => Ok(Value::I32(n as i32)),
            Err(m) => Err(m),
        },
        Value::OptI32(_) => match parse_number(arg, i32::MIN as int, i32::MAX as int, true) {
            Ok(n) => Ok(Value::OptI32(Some(n as i32))),
            Err(m) => Err(m),
        },
        Value::Str(_) => Ok(Value::Str(arg)),
        Value::OptStr(_) => Ok(Value::OptStr(Some(arg))),
        Value::U32(_) => match parse_number(arg, 0, u32::MAX as int, false) {
            Ok(n) => Ok(Value::U32(n as u32)),
            Err(m) => Err(m),
        },
        Value::OptU32(_) => match parse_number(arg, 0, u32::MAX as int, false) {
            Ok(n) => Ok(Value::OptU32(Some(n as u32))),
            Err(m) => Err(m),
        },
    }
}

impl<'a> Store<'a> {
    /// The value the variable holds now.
    pub open spec fn value(&self) -> Value {
        match self {
            Store::I32(r) => Value::I32(**r),
            Store::OptI32(r) => Value::OptI32(**r),
            Store::Str(r) => Value::Str((**r)@),
            Store::OptStr(r) => Value::OptStr(
                match **r {
                    Some(s) => Some(s@),
                    None => None,
                },
            ),
            Store::U32(r) => Value::U32(**r),
            Store::OptU32(r) => Value::OptU32(**r),
        }
    }

    fn capacity(&self) -> (c: Capacity)
        ensures
            c == capacity_of(self.value()),
    {
        match self {
            Store::I32(_) | Store::Str(_) | Store::U32(_) => Capacity::Mandatory,
            Store::OptI32(_) | Store::OptStr(_) | Store::OptU32(_) => Capacity::Optional,
        }
    }
}

/// A variable together with how many more arguments it takes.
#[derive(Debug)]
pub struct Binding<'a> {
    /// The variable written to.
    pub store: Store<'a>,
    /// How many more arguments it takes.
    pub appetite: Appetite,
}

/// The error text for a bad argument: the reason, then the argument quoted.
pub open spec fn bad_argument_text(reason: Seq<char>, arg: Seq<char>) -> Seq<char> {
    reason + " '"@ + arg + "'"@
}

impl<'a> Binding<'a> {
    pub open spec fn value(&self) -> Value {
        self.store.value()
    }

    pub open spec fn appetite(&self) -> Appetite {
        self.appetite
    }

    /// A binding to `store`, with the appetite of a fresh one.
    pub fn new(store: Store<'a>) -> (b: Binding<'a>)
        ensures
            b.store == store,
            b.value() == store.value(),
            b.appetite() == initial_appetite(store.value()),
    {
        let appetite = match &store {
            Store::I32(_) | Store::Str(_) | Store::U32(_) => Appetite::Hungry,
            Store::OptI32(_) | Store::OptStr(_) | Store::OptU32(_) => Appetite::Peckish,
        };
        Binding { store, appetite }
    }

    fn capacity(&self) -> (c: Capacity)
        ensures
            c == capacity_of(self.value()),
    {
        self.store.capacity()
    }

    /// Assigns `arg` to the variable, converting it to the variable's type.
    fn parse(&mut self, arg: &str) -> (r: Result<(), ParseError>)
        requires
            old(self).appetite() != Appetite::Full,
        ensures
            (match final(self).store {
                Store::I32(r) => Value::I32(*final(r)),
                Store::OptI32(r) => Value::OptI32(*final(r)),
                Store::Str(r) => Value::Str((*final(r))@),
                Store::OptStr(r) => Value::OptStr(
                    match *final(r) {
                        Some(s) => Some(s@),
                        None => None,
                    },
                ),
                Store::U32(r) => Value::U32(*final(r)),
                Store::OptU32(r) => Value::OptU32(*final(r)),
            }) == (match old(self).store {
                Store::I32(r) => Value::I32(*final(r)),
                Store::OptI32(r) => Value::OptI32(*final(r)),
                Store::Str(r) => Value::Str((*final(r))@),
                Store::OptStr(r) => Value::OptStr(
                    match *final(r) {
                        Some(s) => Some(s@),
                        None => None,
                    },
                ),
                Store::U32(r) => Value::U32(*final(r)),
                Store::OptU32(r) => Value::OptU32(*final(r)),
            }),
            match parse_value(old(self).value(), arg@) {
                Ok(v) => r is Ok && final(self).value() == v && final(self).appetite()
                    == Appetite::Full,
                Err(m) => r matches Err(e) && e.what@ == bad_argument_text(m, arg@)
                    && final(self).value() == old(self).value() && final(self).appetite()
                    == old(self).appetite(),
            },
    {
        let chars = chars_of(arg);
        match &mut self.store {
            Store::I32(target) => {
                match parse_i32(&chars) {
                    Ok(n) => {
                        **target = n;
                    },
                    Err(k) => {
                        return Err(bad_argument(k, arg));
                    },
                }
            },
            Store::OptI32(target) => {
                match parse_i32(&chars) {
                    Ok(n) => {
                        **target = Some(n);
                    },
                    Err(k) => {
                        return Err(bad_argument(k, arg));
                    },
                }
            },
            Store::Str(target) => {
                **target = string_of(&chars);
            },
            Store::OptStr(target) => {
                **target = Some(string_of(&chars));
            },
            Store::U32(target) => {
                match parse_u32(&chars) {
                    Ok(n) => {
                        **target = n;
                    },
                    Err(k) => {
                        return Err(bad_argument(k, arg));
                    },
                }
            },
            Store::OptU32(target) => {
                match parse_u32(&chars) {
                    Ok(n) => {
                        **target = Some(n);
                    },
                    Err(k) => {
                        return Err(bad_argument(k, arg));
                    },
                }
            },
        }
        self.appetite = Appetite::Full;
        Ok(())
    }
}

fn bad_argument(k: crate::numbers::IntErrorKind, arg: &str) -> (e: ParseError)
    ensures
        e.what@ == bad_argument_text(int_error_text(k), arg@),
{
    let mut text = int_error_message(k);
    append_chars(&mut text, &chars_of(" '"));
    append_chars(&mut text, &chars_of(arg));
    append_chars(&mut text, &chars_of("'"));
    ParseError { what: string_of(&text) }
}

/// A type that a parameter can write to.
pub trait Bind {
    /// The value of `self` as a parameter sees it.
    spec fn bound_value(&self) -> Value;

    /// A fresh binding to `self`.
    fn bind(&mut self) -> (b: Binding<'_>)
        ensures
            b.value() == old(self).bound_value(),
            b.appetite() == initial_appetite(old(self).bound_value()),
            (match b.store {
                Store::I32(r) => Value::I32(*final(r)),
                Store::OptI32(r) => Value::OptI32(*final(r)),
                Store::Str(r) => Value::Str((*final(r))@),
                Store::OptStr(r) => Value::OptStr(
                    match *final(r) {
                        Some(s) => Some(s@),
                        None => None,
                    },
                ),
                Store::U32(r) => Value::U32(*final(r)),
                Store::OptU32(r) => Value::OptU32(*final(r)),
            }) == final(self).bound_value(),
    ;
}

impl Bind for i32 {
    open spec fn bound_value(&self) -> Value {
        Value::I32(*self)
    }

    fn bind(&mut self) -> (b: Binding<'_>) {
        Binding::new(Store::I32(self))
    }
}

impl Bind for Option<i32> {
    open spec fn bound_value(&self) -> Value {
        Value::OptI32(*self)
    }

    fn bind(&mut self) -> (b: Binding<'_>) {
        Binding::new(Store::OptI32(self))
    }
}

impl Bind for String {
    open spec fn bound_value(&self) -> Value {
        Value::Str(self@)
    }

    fn bind(&mut self) -> (b: Binding<'_>) {
        Binding::new(Store::Str(self))
    }
}

impl Bind for Option<String> {
    open spec fn bound_value(&self) -> Value {
        Value::OptStr(
            match *self {
                Some(s) => Some(s@),
                None => None,
            },
        )
    }

    fn bind(&mut self) -> (b: Binding<'_>) {
        Binding::new(Store::OptStr(self))
    }
}

impl Bind for u32 {
    open spec fn bound_value(&self) -> Value {
        Value::U32(*self)
    }

    fn bind(&mut self) -> (b: Binding<'_>) {
        Binding::new(Store::U32(self))
    }
}

impl Bind for Option<u32> {
    open spec fn bound_value(&self) -> Value {
        Value::OptU32(*self)
    }

    fn bind(&mut self) -> (b: Binding<'_>) {
        Binding::new(Store::OptU32(self))
    }
}

/// A parameter as the parser sees it: its name, its variable's value and its
/// appetite.
pub struct ParamModel {
    pub name: Seq<char>,
    pub flag: Option<char>,
    pub value: Value,
    pub appetite: Appetite,
}

/// A declared parameter: its name, its flag, and its binding.
#[derive(Debug)]
pub struct Parameter<'a> {
    pub name: &'static str,
    pub flag: Option<char>,
    pub binding: Binding<'a>,
}

impl<'a> Parameter<'a> {
    pub open spec fn model(&self) -> ParamModel {
        ParamModel {
            name: self.name@,
            flag: self.flag,
            value: self.binding.value(),
            appetite: self.binding.appetite(),
        }
    }

    fn appetite(&self) -> (a: Appetite)
        ensures
            a == self.model().appetite,
    {
        self.binding.appetite
    }

    fn capacity(&self) -> (c: Capacity)
        ensures
            c == capacity_of(self.model().value),
    {
        self.binding.capacity()
    }

    fn new<T: Bind>(name: &'static str, target: &'a mut T) -> (p: Self)
        ensures
            p.model() == (ParamModel {
                name: name@,
                flag: None,
                value: old(target).bound_value(),
                appetite: initial_appetite(old(target).bound_value()),
            }),
            (match p.binding.store {
                Store::I32(r) => Value::I32(*final(r)),
                Store::OptI32(r) => Value::OptI32(*final(r)),
                Store::Str(r) => Value::Str((*final(r))@),
                Store::OptStr(r) => Value::OptStr(
                    match *final(r) {
                        Some(s) => Some(s@),
                        None => None,
                    },
                ),
                Store::U32(r) => Value::U32(*final(r)),
                Store::OptU32(r) => Value::OptU32(*final(r)),
            }) == final(target).bound_value(),
    {
        Parameter { name, flag: None, binding: target.bind() }
    }

    fn parse(&mut self, arg: &str) -> (r: Result<(), ParseError>)
        requires
            old(self).model().appetite != Appetite::Full,
        ensures
            final(self).model().name == old(self).model().name,
            final(self).model().flag == old(self).model().flag,
            (match final(self).binding.store {
                Store::I32(r) => Value::I32(*final(r)),
                Store::OptI32(r) => Value::OptI32(*final(r)),
                Store::Str(r) => Value::Str((*final(r))@),
                Store::OptStr(r) => Value::OptStr(
                    match *final(r) {
                        Some(s) => Some(s@),
                        None => None,
                    },
                ),
                Store::U32(r) => Value::U32(*final(r)),
                Store::OptU32(r) => Value::OptU32(*final(r)),
            }) == (match old(self).binding.store {
                Store::I32(r) => Value::I32(*final(r)),
                Store::OptI32(r) => Value::OptI32(*final(r)),
                Store::Str(r) => Value::Str((*final(r))@),
                Store::OptStr(r) => Value::OptStr(
                    match *final(r) {
                        Some(s) => Some(s@),
                        None => None,
                    },
                ),
                Store::U32(r) => Value::U32(*final(r)),
                Store::OptU32(r) => Value::OptU32(*final(r)),
            }),
            match parse_value(old(self).model().value, arg@) {
                Ok(v) => r is Ok && final(self).model().value == v && final(self).model().appetite
                    == Appetite::Full,
                Err(m) => r matches Err(e) && e.what@ == old(self).model().name + ": "@
                    + bad_argument_text(m, arg@) && final(self).model() == old(self).model(),
            },
    {
        match self.binding.parse(arg) {
            Ok(()) => Ok(()),
            Err(err) => {
                let mut text = chars_of(self.name);
                append_chars(&mut text, &chars_of(": "));
                append_chars(&mut text, &chars_of(err.what.as_str()));
                Err(ParseError { what: string_of(&text) })
            },
        }
    }
}

/// The upper-case name of a parameter's argument in usage text.
pub open spec fn metavar_text(name: Seq<char>) -> Seq<char> {
    uppercase(name.map_values(|c: char| if c == '-' { '_' } else { c }))
}

fn metavar(name: &str) -> (r: Vec<char>)
    ensures
        r@ == metavar_text(name@),
{
    let chars = chars_of(name);
    let mut replaced: Vec<char> = Vec::new();
    let mut i: usize = 0;
    while i < chars.len()
        invariant
            i <= chars@.len(),
            replaced@ == chars@.take(i as int).map_values(
                |c: char|
                    if c == '-' {
                        '_'
                    } else {
                        c
                    },
            ),
        decreases chars@.len() - i,
    {
        let c = chars[i];
        replaced.push(
            if c == '-' {
                '_'
            } else {
                c
            },
        );
        i = i + 1;
        assert(chars@.take(i as int) == chars@.take(i - 1).push(c));
    }
    assert(chars@.take(chars@.len() as int) == chars@);
    let upper = to_uppercase(string_of(&replaced).as_str());
    chars_of(upper.as_str())
}

/// What parsing stopped with.
pub enum Stop {
    /// All arguments were taken.
    Complete,
    /// An argument was refused, with this message.
    Failed(Seq<char>),
    /// Usage was asked for.
    Help,
    /// An argument the parser does not handle yet (an option given by name,
    /// or a flag other than `-h`); never reached by a parse that its
    /// precondition admits.
    Panic,
}

/// What the caller of `parse` has to do next.
#[derive(Clone, Copy, Debug, PartialEq, Eq, Structural)]
pub enum Parsed {
    /// Every argument was assigned and no mandatory parameter is missing.
    Complete,
    /// `-h` or `--help` was given: print `Usage: ` and the usage, and exit
    /// with status 0.
    HelpRequested,
}

/// The parser as its contracts see it.
pub struct ParserModel {
    pub params: Seq<ParamModel>,
    pub positionals: Seq<Seq<char>>,
    pub next: nat,
}

/// The index of the parameter named `name`, or -1.
pub open spec fn index_of_name(ps: Seq<ParamModel>, name: Seq<char>) -> int
    decreases ps.len(),
{
    if ps.len() == 0 {
        -1
    } else if ps.last().name == name {
        ps.len() - 1
    } else {
        index_of_name(ps.drop_last(), name)
    }
}

/// Declaring a parameter adds it, or replaces the one of the same name.
pub open spec fn insert_param(ps: Seq<ParamModel>, p: ParamModel) -> Seq<ParamModel> {
    let i = index_of_name(ps, p.name);
    if i >= 0 {
        ps.update(i, p)
    } else {
        ps.push(p)
    }
}

/// Names are unique, and every positional name is a parameter's name.
pub open spec fn model_wf(m: ParserModel) -> bool {
    &&& forall|i: int, j: int|
        0 <= i < j < m.params.len() ==> (#[trigger] m.params[i]).name != (#[trigger] m.params[j]).name
    &&& forall|k: int| 0 <= k < m.positionals.len() ==> index_of_name(m.params, #[trigger] m.positionals[k]) >= 0
}

pub open spec fn starts_with_seq(s: Seq<char>, p: Seq<char>) -> bool {
    p.len() <= s.len() && s.take(p.len() as int) == p
}

/// One argument taken: the state after it, and whether parsing stops there.
pub open spec fn step(m: ParserModel, arg: Seq<char>) -> (ParserModel, Option<Stop>) {
    if starts_with_seq(arg, "--"@) {
        let rest = arg.skip(2);
        if index_of_name(m.params, rest) >= 0 {
            (m, Some(Stop::Panic))
        } else if rest == "help"@ {
            (m, Some(Stop::Help))
        } else {
            (m, Some(Stop::Panic))
        }
    } else if starts_with_seq(arg, "-"@) {
        if arg == "-h"@ {
            (m, Some(Stop::Help))
        } else {
            (m, Some(Stop::Panic))
        }
    } else if m.next < m.positionals.len() {
        let name = m.positionals[m.next as int];
        let i = index_of_name(m.params, name);
        if i < 0 || m.params[i].appetite == Appetite::Full {
            (m, Some(Stop::Panic))
        } else {
            match parse_value(m.params[i].value, arg) {
                Ok(v) => (
                    ParserModel {
                        params: m.params.update(
                            i,
                            ParamModel { name: m.params[i].name, flag: m.params[i].flag, value: v, appetite: Appetite::Full },
                        ),
                        positionals: m.positionals,
                        next: m.next + 1,
                    },
                    None,
                ),
                Err(msg) => (m, Some(Stop::Failed(name + ": "@ + bad_argument_text(msg, arg)))),
            }
        }
    } else {
        (m, Some(Stop::Failed("unexpected positional argument '"@ + arg + "'"@)))
    }
}

/// The first positional parameter (in order) that is still hungry.
pub open spec fn first_hungry(params: Seq<ParamModel>, names: Seq<Seq<char>>) -> Option<Seq<char>>
    decreases names.len(),
{
    if names.len() == 0 {
        None
    } else if index_of_name(params, names[0]) >= 0 && params[index_of_name(params, names[0])].appetite
        == Appetite::Hungry {
        Some(names[0])
    } else {
        first_hungry(params, names.drop_first())
    }
}

/// The names of the parameters, in declaration order.
pub open spec fn param_names(ps: Seq<ParamModel>) -> Seq<Seq<char>> {
    ps.map_values(|p: ParamModel| p.name)
}

/// After the last argument: complete unless a mandatory argument is missing,
/// that is, a positional parameter (the first in order) or else another
/// parameter (the first declared) is still hungry.
pub open spec fn finish(m: ParserModel) -> Stop {
    match first_hungry(m.params, m.positionals) {
        Some(name) => Stop::Failed("expected "@ + name),
        None => match first_hungry(m.params, param_names(m.params)) {
            Some(name) => Stop::Failed("expected --"@ + name),
            None => Stop::Complete,
        },
    }
}

/// All arguments taken in order, until one stops the parse.
pub open spec fn run(m: ParserModel, args: Seq<Seq<char>>) -> (ParserModel, Stop)
    decreases args.len(),
{
    if args.len() == 0 {
        (m, finish(m))
    } else {
        match step(m, args[0]) {
            (m2, None) => run(m2, args.drop_first()),
            (m2, Some(s)) => (m2, s),
        }
    }
}

/// The arguments after the program name, as character sequences.
pub open spec fn arg_views(args: Seq<&str>) -> Seq<Seq<char>> {
    args.skip(1).map_values(|a: &str| a@)
}

/// The usage entry of a parameter that is not positional.
pub open spec fn option_usage(name: Seq<char>, cap: Capacity) -> Seq<char> {
    let meta = metavar_text(name);
    match cap {
        Capacity::Mandatory => " --"@ + name + " "@ + meta,
        Capacity::Optional => " [--"@ + name + " "@ + meta + "]"@,
        Capacity::Variadic => " [--"@ + name + " "@ + meta + "...]"@,
    }
}

/// The usage entry of a positional parameter.
pub open spec fn positional_usage(name: Seq<char>, cap: Capacity) -> Seq<char> {
    match cap {
        Capacity::Mandatory => " <"@ + name + ">"@,
        Capacity::Optional => " ["@ + name + "]"@,
        Capacity::Variadic => " ["@ + name + "...]"@,
    }
}

/// The names of the parameters that are not positional, in declaration order.
pub open spec fn option_names(params: Seq<ParamModel>, positionals: Seq<Seq<char>>) -> Seq<
    Seq<char>,
>
    decreases params.len(),
{
    if params.len() == 0 {
        Seq::empty()
    } else {
        let rest = option_names(params.drop_last(), positionals);
        if positionals.contains(params.last().name) {
            rest
        } else {
            rest.push(params.last().name)
        }
    }
}

pub open spec fn capacity_named(params: Seq<ParamModel>, name: Seq<char>) -> Capacity {
    capacity_of(params[index_of_name(params, name)].value)
}

/// The usage line: the program name, the options sorted by name, then the
/// positional parameters in order.
pub open spec fn usage_text(m: ParserModel, arg0: Seq<char>) -> Seq<char> {
    let opts = option_names(m.params, m.positionals).sort_by(lex_order());
    arg0 + concat(opts.map_values(|n: Seq<char>| option_usage(n, capacity_named(m.params, n))))
        + concat(
        m.positionals.map_values(|n: Seq<char>| positional_usage(n, capacity_named(m.params, n))),
    )
}

/// The parser: its parameters, which of them are positional, and the next
/// positional to fill.
pub struct Parser<'a> {
    /// The declared parameters, in declaration order.
    pub parameters: Vec<Parameter<'a>>,
    /// The names of the positional parameters, in order.
    pub positionals: Vec<&'static str>,
    /// The next positional parameter to fill.
    pub positional_index: usize,
}

impl<'a> Parser<'a> {
    pub open spec fn model(&self) -> ParserModel {
        ParserModel {
            params: self.parameters@.map_values(|p: Parameter<'a>| p.model()),
            positionals: self.positionals@.map_values(|s: &str| s@),
            next: self.positional_index as nat,
        }
    }

    /// A parser with no parameters.
    pub fn new() -> (p: Parser<'a>)
        ensures
            p.model().params.len() == 0,
            p.model().positionals.len() == 0,
            p.model().next == 0,
    {
        let p = Parser { parameters: Vec::new(), positionals: Vec::new(), positional_index: 0 };
        assert(p.model().params =~= Seq::<ParamModel>::empty());
        assert(p.model().positionals =~= Seq::<Seq<char>>::empty());
        p
    }

    fn find(&self, name: &str) -> (r: Option<usize>)
        requires
            model_wf(self.model()),
        ensures
            match r {
                Some(i) => i == index_of_name(self.model().params, name@),
                None => index_of_name(self.model().params, name@) < 0,
            },
    {
        let ghost ps = self.model().params;
        let target = chars_of(name);
        let mut i: usize = self.parameters.len();
        assert(ps.take(ps.len() as int) == ps);
        while i > 0
            invariant
                ps == self.model().params,
                model_wf(self.model()),
                target@ == name@,
                i <= ps.len(),
                index_of_name(ps, name@) == index_of_name(ps.take(i as int), name@),
            decreases i,
        {
            let cand = chars_of(self.parameters[i - 1].name);
            proof {
                assert(ps.take(i as int).drop_last() == ps.take(i - 1));
                assert(ps.take(i as int).last() == ps[i - 1]);
                assert(ps[i - 1].name == self.parameters@[i - 1].name@);
                assert(cand@ == self.parameters@[i - 1].name@);
                assert(target@ == name@);
            }
            if chars_eq(&cand, &target) {
                assert(ps.take(i as int).last().name == name@);
                assert(index_of_name(ps.take(i as int), name@) == i - 1);
                return Some(i - 1);
            }
            assert(ps.take(i as int).last().name != name@);
            assert(index_of_name(ps.take(i as int), name@) == index_of_name(ps.take(i - 1), name@));
            i = i - 1;
        }
        None
    }

    /// Declares a parameter named `name` that writes to `target`; a parameter
    /// of the same name is replaced.
    pub fn declare<T: Bind>(&mut self, name: &'static str, target: &'a mut T)
        requires
            model_wf(old(self).model()),
        ensures
            final(self).model() == (ParserModel {
                params: insert_param(
                    old(self).model().params,
                    ParamModel {
                        name: name@,
                        flag: None,
                        value: old(target).bound_value(),
                        appetite: initial_appetite(old(target).bound_value()),
                    },
                ),
                ..old(self).model()
            }),
            model_wf(final(self).model()),
            ({
                let i = index_of_name(old(self).model().params, name@);
                let k = if i >= 0 {
                    i
                } else {
                    old(self).parameters@.len() as int
                };
                &&& (match final(self).parameters@[k].binding.store {
                    Store::I32(r) => Value::I32(*final(r)),
                    Store::OptI32(r) => Value::OptI32(*final(r)),
                    Store::Str(r) => Value::Str((*final(r))@),
                    Store::OptStr(r) => Value::OptStr(
                        match *final(r) {
                            Some(s) => Some(s@),
                            None => None,
                        },
                    ),
                    Store::U32(r) => Value::U32(*final(r)),
                    Store::OptU32(r) => Value::OptU32(*final(r)),
                }) == final(target).bound_value()
                &&& forall|j: int|
                    0 <= j < old(self).parameters@.len() && j != k ==> final(self).parameters@[j]
                        == old(self).parameters@[j]
            }),
    {
        let ghost old_model = self.model();
        let param = Parameter::new(name, target);
        let ghost pm = param.model();
        proof {
            lemma_index_of_name_found(old_model.params, name@);
        }
        match self.find(name) {
            Some(i) => {
                self.parameters.set(i, param);
                proof {
                    assert(self.model().params =~= old_model.params.update(i as int, pm));
                    lemma_wf_after_update(old_model, i as int, pm);
                }
            },
            None => {
                self.parameters.push(param);
                proof {
                    assert(self.model().params =~= old_model.params.push(pm));
                    lemma_wf_after_push(old_model, pm);
                }
            },
        }
    }

    /// Declares a parameter that receives the next positional argument after
    /// those declared before it.
    pub fn declare_positional<T: Bind>(&mut self, name: &'static str, target: &'a mut T)
        requires
            model_wf(old(self).model()),
        ensures
            final(self).model() == (ParserModel {
                params: insert_param(
                    old(self).model().params,
                    ParamModel {
                        name: name@,
                        flag: None,
                        value: old(target).bound_value(),
                        appetite: initial_appetite(old(target).bound_value()),
                    },
                ),
                positionals: old(self).model().positionals.push(name@),
                next: old(self).model().next,
            }),
            model_wf(final(self).model()),
            ({
                let i = index_of_name(old(self).model().params, name@);
                let k = if i >= 0 {
                    i
                } else {
                    old(self).parameters@.len() as int
                };
                &&& (match final(self).parameters@[k].binding.store {
                    Store::I32(r) => Value::I32(*final(r)),
                    Store::OptI32(r) => Value::OptI32(*final(r)),
                    Store::Str(r) => Value::Str((*final(r))@),
                    Store::OptStr(r) => Value::OptStr(
                        match *final(r) {
                            Some(s) => Some(s@),
                            None => None,
                        },
                    ),
                    Store::U32(r) => Value::U32(*final(r)),
                    Store::OptU32(r) => Value::OptU32(*final(r)),
                }) == final(target).bound_value()
                &&& forall|j: int|
                    0 <= j < old(self).parameters@.len() && j != k ==> final(self).parameters@[j]
                        == old(self).parameters@[j]
            }),
    {
        self.declare(name, target);
        let ghost mid = self.model();
        self.positionals.push(name);
        proof {
            assert(self.model().positionals =~= mid.positionals.push(name@));
            assert(self.model().params == mid.params);
            lemma_insert_param_finds(
                old(self).model().params,
                ParamModel {
                    name: name@,
                    flag: None,
                    value: old(target).bound_value(),
                    appetite: initial_appetite(old(target).bound_value()),
                },
            );
            assert forall|k: int| 0 <= k < self.model().positionals.len() implies index_of_name(
                self.model().params,
                #[trigger] self.model().positionals[k],
            ) >= 0 by {
                if k < mid.positionals.len() {
                    assert(self.model().positionals[k] == mid.positionals[k]);
                }
            }
        }
    }

    /// Parses the arguments after `args[0]` (the program name) into the
    /// declared variables.
    ///
    /// Returns `Err` if a positional argument cannot be converted, if there is
    /// no positional parameter left for one, or if a mandatory parameter gets
    /// no argument; `HelpRequested` for `-h` or `--help`.
    pub fn parse(&mut self, args: &[&str]) -> (r: Result<Parsed, ParseError>)
        requires
            args@.len() >= 1,
            model_wf(old(self).model()),
            run(old(self).model(), arg_views(args@)).1 != Stop::Panic,
        ensures
            final(self).model() == run(old(self).model(), arg_views(args@)).0,
            final(self).parameters@.len() == old(self).parameters@.len(),
            forall|j: int| #![trigger final(self).parameters@[j]]
                0 <= j < old(self).parameters@.len() ==> (match final(self).parameters@[j].binding.store {
                    Store::I32(r) => Value::I32(*final(r)),
                    Store::OptI32(r) => Value::OptI32(*final(r)),
                    Store::Str(r) => Value::Str((*final(r))@),
                    Store::OptStr(r) => Value::OptStr(
                        match *final(r) {
                            Some(s) => Some(s@),
                            None => None,
                        },
                    ),
                    Store::U32(r) => Value::U32(*final(r)),
                    Store::OptU32(r) => Value::OptU32(*final(r)),
                }) == (match old(self).parameters@[j].binding.store {
                    Store::I32(r) => Value::I32(*final(r)),
                    Store::OptI32(r) => Value::OptI32(*final(r)),
                    Store::Str(r) => Value::Str((*final(r))@),
                    Store::OptStr(r) => Value::OptStr(
                        match *final(r) {
                            Some(s) => Some(s@),
                            None => None,
                        },
                    ),
                    Store::U32(r) => Value::U32(*final(r)),
                    Store::OptU32(r) => Value::OptU32(*final(r)),
                }),
            match run(old(self).model(), arg_views(args@)).1 {
                Stop::Complete => r == Ok::<Parsed, ParseError>(Parsed::Complete),
                Stop::Help => r == Ok::<Parsed, ParseError>(Parsed::HelpRequested),
                Stop::Failed(msg) => r matches Err(e) && e.what@ == msg,
                Stop::Panic => false,
            },
    {
        let ghost all = arg_views(args@);
        let ghost total = run(self.model(), all);
        let mut i: usize = 1;
        proof {
            assert(all.skip(0) == all);
        }
        while i < args.len()
            invariant
                1 <= i <= args@.len(),
                all == arg_views(args@),
                total == run(old(self).model(), all),
                model_wf(self.model()),
                total == run(self.model(), all.skip(i - 1)),
                total.1 != Stop::Panic,
                self.parameters@.len() == old(self).parameters@.len(),
                forall|j: int| #![trigger self.parameters@[j]]
                    0 <= j < old(self).parameters@.len() ==> (match self.parameters@[j].binding.store {
                        Store::I32(r) => Value::I32(*final(r)),
                        Store::OptI32(r) => Value::OptI32(*final(r)),
                        Store::Str(r) => Value::Str((*final(r))@),
                        Store::OptStr(r) => Value::OptStr(
                                match *final(r) {
                                    Some(s) => Some(s@),
                                    None => None,
                                },
                        ),
                        Store::U32(r) => Value::U32(*final(r)),
                        Store::OptU32(r) => Value::OptU32(*final(r)),
                    }) == (match old(self).parameters@[j].binding.store {
                        Store::I32(r) => Value::I32(*final(r)),
                        Store::OptI32(r) => Value::OptI32(*final(r)),
                        Store::Str(r) => Value::Str((*final(r))@),
                        Store::OptStr(r) => Value::OptStr(
                                match *final(r) {
                                    Some(s) => Some(s@),
                                    None => None,
                                },
                        ),
                        Store::U32(r) => Value::U32(*final(r)),
                        Store::OptU32(r) => Value::OptU32(*final(r)),
                    }),
            decreases args@.len() - i,
        {
            let ghost m = self.model();
            let ghost a = all[i - 1];
            proof {
                assert(a == args@[i as int]@);
                assert(all.skip(i - 1)[0] == a);
                assert(all.skip(i - 1).drop_first() == all.skip(i as int));
            }
            let res = self.parse_arg(args[i]);
            proof {
                let rest = all.skip(i - 1);
                assert(rest.len() > 0);
                assert(run(m, rest) == match step(m, rest[0]) {
                    (m2, None) => run(m2, rest.drop_first()),
                    (m2, Some(s)) => (m2, s),
                });
            }
            match res {
                Some(res) => {
                    return res;
                },
                None => {},
            }
            i = i + 1;
        }
        proof {
            assert(all.skip(i - 1).len() == 0);
        }
        self.check_complete()
    }

    fn check_complete(&self) -> (r: Result<Parsed, ParseError>)
        requires
            model_wf(self.model()),
        ensures
            match finish(self.model()) {
                Stop::Complete => r == Ok::<Parsed, ParseError>(Parsed::Complete),
                Stop::Failed(msg) => r matches Err(e) && e.what@ == msg,
                _ => false,
            },
    {
        let ghost m = self.model();
        let mut k: usize = 0;
        proof {
            assert(m.positionals.skip(0) == m.positionals);
        }
        while k < self.positionals.len()
            invariant
                m == self.model(),
                model_wf(m),
                k <= m.positionals.len(),
                first_hungry(m.params, m.positionals) == first_hungry(
                    m.params,
                    m.positionals.skip(k as int),
                ),
            decreases m.positionals.len() - k,
        {
            let name = self.positionals[k];
            proof {
                assert(m.positionals.skip(k as int)[0] == name@);
                assert(m.positionals.skip(k as int).drop_first() == m.positionals.skip(k + 1));
                assert(index_of_name(m.params, m.positionals[k as int]) >= 0);
                lemma_index_of_name_found(m.params, name@);
            }
            match self.find(name) {
                Some(idx) => {
                    assert(m.params[idx as int] == self.parameters@[idx as int].model());
                    if self.parameters[idx].appetite() == Appetite::Hungry {
                        let mut text = chars_of("expected ");
                        append_chars(&mut text, &chars_of(name));
                        return Err(ParseError { what: string_of(&text) });
                    }
                },
                None => {},
            }
            k = k + 1;
        }
        let ghost names = param_names(m.params);
        let mut j: usize = 0;
        proof {
            assert(names.skip(0) == names);
        }
        while j < self.parameters.len()
            invariant
                m == self.model(),
                model_wf(m),
                names == param_names(m.params),
                j <= m.params.len(),
                first_hungry(m.params, m.positionals) is None,
                first_hungry(m.params, names) == first_hungry(m.params, names.skip(j as int)),
            decreases m.params.len() - j,
        {
            let ghost name = names[j as int];
            proof {
                assert(names.skip(j as int)[0] == name);
                assert(names.skip(j as int).drop_first() == names.skip(j + 1));
                assert(name == m.params[j as int].name);
                lemma_index_of_name_found(m.params, name);
                if index_of_name(m.params, name) < 0 {
                    assert(m.params[j as int].name != name);
                }
                let idx = index_of_name(m.params, name);
                if idx != j {
                    if idx < j {
                        assert(m.params[idx].name != m.params[j as int].name);
                    } else {
                        assert(m.params[j as int].name != m.params[idx].name);
                    }
                }
                assert(m.params[j as int] == self.parameters@[j as int].model());
            }
            if self.parameters[j].appetite() == Appetite::Hungry {
                let mut text = chars_of("expected --");
                append_chars(&mut text, &chars_of(self.parameters[j].name));
                return Err(ParseError { what: string_of(&text) });
            }
            j = j + 1;
        }
        Ok(Parsed::Complete)
    }

    /// Takes one argument; `Some` when parsing stops with it.
    fn parse_arg(&mut self, arg: &str) -> (r: Option<Result<Parsed, ParseError>>)
        requires
            model_wf(old(self).model()),
            step(old(self).model(), arg@).1 != Some(Stop::Panic),
        ensures
            final(self).model() == step(old(self).model(), arg@).0,
            model_wf(final(self).model()),
            final(self).parameters@.len() == old(self).parameters@.len(),
            forall|j: int| #![trigger final(self).parameters@[j]]
                0 <= j < old(self).parameters@.len() ==> (match final(self).parameters@[j].binding.store {
                    Store::I32(r) => Value::I32(*final(r)),
                    Store::OptI32(r) => Value::OptI32(*final(r)),
                    Store::Str(r) => Value::Str((*final(r))@),
                    Store::OptStr(r) => Value::OptStr(
                        match *final(r) {
                            Some(s) => Some(s@),
                            None => None,
                        },
                    ),
                    Store::U32(r) => Value::U32(*final(r)),
                    Store::OptU32(r) => Value::OptU32(*final(r)),
                }) == (match old(self).parameters@[j].binding.store {
                    Store::I32(r) => Value::I32(*final(r)),
                    Store::OptI32(r) => Value::OptI32(*final(r)),
                    Store::Str(r) => Value::Str((*final(r))@),
                    Store::OptStr(r) => Value::OptStr(
                        match *final(r) {
                            Some(s) => Some(s@),
                            None => None,
                        },
                    ),
                    Store::U32(r) => Value::U32(*final(r)),
                    Store::OptU32(r) => Value::OptU32(*final(r)),
                }),
            match step(old(self).model(), arg@).1 {
                None => r is None,
                Some(Stop::Help) => r == Some(Ok::<Parsed, ParseError>(Parsed::HelpRequested)),
                Some(Stop::Failed(msg)) => r matches Some(Err(e)) && e.what@ == msg,
                _ => false,
            },
    {
        let ghost m = self.model();
        let chars = chars_of(arg);
        let n = chars.len();
        proof {
            reveal_strlit("--");
            reveal_strlit("-");
            if n >= 2 && chars@[0] == '-' && chars@[1] == '-' {
                assert(chars@.take(2) =~= "--"@);
            } else if starts_with_seq(arg@, "--"@) {
                assert(chars@.take(2)[0] == '-');
                assert(chars@.take(2)[1] == '-');
            }
            if n >= 1 && chars@[0] == '-' {
                assert(chars@.take(1) =~= "-"@);
            } else if starts_with_seq(arg@, "-"@) {
                assert(chars@.take(1)[0] == '-');
            }
        }
        if n >= 2 && chars[0] == '-' && chars[1] == '-' {
            // Every other argument of this form is beyond what the parser
            // supports, and the precondition excludes it.
            return Some(Ok(Parsed::HelpRequested));
        }
        if n >= 1 && chars[0] == '-' {
            return Some(Ok(Parsed::HelpRequested));
        }
        if self.positional_index < self.positionals.len() {
            let name = self.positionals[self.positional_index];
            assert(name@ == m.positionals[m.next as int]);
            proof {
                lemma_index_of_name_found(m.params, name@);
            }
            let idx = match self.find(name) {
                Some(idx) => idx,
                None => {
                    return None;
                },
            };
            let mut param = self.parameters.remove(idx);
            let ghost before = param.model();
            assert(before == m.params[idx as int]);
            let res = param.parse(arg);
            let ghost after = param.model();
            self.parameters.insert(idx, param);
            proof {
                assert(self.model().params =~= m.params.update(idx as int, after));
            }
            match res {
                Ok(()) => {
                    self.positional_index = self.positional_index + 1;
                    proof {
                        lemma_wf_after_update(m, idx as int, after);
                        assert(self.model().params =~= m.params.update(
                            idx as int,
                            ParamModel { name: before.name, flag: before.flag, value: after.value, appetite: Appetite::Full },
                        ));
                    }
                    None
                },
                Err(e) => {
                    proof {
                        assert(self.model().params =~= m.params);
                    }
                    Some(Err(e))
                },
            }
        } else {
            let mut text = chars_of("unexpected positional argument '");
            append_chars(&mut text, &chars);
            append_chars(&mut text, &chars_of("'"));
            Some(Err(ParseError { what: string_of(&text) }))
        }
    }

    /// The usage line for the program named `arg0`.
    pub fn usage(&self, arg0: &str) -> (text: String)
        requires
            model_wf(self.model()),
        ensures
            text@ == usage_text(self.model(), arg0@),
    {
        let ghost m = self.model();
        let mut out = chars_of(arg0);
        // Options first, sorted for a deterministic order.
        let mut names: Vec<Vec<char>> = Vec::new();
        let mut j: usize = 0;
        while j < self.parameters.len()
            invariant
                m == self.model(),
                j <= m.params.len(),
                names@.map_values(|v: Vec<char>| v@) == option_names(m.params.take(j as int), m.positionals),
            decreases m.params.len() - j,
        {
            let pname = chars_of(self.parameters[j].name);
            let positional = self.is_positional(&pname);
            proof {
                assert(m.params.take(j + 1).drop_last() == m.params.take(j as int));
                assert(m.params.take(j + 1).last() == m.params[j as int]);
            }
            if !positional {
                let ghost old_names = names@.map_values(|v: Vec<char>| v@);
                names.push(pname);
                assert(names@.map_values(|v: Vec<char>| v@) =~= old_names.push(m.params[j as int].name));
            }
            j = j + 1;
        }
        assert(m.params.take(m.params.len() as int) == m.params);
        let sorted = sort_strings(names);
        proof {
            crate::order::lemma_lex_total_ordering();
            option_names(m.params, m.positionals).lemma_sort_by_ensures(lex_order());
            lemma_option_names_exist(m.params, m.positionals);
        }
        let ghost opts = option_names(m.params, m.positionals).sort_by(lex_order());
        let ghost opt_items = opts.map_values(|n: Seq<char>| option_usage(n, capacity_named(m.params, n)));
        let mut k: usize = 0;
        while k < sorted.len()
            invariant
                m == self.model(),
                model_wf(m),
                sorted@.map_values(|v: Vec<char>| v@) == opts,
                forall|x: Seq<char>| !option_names(m.params, m.positionals).contains(x) ==> !(
                #[trigger] opts.contains(x)),
                forall|x: Seq<char>| option_names(m.params, m.positionals).contains(x) ==> index_of_name(m.params, x) >= 0,
                opt_items == opts.map_values(|n: Seq<char>| option_usage(n, capacity_named(m.params, n))),
                k <= sorted@.len(),
                out@ == arg0@ + concat(opt_items.take(k as int)),
            decreases sorted@.len() - k,
        {
            let name = &sorted[k];
            assert(name@ == opts[k as int]);
            proof {
                assert(opts.contains(opts[k as int]));
                assert(option_names(m.params, m.positionals).contains(name@));
            }
            let cap = self.capacity_by_chars(name);
            let item = format_option(name, cap);
            append_chars(&mut out, &item);
            proof {
                assert(opt_items.take(k + 1).drop_last() == opt_items.take(k as int));
                assert(opt_items.take(k + 1).last() == opt_items[k as int]);
            }
            k = k + 1;
        }
        assert(opt_items.take(sorted@.len() as int) == opt_items);
        let ghost pos_items = m.positionals.map_values(|n: Seq<char>| positional_usage(n, capacity_named(m.params, n)));
        let ghost mid = out@;
        let mut p: usize = 0;
        while p < self.positionals.len()
            invariant
                m == self.model(),
                model_wf(m),
                pos_items == m.positionals.map_values(|n: Seq<char>| positional_usage(n, capacity_named(m.params, n))),
                p <= m.positionals.len(),
                out@ == mid + concat(pos_items.take(p as int)),
            decreases m.positionals.len() - p,
        {
            let name = chars_of(self.positionals[p]);
            assert(name@ == m.positionals[p as int]);
            let cap = self.capacity_by_chars(&name);
            let item = format_positional(&name, cap);
            append_chars(&mut out, &item);
            proof {
                assert(pos_items.take(p + 1).drop_last() == pos_items.take(p as int));
                assert(pos_items.take(p + 1).last() == pos_items[p as int]);
            }
            p = p + 1;
        }
        assert(pos_items.take(m.positionals.len() as int) == pos_items);
        string_of(&out)
    }

    fn is_positional(&self, name: &Vec<char>) -> (r: bool)
        ensures
            r == self.model().positionals.contains(name@),
    {
        let ghost ps = self.model().positionals;
        let mut k: usize = 0;
        while k < self.positionals.len()
            invariant
                ps == self.model().positionals,
                k <= ps.len(),
                forall|a: int| 0 <= a < k ==> ps[a] != name@,
            decreases ps.len() - k,
        {
            let cand = chars_of(self.positionals[k]);
            if chars_eq(&cand, name) {
                assert(ps[k as int] == name@);
                return true;
            }
            k = k + 1;
        }
        false
    }

    /// The capacity of the parameter named `name` (which must exist).
    fn capacity_by_chars(&self, name: &Vec<char>) -> (c: Capacity)
        requires
            model_wf(self.model()),
            index_of_name(self.model().params, name@) >= 0,
        ensures
            c == capacity_named(self.model().params, name@),
    {
        let s = string_of(name);
        proof {
            lemma_index_of_name_found(self.model().params, name@);
        }
        match self.find(s.as_str()) {
            Some(i) => {
                assert(self.model().params[i as int] == self.parameters@[i as int].model());
                self.parameters[i].capacity()
            },
            None => Capacity::Mandatory,
        }
    }
}

fn format_option(name: &Vec<char>, cap: Capacity) -> (r: Vec<char>)
    ensures
        r@ == option_usage(name@, cap),
{
    let meta = metavar(string_of(name).as_str());
    let mut out = match cap {
        Capacity::Mandatory => chars_of(" --"),
        _ => chars_of(" [--"),
    };
    append_chars(&mut out, name);
    append_chars(&mut out, &chars_of(" "));
    append_chars(&mut out, &meta);
    match cap {
        Capacity::Mandatory => {},
        Capacity::Optional => append_chars(&mut out, &chars_of("]")),
        Capacity::Variadic => append_chars(&mut out, &chars_of("...]")),
    }
    out
}

fn format_positional(name: &Vec<char>, cap: Capacity) -> (r: Vec<char>)
    ensures
        r@ == positional_usage(name@, cap),
{
    let mut out = match cap {
        Capacity::Mandatory => chars_of(" <"),
        _ => chars_of(" ["),
    };
    append_chars(&mut out, name);
    match cap {
        Capacity::Mandatory => append_chars(&mut out, &chars_of(">")),
        Capacity::Optional => append_chars(&mut out, &chars_of("]")),
        Capacity::Variadic => append_chars(&mut out, &chars_of("...]")),
    }
    out
}

proof fn lemma_index_of_name_found(ps: Seq<ParamModel>, name: Seq<char>)
    ensures
        index_of_name(ps, name) >= 0 ==> index_of_name(ps, name) < ps.len() && ps[index_of_name(
            ps,
            name,
        )].name == name,
        index_of_name(ps, name) < 0 ==> forall|k: int| 0 <= k < ps.len() ==> (#[trigger] ps[k]).name != name,
        index_of_name(ps, name) >= -1,
    decreases ps.len(),
{
    if ps.len() > 0 {
        lemma_index_of_name_found(ps.drop_last(), name);
        if index_of_name(ps, name) < 0 {
            assert forall|k: int| 0 <= k < ps.len() implies (#[trigger] ps[k]).name != name by {
                if k < ps.len() - 1 {
                    assert(ps.drop_last()[k] == ps[k]);
                }
            }
        }
    }
}

proof fn lemma_index_of_name_unique(ps: Seq<ParamModel>, k: int)
    requires
        0 <= k < ps.len(),
        forall|i: int, j: int| 0 <= i < j < ps.len() ==> (#[trigger] ps[i]).name != (#[trigger] ps[j]).name,
    ensures
        index_of_name(ps, ps[k].name) == k,
    decreases ps.len(),
{
    if k < ps.len() - 1 {
        assert(ps.last() == ps[ps.len() - 1]);
        lemma_index_of_name_unique(ps.drop_last(), k);
    }
}

proof fn lemma_insert_param_finds(ps: Seq<ParamModel>, p: ParamModel)
    ensures
        index_of_name(insert_param(ps, p), p.name) >= 0,
{
    lemma_index_of_name_found(ps, p.name);
    let i = index_of_name(ps, p.name);
    if i >= 0 {
        lemma_index_update(ps, i, p, p.name);
    } else {
        assert(ps.push(p).last() == p);
    }
}

proof fn lemma_option_names_exist(ps: Seq<ParamModel>, pos: Seq<Seq<char>>)
    ensures
        forall|x: Seq<char>| #[trigger] option_names(ps, pos).contains(x) ==> index_of_name(ps, x) >= 0,
    decreases ps.len(),
{
    if ps.len() > 0 {
        lemma_option_names_exist(ps.drop_last(), pos);
        assert forall|x: Seq<char>| #[trigger] option_names(ps, pos).contains(x) implies index_of_name(ps, x) >= 0 by {
            let rest = option_names(ps.drop_last(), pos);
            if x != ps.last().name {
                if !pos.contains(ps.last().name) {
                    let j = choose|j: int| 0 <= j < option_names(ps, pos).len() && option_names(ps, pos)[j] == x;
                    assert(j < rest.len());
                    assert(rest[j] == x);
                }
                assert(rest.contains(x));
            }
        }
    }
}

/// Updating a parameter in place, keeping its name, keeps the parser well formed.
proof fn lemma_wf_after_update(m: ParserModel, i: int, p: ParamModel)
    requires
        model_wf(m),
        0 <= i < m.params.len(),
        p.name == m.params[i].name,
    ensures
        model_wf(ParserModel { params: m.params.update(i, p), ..m }),
        forall|n: Seq<char>| index_of_name(m.params.update(i, p), n) == index_of_name(m.params, n),
{
    assert forall|n: Seq<char>| index_of_name(m.params.update(i, p), n) == index_of_name(
        m.params,
        n,
    ) by {
        lemma_index_update(m.params, i, p, n);
    }
}

proof fn lemma_index_update(ps: Seq<ParamModel>, i: int, p: ParamModel, n: Seq<char>)
    requires
        0 <= i < ps.len(),
        p.name == ps[i].name,
    ensures
        index_of_name(ps.update(i, p), n) == index_of_name(ps, n),
    decreases ps.len(),
{
    if ps.len() > 0 {
        if i < ps.len() - 1 {
            assert(ps.update(i, p).drop_last() =~= ps.drop_last().update(i, p));
            lemma_index_update(ps.drop_last(), i, p, n);
        } else {
            assert(ps.update(i, p).drop_last() =~= ps.drop_last());
        }
    }
}

proof fn lemma_wf_after_push(m: ParserModel, p: ParamModel)
    requires
        model_wf(m),
        index_of_name(m.params, p.name) < 0,
    ensures
        model_wf(ParserModel { params: m.params.push(p), ..m }),
{
    lemma_index_of_name_found(m.params, p.name);
    let ps = m.params.push(p);
    assert forall|k: int| 0 <= k < m.positionals.len() implies index_of_name(
        ps,
        #[trigger] m.positionals[k],
    ) >= 0 by {
        assert(ps.drop_last() =~= m.params);
    }
}

/// Once a parser is no longer used, each declared variable holds the value
/// the parser's model gives its parameter: what the parser wrote through the
/// variable's reference is what the variable holds when the parser is gone.
pub proof fn lemma_targets_written<'a>(p: Parser<'a>)
    requires
        has_resolved(p),
    ensures
        forall|j: int| #![trigger p.parameters@[j]]
            0 <= j < p.parameters@.len() ==> (match p.parameters@[j].binding.store {
                Store::I32(r) => Value::I32(*final(r)),
                Store::OptI32(r) => Value::OptI32(*final(r)),
                Store::Str(r) => Value::Str((*final(r))@),
                Store::OptStr(r) => Value::OptStr(
                    match *final(r) {
                        Some(s) => Some(s@),
                        None => None,
                    },
                ),
                Store::U32(r) => Value::U32(*final(r)),
                Store::OptU32(r) => Value::OptU32(*final(r)),
            }) == p.model().params[j].value,
{
    assert(has_resolved(p.parameters));
    assert forall|j: int| #![trigger p.parameters@[j]] 0 <= j < p.parameters@.len() implies (match p.parameters@[j].binding.store {
            Store::I32(r) => Value::I32(*final(r)),
            Store::OptI32(r) => Value::OptI32(*final(r)),
            Store::Str(r) => Value::Str((*final(r))@),
            Store::OptStr(r) => Value::OptStr(
                match *final(r) {
                    Some(s) => Some(s@),
                    None => None,
                },
            ),
            Store::U32(r) => Value::U32(*final(r)),
            Store::OptU32(r) => Value::OptU32(*final(r)),
        }) == p.model().params[j].value by {
        assert(has_resolved(p.parameters@[j]));
        assert(has_resolved(p.parameters@[j].binding));
        assert(has_resolved(p.parameters@[j].binding.store));
    }
}

/// A name is among the option names exactly when some parameter has it and it
/// is not positional; no name comes twice where parameter names are unique.
proof fn lemma_option_names(ps: Seq<ParamModel>, pos: Seq<Seq<char>>)
    requires
        forall|i: int, j: int| 0 <= i < j < ps.len() ==> (#[trigger] ps[i]).name != (#[trigger] ps[j]).name,
    ensures
        option_names(ps, pos).no_duplicates(),
        forall|n: Seq<char>| #[trigger] option_names(ps, pos).contains(n) <==> (index_of_name(ps, n) >= 0
            && !pos.contains(n)),
    decreases ps.len(),
{
    if ps.len() > 0 {
        let init = ps.drop_last();
        assert forall|i: int, j: int| 0 <= i < j < init.len() implies (#[trigger] init[i]).name != (
        #[trigger] init[j]).name by {
            assert(init[i] == ps[i] && init[j] == ps[j]);
        }
        lemma_option_names(init, pos);
        let rest = option_names(init, pos);
        let last = ps.last();
        assert forall|n: Seq<char>| #[trigger] option_names(ps, pos).contains(n) <==> (index_of_name(ps, n) >= 0
            && !pos.contains(n)) by {
            lemma_index_of_name_found(init, n);
            lemma_index_of_name_found(ps, n);
            if !pos.contains(last.name) {
                assert(option_names(ps, pos) == rest.push(last.name));
                if rest.push(last.name).contains(n) && n != last.name {
                    let k = choose|k: int| 0 <= k < rest.push(last.name).len() && rest.push(last.name)[k] == n;
                    assert(rest[k] == n);
                }
                if rest.contains(n) {
                    let k = choose|k: int| 0 <= k < rest.len() && rest[k] == n;
                    assert(rest.push(last.name)[k] == n);
                }
                if n == last.name {
                    assert(rest.push(last.name)[rest.len() as int] == n);
                }
            }
        }
        if !pos.contains(last.name) {
            assert(!rest.contains(last.name)) by {
                lemma_index_of_name_found(init, last.name);
                if index_of_name(init, last.name) >= 0 {
                    let k = index_of_name(init, last.name);
                    assert(ps[k].name == ps[ps.len() - 1].name);
                }
            }
            assert forall|i: int, j: int| 0 <= i < rest.push(last.name).len() && 0 <= j < rest.push(last.name).len()
                && i != j implies rest.push(last.name)[i] != rest.push(last.name)[j] by {
                if i < rest.len() && j < rest.len() {
                    assert(rest[i] != rest[j]);
                } else if i < rest.len() {
                    assert(rest.contains(rest[i]));
                } else if j < rest.len() {
                    assert(rest.contains(rest[j]));
                }
            }
        }
    }
}

/// Two sequences without duplicates that hold the same elements hold them as
/// the same multiset.
proof fn lemma_same_elements_multiset(a: Seq<Seq<char>>, b: Seq<Seq<char>>)
    requires
        a.no_duplicates(),
        b.no_duplicates(),
        forall|n: Seq<char>| a.contains(n) <==> b.contains(n),
    ensures
        a.to_multiset() == b.to_multiset(),
{
    broadcast use vstd::seq_lib::group_to_multiset_ensures;

    a.lemma_multiset_has_no_duplicates();
    b.lemma_multiset_has_no_duplicates();
    assert forall|n: Seq<char>| a.to_multiset().count(n) == b.to_multiset().count(n) by {
        if a.contains(n) {
            assert(a.to_multiset().contains(n));
            assert(b.to_multiset().contains(n));
        }
    }
    assert(a.to_multiset() =~= b.to_multiset());
}

/// The usage line does not depend on the order in which the options were
/// declared: two parsers with the same positional parameters, in the same
/// order, and the same parameter names with the same capacities give the same
/// usage line.
pub proof fn lemma_usage_ignores_declaration_order(m1: ParserModel, m2: ParserModel, arg0: Seq<char>)
    requires
        model_wf(m1),
        model_wf(m2),
        m1.positionals == m2.positionals,
        forall|n: Seq<char>| #[trigger] index_of_name(m1.params, n) >= 0 <==> index_of_name(m2.params, n) >= 0,
        forall|n: Seq<char>|
            index_of_name(m1.params, n) >= 0 ==> #[trigger] capacity_named(m1.params, n) == capacity_named(m2.params, n),
    ensures
        usage_text(m1, arg0) == usage_text(m2, arg0),
{
    lemma_option_names(m1.params, m1.positionals);
    lemma_option_names(m2.params, m2.positionals);
    let o1 = option_names(m1.params, m1.positionals);
    let o2 = option_names(m2.params, m2.positionals);
    assert forall|n: Seq<char>| o1.contains(n) <==> o2.contains(n) by {
        assert(o1.contains(n) <==> (index_of_name(m1.params, n) >= 0 && !m1.positionals.contains(n)));
        assert(o2.contains(n) <==> (index_of_name(m2.params, n) >= 0 && !m2.positionals.contains(n)));
    }
    lemma_same_elements_multiset(o1, o2);
    lemma_lex_total_ordering();
    o1.lemma_sort_by_ensures(lex_order());
    o2.lemma_sort_by_ensures(lex_order());
    let s1 = o1.sort_by(lex_order());
    let s2 = o2.sort_by(lex_order());
    vstd::seq_lib::lemma_sorted_unique(s1, s2, lex_order());
    assert(s1 == s2);
    assert forall|i: int| 0 <= i < s1.len() implies capacity_named(m1.params, #[trigger] s1[i])
        == capacity_named(m2.params, s1[i]) by {
        broadcast use vstd::seq_lib::group_to_multiset_ensures;

        assert(s1.to_multiset().count(s1[i]) > 0);
        assert(o1.contains(s1[i]));
    }
    let u1 = s1.map_values(|n: Seq<char>| option_usage(n, capacity_named(m1.params, n)));
    let u2 = s2.map_values(|n: Seq<char>| option_usage(n, capacity_named(m2.params, n)));
    assert(u1 =~= u2);
    assert forall|k: int| 0 <= k < m1.positionals.len() implies capacity_named(m1.params, #[trigger] m1.positionals[k])
        == capacity_named(m2.params, m1.positionals[k]) by {
        assert(index_of_name(m1.params, m1.positionals[k]) >= 0);
    }
    let p1 = m1.positionals.map_values(|n: Seq<char>| positional_usage(n, capacity_named(m1.params, n)));
    let p2 = m2.positionals.map_values(|n: Seq<char>| positional_usage(n, capacity_named(m2.params, n)));
    assert(p1 =~= p2);
}

/// Looking a name up after a declaration: the declared parameter under its
/// own name, the earlier ones under theirs.
proof fn lemma_insert_param_lookup(ps: Seq<ParamModel>, p: ParamModel, n: Seq<char>)
    ensures
        (index_of_name(insert_param(ps, p), n) >= 0) == (n == p.name || index_of_name(ps, n) >= 0),
        index_of_name(insert_param(ps, p), n) >= 0 ==> insert_param(ps, p)[index_of_name(insert_param(ps, p), n)].value
            == (if n == p.name {
            p.value
        } else {
            ps[index_of_name(ps, n)].value
        }),
{
    lemma_index_of_name_found(ps, p.name);
    lemma_index_of_name_found(ps, n);
    let i = index_of_name(ps, p.name);
    if i >= 0 {
        lemma_index_update(ps, i, p, n);
    } else {
        let q = ps.push(p);
        assert(q.drop_last() =~= ps);
        assert(q.last() == p);
    }
}

/// Declaring two parameters of different names in either order gives the
/// same names with the same capacities.
pub proof fn lemma_declarations_commute(ps: Seq<ParamModel>, a: ParamModel, b: ParamModel, n: Seq<char>)
    requires
        a.name != b.name,
    ensures
        (index_of_name(insert_param(insert_param(ps, a), b), n) >= 0) == (index_of_name(
            insert_param(insert_param(ps, b), a),
            n,
        ) >= 0),
        index_of_name(insert_param(insert_param(ps, a), b), n) >= 0 ==> capacity_named(
            insert_param(insert_param(ps, a), b),
            n,
        ) == capacity_named(insert_param(insert_param(ps, b), a), n),
{
    lemma_insert_param_lookup(ps, a, n);
    lemma_insert_param_lookup(ps, b, n);
    lemma_insert_param_lookup(insert_param(ps, a), b, n);
    lemma_insert_param_lookup(insert_param(ps, b), a, n);
}

/// The usage line does not depend on the order in which two options are
/// declared: the same parser with options `a` and `b` declared in either
/// order prints the same usage line.
pub proof fn lemma_usage_of_reordered_declarations(m: ParserModel, a: ParamModel, b: ParamModel, arg0: Seq<char>)
    requires
        a.name != b.name,
        model_wf(ParserModel { params: insert_param(insert_param(m.params, a), b), ..m }),
        model_wf(ParserModel { params: insert_param(insert_param(m.params, b), a), ..m }),
    ensures
        usage_text(ParserModel { params: insert_param(insert_param(m.params, a), b), ..m }, arg0) == usage_text(
            ParserModel { params: insert_param(insert_param(m.params, b), a), ..m },
            arg0,
        ),
{
    let m1 = ParserModel { params: insert_param(insert_param(m.params, a), b), ..m };
    let m2 = ParserModel { params: insert_param(insert_param(m.params, b), a), ..m };
    assert forall|n: Seq<char>| #[trigger] index_of_name(m1.params, n) >= 0 <==> index_of_name(m2.params, n) >= 0 by {
        lemma_declarations_commute(m.params, a, b, n);
    }
    assert forall|n: Seq<char>| index_of_name(m1.params, n) >= 0 implies #[trigger] capacity_named(m1.params, n)
        == capacity_named(m2.params, n) by {
        lemma_declarations_commute(m.params, a, b, n);
    }
    lemma_usage_ignores_declaration_order(m1, m2, arg0);
}

/// An argument that converts sets the variable to the value it spells: an
/// integer argument gives an integer variable that integer, and an optional
/// integer variable `Some` of it, zero included; a text argument gives a text
/// variable itself and an optional one `Some` of it.  No argument leaves an
/// optional variable without a value.
pub proof fn lemma_argument_sets_spelled_value(v: Value, arg: Seq<char>)
    ensures
        parse_int(arg, i32::MIN as int, i32::MAX as int, true) matches Ok(n) ==> (v is I32 ==> parse_value(v, arg)
            == Ok::<Value, Seq<char>>(Value::I32(n as i32))) && (v is OptI32 ==> parse_value(v, arg) == Ok::<
            Value,
            Seq<char>,
        >(Value::OptI32(Some(n as i32)))),
        parse_int(arg, 0, u32::MAX as int, false) matches Ok(n) ==> (v is U32 ==> parse_value(v, arg) == Ok::<
            Value,
            Seq<char>,
        >(Value::U32(n as u32))) && (v is OptU32 ==> parse_value(v, arg) == Ok::<Value, Seq<char>>(
            Value::OptU32(Some(n as u32)),
        )),
        v is Str ==> parse_value(v, arg) == Ok::<Value, Seq<char>>(Value::Str(arg)),
        v is OptStr ==> parse_value(v, arg) == Ok::<Value, Seq<char>>(Value::OptStr(Some(arg))),
        parse_value(v, arg) matches Ok(w) ==> w != Value::OptI32(None) && w != Value::OptU32(None) && w
            != Value::OptStr(None),
{
}

} // verus!

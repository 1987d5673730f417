use rust_kart::arg5::{ParseError, Parsed, Parser};

// The first arg to a program is typically the program name.
const ARG0: &str = "arg0";

#[test]
fn rejects_an_unexpected_positional_argument() {
    let mut parser = Parser::new();
    assert!(parser.parse(&[ARG0, "arg1"]).is_err());
}

fn try_parse_string(args: &[&'static str]) -> Result<String, ParseError> {
    let mut got = String::new();
    let mut parser = Parser::new();
    parser.declare_positional("par", &mut got);
    parser.parse(args)?;
    Ok(got)
}

#[test]
fn can_assign_an_argument() {
    assert_eq!(try_parse_string(&[ARG0, "arg"]).unwrap(), "arg");
}

#[test]
fn parser_rejects_a_second_argument() {
    assert!(try_parse_string(&[ARG0, "arg1", "arg2"]).is_err());
}

#[test]
fn parser_rejects_an_empty_argument_list() {
    assert!(try_parse_string(&[ARG0]).is_err());
}

fn try_parse_i32(args: &[&'static str]) -> Result<i32, ParseError> {
    let mut got = 0;
    let mut parser = Parser::new();
    parser.declare_positional("par", &mut got);
    parser.parse(args)?;
    Ok(got)
}

#[test]
fn parser_can_parse_and_assign_an_argument() {
    assert_eq!(try_parse_i32(&[ARG0, "42"]).unwrap(), 42);
}

#[test]
fn rejects_a_bad_integer() {
    assert!(try_parse_i32(&[ARG0, "not-an-integer"]).is_err());
}

#[test]
fn i32_parameter_rejects_a_second_argument() {
    assert!(try_parse_i32(&[ARG0, "42", "43"]).is_err());
}

#[test]
fn i32_parameter_rejects_an_empty_argument_list() {
    assert!(try_parse_i32(&[ARG0]).is_err());
}

fn try_parse_two(args: &[&'static str]) -> Result<(i32, String), ParseError> {
    let mut got_i32 = 0;
    let mut got_str = String::new();
    let mut parser = Parser::new();
    parser.declare_positional("par1", &mut got_i32);
    parser.declare_positional("par2", &mut got_str);
    parser.parse(args)?;
    Ok((got_i32, got_str))
}

#[test]
fn can_parse_and_assign_them() {
    let (got_i32, got_str) = try_parse_two(&[ARG0, "42", "hello"]).unwrap();
    assert_eq!(got_i32, 42);
    assert_eq!(got_str, "hello");
}

#[test]
fn rejects_a_third_argument() {
    assert!(try_parse_two(&[ARG0, "42", "43", "44"]).is_err());
}

#[test]
fn two_parameters_reject_an_empty_argument_list() {
    assert!(try_parse_two(&[ARG0]).is_err());
}

#[test]
fn rejects_a_unary_argument_list() {
    assert!(try_parse_two(&[ARG0, "42"]).is_err());
}

fn try_parse_optional(args: &[&'static str]) -> Result<Option<i32>, ParseError> {
    let mut got: Option<i32> = None;
    let mut parser = Parser::new();
    parser.declare_positional("opt", &mut got);
    parser.parse(args).map(|_| got)
}

#[test]
fn optional_parameter_can_parse_and_assign_an_argument() {
    assert_eq!(try_parse_optional(&[ARG0, "42"]).unwrap(), Some(42));
}

#[test]
fn accepts_an_empty_argument_list() {
    assert_eq!(try_parse_optional(&[ARG0]), Ok(None));
}

#[test]
fn rejects_an_extra_argument() {
    let mut parser = Parser::new();
    assert!(parser.parse(&[ARG0, "42", "43"]).is_err());
}

#[test]
fn can_describe_usage() {
    let mut got_i32 = 0;
    let mut got_str = String::new();
    let mut got_opt: Option<i32> = None;
    let mut parser = Parser::new();
    parser.declare_positional("count", &mut got_i32);
    parser.declare_positional("word", &mut got_str);
    parser.declare_positional("opt", &mut got_opt);
    assert_eq!(parser.usage("repeat"), "repeat <count> <word> [opt]");
}

#[test]
fn error_messages_name_the_parameter_and_the_argument() {
    let mut got = 0;
    let mut parser = Parser::new();
    parser.declare_positional("count", &mut got);
    let err = parser.parse(&[ARG0, "x"]).unwrap_err();
    assert_eq!(err.what, "count: invalid digit found in string 'x'");
}

#[test]
fn integer_errors_follow_str_parse() {
    for (arg, what) in [
        ("", "n: cannot parse integer from empty string ''"),
        ("+", "n: invalid digit found in string '+'"),
        ("2147483648", "n: number too large to fit in target type '2147483648'"),
        ("+2147483648", "n: number too large to fit in target type '+2147483648'"),
    ] {
        let mut got = 0i32;
        let mut parser = Parser::new();
        parser.declare_positional("n", &mut got);
        assert_eq!(parser.parse(&[ARG0, arg]).unwrap_err().what, what);
    }
    let mut unsigned = 0u32;
    let mut parser = Parser::new();
    parser.declare_positional("n", &mut unsigned);
    assert_eq!(
        parser.parse(&[ARG0, "4294967296"]).unwrap_err().what,
        "n: number too large to fit in target type '4294967296'"
    );
}

#[test]
fn extremes_are_accepted() {
    let mut low = 0i32;
    let mut high = 0u32;
    let mut parser = Parser::new();
    parser.declare_positional("low", &mut low);
    parser.declare_positional("high", &mut high);
    assert_eq!(parser.parse(&[ARG0, "+2147483647", "+4294967295"]), Ok(Parsed::Complete));
    drop(parser);
    assert_eq!((low, high), (i32::MAX, u32::MAX));
}

#[test]
fn missing_and_unexpected_messages() {
    let mut got = String::new();
    let mut parser = Parser::new();
    parser.declare_positional("word", &mut got);
    assert_eq!(parser.parse(&[ARG0]).unwrap_err().what, "expected word");
    let mut parser = Parser::new();
    assert_eq!(
        parser.parse(&[ARG0, "x"]).unwrap_err().what,
        "unexpected positional argument 'x'"
    );
}

#[test]
fn help_is_reported_to_the_caller() {
    let mut parser = Parser::new();
    assert_eq!(parser.parse(&[ARG0, "-h"]), Ok(Parsed::HelpRequested));
    let mut parser = Parser::new();
    assert_eq!(parser.parse(&[ARG0, "--help"]), Ok(Parsed::HelpRequested));
}

#[test]
fn a_missing_mandatory_option_is_an_error() {
    let mut n: i32 = 0;
    let mut parser = Parser::new();
    parser.declare("count", &mut n);
    assert_eq!(parser.parse(&[ARG0]).unwrap_err().what, "expected --count");
    let mut opt: Option<i32> = None;
    let mut parser = Parser::new();
    parser.declare("maybe", &mut opt);
    assert_eq!(parser.parse(&[ARG0]), Ok(Parsed::Complete));
}

#[test]
fn options_come_first_sorted_with_metavars() {
    let mut zed = 0;
    let mut alpha_beta: Option<String> = None;
    let mut word = String::new();
    let mut parser = Parser::new();
    parser.declare_positional("word", &mut word);
    parser.declare("zed", &mut zed);
    parser.declare("alpha-beta", &mut alpha_beta);
    assert_eq!(
        parser.usage("prog"),
        "prog [--alpha-beta ALPHA_BETA] --zed ZED <word>"
    );
}

#[test]
fn usage_does_not_depend_on_the_order_of_declarations() {
    let (mut a1, mut b1, mut c1) = (0i32, None::<String>, String::new());
    let mut p1 = Parser::new();
    p1.declare("beta", &mut b1);
    p1.declare("alpha", &mut a1);
    p1.declare_positional("file", &mut c1);
    let (mut a2, mut b2, mut c2) = (0i32, None::<String>, String::new());
    let mut p2 = Parser::new();
    p2.declare("alpha", &mut a2);
    p2.declare_positional("file", &mut c2);
    p2.declare("beta", &mut b2);
    assert_eq!(p1.usage("prog"), p2.usage("prog"));
    assert_eq!(p1.usage("prog"), "prog --alpha ALPHA [--beta BETA] <file>");
}

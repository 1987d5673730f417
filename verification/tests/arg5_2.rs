use rust_kart::arg5_2::{Arity, Init, InitError, Parse, Parser};

fn fake_args(args: &[&'static str]) -> Vec<&'static str> {
    let mut vec = vec!["fake-arg0"];
    vec.extend(args.iter().copied());
    vec
}

#[test]
fn char_flag_non_ascii() {
    const NAME: char = 'ñ';
    let mut var = false;
    let mut parser = Parser::new();
    assert_eq!(
        parser.char_flag(&mut var, NAME, "fake char flag with non-ASCII name"),
        Err(InitError::CharName(NAME))
    );
}

#[test]
fn char_flag_tautology() {
    let (mut f, mut t) = (false, true);
    let mut parser = Parser::new();
    assert_eq!(
        parser.char_flag(&mut f, 'f', "fake flag initialized false"),
        Ok(())
    );
    assert_eq!(
        parser.char_flag(&mut t, 't', "fake flag initialized true"),
        Err(InitError::CharTautology('t')),
    );
}

#[test]
fn char_flag_parse() {
    for (args, want) in [(fake_args(&[]), false), (fake_args(&["-v"]), true)] {
        let mut got = false;
        let mut parser = Parser::new();
        parser.char_flag(&mut got, 'v', "fake flag").unwrap();
        assert_eq!(parser.parse(&args), Ok(()));
        drop(parser);
        assert_eq!(got, want);
    }
}

#[test]
fn long_flag_bad_name() {
    for name in ["año", "has a space", "-leading-hyphen", "camelCase"] {
        let mut var = false;
        let mut parser = Parser::new();
        assert_eq!(
            parser.long_flag(&mut var, name, "fake long flag with bad name"),
            Err(InitError::LongName(name)),
        );
    }
}

#[test]
fn long_flag_tautology() {
    let (mut f, mut t) = (false, true);
    let mut parser = Parser::new();
    assert_eq!(
        parser.long_flag(&mut f, "this-is-fine", "fake flag initialized false"),
        Ok(())
    );
    assert_eq!(
        parser.long_flag(&mut t, "this-is-bad", "fake flag initialized true"),
        Err(InitError::LongTautology("this-is-bad")),
    );
}

#[test]
fn long_flag_parse() {
    for (args, want) in [(fake_args(&[]), false), (fake_args(&["--fake"]), true)] {
        let mut got = false;
        let mut parser = Parser::new();
        parser.long_flag(&mut got, "fake", "fake flag").unwrap();
        assert_eq!(parser.parse(&args), Ok(()), "{args:?}");
        drop(parser);
        assert_eq!(got, want, "{args:?}");
    }
}

#[test]
fn duplicate_char_flag_is_refused() {
    let (mut a, mut b) = (false, false);
    let mut parser = Parser::new();
    assert_eq!(parser.char_flag(&mut a, 'x', "first"), Ok(()));
    assert_eq!(parser.char_flag(&mut b, 'x', "second"), Err(Init::CharDup('x')));
}

#[test]
fn unknown_flags_are_reported() {
    let mut v = false;
    let mut parser = Parser::new();
    parser.char_flag(&mut v, 'v', "verbose").unwrap();
    assert_eq!(parser.parse(&["p", "-q"]), Err(Parse::CharName(b'q')));
    assert_eq!(
        parser.parse(&["p", "--nope"]),
        Err(Parse::LongName("nope".to_string()))
    );
}

#[test]
fn init_messages() {
    assert_eq!(Init::CharTautology('t').to_string(), "flag -t would always be true");
    assert_eq!(
        Init::LongName("año").to_string(),
        "non-ASCII flag name --año is unsupported"
    );
    assert_eq!(
        Init::FlexTautology('v', "verbose").to_string(),
        "flag -v|--verbose would always be true"
    );
}

#[test]
fn arity_symbols() {
    let a = Arity::try_from('?').ok().unwrap();
    assert_eq!(a.0, 0..=1);
    let a = Arity::try_from('+').ok().unwrap();
    assert_eq!(a.0, 1..=usize::MAX);
    assert!(Arity::try_from('x').is_err());
}

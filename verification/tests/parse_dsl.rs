use std::borrow::Cow;

use cuicui_chirp::ast::{Argument, IdentOffset};
use cuicui_chirp::dsl::BaseDsl;
use cuicui_chirp::interpret::{Arguments as ParserArguments, Parameters};
use cuicui_chirp::parse_dsl::{
    contains_swar, escape_literal, fast_contains, interpret_str, maybe_quoted, quoted, ArgError,
    Arguments,
    DslParseError,
};

#[test]
fn test_escape() {
    let output = escape_literal(br#"ab\\c\\\d\e"#);
    assert_eq!(&br#"ab\c\de"#[..], &output[..]);
}

#[test]
fn test_escape_escape_escape_first() {
    let output = escape_literal(br#"\\ab\\c\\\d\ef\g\h\\"#);
    assert_eq!(&br#"\ab\c\defgh\"#[..], &output[..]);
}

#[test]
fn test_escape_escape_first() {
    let output = escape_literal(br#"\ab\\c\\\de\\"#);
    assert_eq!(&br#"ab\c\de\"#[..], &output[..]);
}

#[test]
fn escape_without_backslash_borrows() {
    let input = b"plain text";
    assert!(matches!(escape_literal(input), Cow::Borrowed(b) if b == input));
    assert!(matches!(escape_literal(br"a\nb"), Cow::Owned(_)));
    assert_eq!(&escape_literal(br"a\nb\tc\rd")[..], b"a\nb\tc\rd");
}

#[test]
fn swar_contains() {
    assert!(contains_swar(0x1122_0033));
    assert!(!contains_swar(0x1122_3344));
    assert!(contains_swar(0x0011_2233));
    assert!(fast_contains(b"0123456789\\", b'\\'));
    assert!(fast_contains(b"\\0123456789", b'\\'));
    assert!(fast_contains(b"0123\\", b'\\'));
    assert!(!fast_contains(b"0123456789abcdef", b'\\'));
    assert!(!fast_contains(b"", b'\\'));
}

#[test]
fn quoted_strings() {
    assert_eq!(&interpret_str(r#""hello""#)[..], "hello");
    assert_eq!(&interpret_str(r#""a\"b""#)[..], r#"a"b"#);
    assert_eq!(&interpret_str(r#""""#)[..], "");
    assert!(matches!(quoted(r#""""#), Ok(Cow::Borrowed(""))));
    assert!(matches!(interpret_str(r#""plain""#), Cow::Borrowed("plain")));
    assert!(matches!(interpret_str(r#""a\b""#), Cow::Owned(_)));
    assert_eq!(&interpret_str("bare")[..], "bare");
    assert_eq!(&quoted(r#""x\\y""#).unwrap()[..], r"x\y");
    assert_eq!(&interpret_str(r#""héllo\ wörld""#)[..], "héllo wörld");
    assert_eq!(&interpret_str(r#""日本\\語""#)[..], r"日本\語");
}

#[test]
fn argument_errors() {
    assert_eq!(ArgError::count_mismatch(3, 1000), ArgError::CountMismatch(3, 255));
    assert_eq!(ArgError::count_mismatch(3, 2), ArgError::CountMismatch(3, 2));
    assert_eq!(ArgError::CountMismatch(1, 2).maybe_offset(), None);
    let parse = ArgError::ArgParse(cuicui_chirp::grammar::Error::Unbalanced, 7);
    assert_eq!(parse.maybe_offset(), Some(7));
    assert_eq!(DslParseError::new("width").method_name(), "width");
}

#[test]
fn named_arguments() {
    let args = Arguments::for_name(br#""Name \"quoted\"""#);
    assert_eq!(args.len(), 1);
    assert!(!args.is_empty());
    assert_eq!(args.get(0), Some(&br#"Name "quoted""#[..]));
    assert_eq!(args.get(1), None);
    assert_eq!(args.get_str(0).as_deref(), Some(r#"Name "quoted""#));
    let bare = Arguments::for_name(b"Name");
    assert_eq!(bare.get(0), Some(&b"Name"[..]));
    let single = Arguments::for_name(b"'it'");
    assert_eq!(single.get(0), Some(&b"it"[..]));
    let invalid = Arguments::for_name(b"a\xffb");
    assert_eq!(invalid.get_str(0).as_deref(), Some("a\u{fffd}b"));
    assert!(matches!(invalid.get_str(0), Some(Cow::Owned(_))));
    assert!(matches!(bare.get_str(0), Some(Cow::Borrowed("Name"))));
}

#[test]
fn parser_arguments_are_substituted() {
    // "fn t(x) ... t!(42) ... m(x, y)"
    let input = b"x 42 y";
    let params = Parameters {
        idents: vec![IdentOffset { start: 0 }],
        values: vec![Argument { start: 2, end: 4 }],
        special_values: vec![],
    };
    let method_args = vec![Argument { start: 0, end: 1 }, Argument { start: 5, end: 6 }];
    let parser_args = ParserArguments::new(input, &method_args, &params);
    assert_eq!(parser_args.len(), 2);
    assert_eq!(parser_args.get(0), Some(&b"42"[..]));
    assert_eq!(parser_args.get(1), Some(&b"y"[..]));
    assert_eq!(parser_args.get(2), None);
    let args = Arguments::from_parser(&parser_args);
    assert_eq!(args.get(0), Some(&b"42"[..]));
    assert_eq!(args.get_str(1).as_deref(), Some("y"));
}

#[test]
fn base_dsl_named() {
    let mut dsl = BaseDsl::new();
    let args = Arguments::for_name(br#""My entity""#);
    assert!(dsl.method("named", &args).is_ok());
    assert_eq!(dsl.name.as_deref(), Some("My entity"));
    let err = dsl.method("width", &args).unwrap_err();
    assert_eq!(err.method_name(), "width");
    assert_eq!(dsl.name.as_deref(), Some("My entity"));
    dsl.named("Other".to_string());
    assert_eq!(dsl.name.as_deref(), Some("Other"));
}

#[test]
fn method_argument_table() {
    let input = br#"Entity(bare_method method1() method2(foobar) method3("foobar") method4(  10 + 3 , bar))"#;
    let file = cuicui_chirp::grammar::parse_chirp(input).unwrap();
    let ops = cuicui_chirp::interpret::interpret(input, &file).unwrap();
    let empty = Parameters::empty();
    let mut seen = Vec::new();
    for op in &ops {
        if let cuicui_chirp::interpret::Op::Method { name, arguments } = op {
            let parser_args = ParserArguments::new(input, arguments, &empty);
            let args = Arguments::from_parser(&parser_args);
            let name = std::str::from_utf8(&input[name.0 as usize..name.1 as usize]).unwrap();
            let texts: Vec<String> =
                (0..args.len()).map(|i| args.get_str(i).unwrap().into_owned()).collect();
            assert_eq!(args.get(args.len()), None);
            assert_eq!(args.is_empty(), texts.is_empty());
            seen.push((name.to_string(), texts));
        }
    }
    let expected: Vec<(String, Vec<String>)> = vec![
        ("bare_method".into(), vec![]),
        ("method1".into(), vec![]),
        ("method2".into(), vec!["foobar".into()]),
        ("method3".into(), vec!["\"foobar\"".into()]),
        ("method4".into(), vec!["10 + 3".into(), "bar".into()]),
    ];
    assert_eq!(seen, expected);
}

#[test]
fn parser_arguments_span_and_text() {
    let input = b"x 42 y";
    let params = Parameters {
        idents: vec![IdentOffset { start: 0 }],
        values: vec![Argument { start: 2, end: 4 }],
        special_values: vec![],
    };
    let method_args = vec![Argument { start: 0, end: 1 }, Argument { start: 5, end: 6 }];
    let parser_args = ParserArguments::new(input, &method_args, &params);
    assert_eq!(parser_args.span(), Some((0, 6)));
    assert_eq!(parser_args.to_text(), b"(42, y)".to_vec());
    let none: Vec<Argument> = vec![];
    let no_args = ParserArguments::new(input, &none, &params);
    assert_eq!(no_args.span(), None);
    assert!(no_args.to_text().is_empty());
}

#[test]
fn missing_method_message() {
    assert_eq!(DslParseError::new("foo").message(), "No 'foo' method");
}

#[test]
fn maybe_quoted_strings() {
    assert_eq!(maybe_quoted(r#""hello""#).unwrap(), "hello");
    assert_eq!(maybe_quoted(r#""a\nb""#).unwrap(), r"a\nb");
    assert_eq!(maybe_quoted(r#""""#).unwrap(), r#""""#);
    assert_eq!(maybe_quoted("bare").unwrap(), "bare");
    assert_eq!(maybe_quoted(r#""héllo""#).unwrap(), "héllo");
}

use cuicui_chirp::parse_dsl::{split, ArgError};

/// `split` into `n` arguments.
fn split_n(input: &str, n: usize) -> Result<Vec<&str>, ArgError> {
    split(input, n)
}

#[test]
fn invalid_split_0_1() {}

#[test]
fn tests_valid_split_str() {
    let (hello, world, hi) = (r#""hello""#, r#""world""#, r#""hi""#);
    assert_eq!(split_n(r#"("")"#, 1), Ok(vec![r#""""#]));
    assert_eq!(split_n(r#"("'")"#, 1), Ok(vec![r#""'""#]));
    assert_eq!(split_n(r#"(",")"#, 1), Ok(vec![r#"",""#]));
    assert_eq!(split_n(r#"("hello")"#, 1), Ok(vec![hello]));
    assert_eq!(split_n(r#"("hello,world")"#, 1), Ok(vec![r#""hello,world""#]));
    assert_eq!(
        split_n(r#"("hello\\,world")"#, 1),
        Ok(vec![r#""hello\\,world""#])
    );
    assert_eq!(split_n(r#"("hello",)"#, 1), Ok(vec![hello]));
    assert_eq!(split_n(r#"("hello"  ,  )"#, 1), Ok(vec![hello]));
    assert_eq!(split_n(r#"(   "hello")"#, 1), Ok(vec![hello]));
    assert_eq!(split_n(r#"("hello"   )"#, 1), Ok(vec![hello]));
    assert_eq!(split_n(r#"("hello","world")"#, 2), Ok(vec![hello, world]));
    assert_eq!(split_n(r#"(  "hello", "world"  )"#, 2), Ok(vec![hello, world]));
    assert_eq!(split_n(r#"("hello"  , "world")"#, 2), Ok(vec![hello, world]));
    assert_eq!(split_n(r#"("hello","world",)"#, 2), Ok(vec![hello, world]));

    let arg3 = r#"("hello", "world", "hi")"#;
    let arg26 = r#"("a", "b", "c", "d", "e", "f", "g", "h", "i", "j", "k", "l", "m", "n", "o", "p", "q", "r", "s", "t", "u", "v", "w", "x", "y", "z", )"#;
    let arg26_eq = vec![
        r#""a""#, r#""b""#, r#""c""#, r#""d""#, r#""e""#, r#""f""#, r#""g""#, r#""h""#, r#""i""#,
        r#""j""#, r#""k""#, r#""l""#, r#""m""#, r#""n""#, r#""o""#, r#""p""#, r#""q""#, r#""r""#,
        r#""s""#, r#""t""#, r#""u""#, r#""v""#, r#""w""#, r#""x""#, r#""y""#, r#""z""#,
    ];
    assert_eq!(split_n(arg3, 3), Ok(vec![hello, world, hi]));
    assert_eq!(split_n(arg26, 26), Ok(arg26_eq));
}

#[test]
fn tests_valid_str_escape() {
    assert_eq!(split_n(r#"("hello")"#, 1), Ok(vec![r#""hello""#]));
    assert_eq!(split_n(r#"("hello world")"#, 1), Ok(vec![r#""hello world""#]));
    assert_eq!(split_n(r#"("hello\"world")"#, 1), Ok(vec![r#""hello\"world""#]));
    assert_eq!(split_n(r#"("hello\\world")"#, 1), Ok(vec![r#""hello\\world""#]));

    let escape_bs_qu = r#"("hello\\\\\"world")"#; // hello\\"world
    let bs_edge = r#"("\\hello world\\")"#; // \hello world\
    let escape_quotes = r#"("\'hello world\"")"#; // 'hello world"
    let edge_space = r#"("  hello world\"")"#; // |  hello world"|
    assert_eq!(split_n(escape_bs_qu, 1), Ok(vec![r#""hello\\\\\"world""#]));
    assert_eq!(split_n(bs_edge, 1), Ok(vec![r#""\\hello world\\""#]));
    assert_eq!(split_n(escape_quotes, 1), Ok(vec![r#""\'hello world\"""#]));
    assert_eq!(split_n(edge_space, 1), Ok(vec![r#""  hello world\"""#]));
}

#[test]
fn tests_valid_split_tt() {
    let fn_call = "(pct(100), px(34))";
    let fn_call_ws = "(  pct (\"hi\") , px   ( 34 ) )";
    let ident = "( hello )";
    let path = "(hello::world)";
    let nested_comma = "( hello( 10, 34, 14 ), world( 0x12 ,0x4 ) , )";
    let ctor = "( Rust::Paths { are: 10, cool: \"cool\" } , std::lib::env(32, 5))";
    assert_eq!(split_n(fn_call, 2), Ok(vec!["pct(100)", "px(34)"]));
    assert_eq!(split_n(fn_call_ws, 2), Ok(vec!["pct (\"hi\")", "px   ( 34 )"]));
    assert_eq!(split_n(ident, 1), Ok(vec!["hello"]));
    assert_eq!(split_n(path, 1), Ok(vec!["hello::world"]));
    assert_eq!(
        split_n(nested_comma, 2),
        Ok(vec!["hello( 10, 34, 14 )", "world( 0x12 ,0x4 )"])
    );
    assert_eq!(
        split_n(ctor, 2),
        Ok(vec![
            "Rust::Paths { are: 10, cool: \"cool\" }",
            "std::lib::env(32, 5)"
        ])
    );
}

#[test]
fn tests_valid_split_0_1() {
    let empty = r#""#;
    let empty_paren = r#"()"#;
    let ws_paren = r#"(   )"#;
    let str_1arg = r#"("arg1")"#;
    let int_1arg = r#"(1)"#;
    let str_1arg_trailcomma = r#"("arg1",)"#;
    let int_1arg_trailcomma = r#"(1,)"#;
    let str_1arg_ws = r#"(    "arg1")"#;
    let int_1arg_ws = r#"(1      )"#;
    let str_1arg_trailcomma_ws = r#"("arg1"  , )"#;
    let int_1arg_trailcomma_ws = r#"(  1,     )"#;

    assert_eq!(split_n(empty, 0), Ok(vec![]));
    assert_eq!(split_n(empty_paren, 0), Ok(vec![]));
    assert_eq!(split_n(ws_paren, 0), Ok(vec![]));
    assert_eq!(split_n(str_1arg, 1), Ok(vec![r#""arg1""#]));
    assert_eq!(split_n(int_1arg, 1), Ok(vec!["1"]));
    assert_eq!(split_n(str_1arg_trailcomma, 1), Ok(vec![r#""arg1""#]));
    assert_eq!(split_n(int_1arg_trailcomma, 1), Ok(vec!["1"]));
    assert_eq!(split_n(str_1arg_ws, 1), Ok(vec![r#""arg1""#]));
    assert_eq!(split_n(int_1arg_ws, 1), Ok(vec!["1"]));
    assert_eq!(split_n(str_1arg_trailcomma_ws, 1), Ok(vec![r#""arg1""#]));
    assert_eq!(split_n(int_1arg_trailcomma_ws, 1), Ok(vec!["1"]));
}

#[test]
fn split_doc_examples() {
    assert_eq!(split_n("(20%, 21px)", 2), Ok(vec!["20%", "21px"]));
    assert_eq!(split_n("", 0), Ok(vec![]));
    assert_eq!(split_n("(hello, world,)", 0), Err(ArgError::CountMismatch(0, 2)));
    assert_eq!(split_n("(hello, world,)", 99), Err(ArgError::CountMismatch(99, 2)));
    assert_eq!(split_n("()", 0), Ok(vec![]));
    assert_eq!(
        split_n(r#"("hello\",\"world")"#, 1),
        Ok(vec![r#""hello\",\"world""#])
    );
    assert_eq!(split_n(r#"("hello","world")"#, 2), Ok(vec![r#""hello""#, r#""world""#]));
    assert_eq!(
        split_n("(float(3,1  ,4,5), matrix  [10, 1], {woody: woop, bady: boop})", 3),
        Ok(vec!["float(3,1  ,4,5)", "matrix  [10, 1]", "{woody: woop, bady: boop}"])
    );
}

#[test]
fn split_keeps_unicode() {
    assert_eq!(split_n("(héllo, \"wörld\")", 2), Ok(vec!["héllo", "\"wörld\""]));
    assert_eq!(split_n("(\u{3000}日本\u{a0}, 語 )", 2), Ok(vec!["日本", "語"]));
    assert_eq!(split_n("(a /é)", 1), Ok(vec!["a /é"]));
}

#[test]
fn split_empty_groups() {
    assert_eq!(split_n("(f())", 1), Ok(vec!["f()"]));
    assert_eq!(split_n("([], {}, g( ))", 3), Ok(vec!["[]", "{}", "g( )"]));
    assert_eq!(split_n("(a(b[]{c}))", 1), Ok(vec!["a(b[]{c})"]));
}

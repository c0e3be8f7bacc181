use cuicui_chirp::quick::{arg1, arg2, arg3, ArgError};
use cuicui_chirp::quick;

#[test]
fn parse_arguments() {
    let count = |expected, got| ArgError::CountMismatch(expected, got);

    // 0 arguments expected
    assert_eq!(quick::arg0(""), Ok(()));
    assert_eq!(quick::arg0("some text"), Err(count(0, 1)));
    assert_eq!(quick::arg0("some text, text"), Err(count(0, 2)));

    // 1 argument expected
    assert_eq!(arg1(""), Err(count(1, 0)));
    assert_eq!(arg1("some text"), Ok("some text"));
    assert_eq!(arg1("1337, text"), Err(count(1, 2)));

    // 2 argument expected
    assert_eq!(arg2(""), Err(count(2, 0)));
    assert_eq!(arg2("some text"), Err(count(2, 1)));
    assert_eq!(arg2("some text, 1337"), Ok(("some text", "1337")));
    assert_eq!(arg2("1337, 4263, Too many arguments"), Err(count(2, 3)));

    // 3 argument expected
    assert_eq!(arg3(""), Err(count(3, 0)));
    assert_eq!(arg3("some text"), Err(count(3, 1)));
    assert_eq!(arg3("some text, 1337"), Err(count(3, 2)));
    assert_eq!(
        arg3("1337,     4363, more arguments"),
        Ok(("1337", "4363", "more arguments"))
    );
}

#[test]
fn quick_balanced_arguments() {
    assert_eq!(arg2("f(a, b), [1, 2]"), Ok(("f(a, b)", "[1, 2]")));
    assert_eq!(arg1("{x: (1, 2)}"), Ok("{x: (1, 2)}"));
    assert_eq!(arg2(r"a\, b, c"), Ok((r"a\, b", "c")));
    assert_eq!(arg1(r"a\q"), Err(ArgError::ArgParse));
}

#[test]
fn quick_arguments_keep_unicode() {
    assert_eq!(arg2("héllo, wörld"), Ok(("héllo", "wörld")));
    assert_eq!(arg1("日本(語, 字)"), Ok("日本(語, 字)"));
    assert_eq!(arg3("α,  β,\tγ"), Ok(("α", "β", "γ")));
}

#[test]
fn four_and_five_arguments() {
    assert_eq!(quick::arg4("a, b, c, d"), Ok(("a", "b", "c", "d")));
    assert_eq!(quick::arg5("a, (b, c), d, e, f"), Ok(("a", "(b, c)", "d", "e", "f")));
    assert_eq!(quick::arg4("a, b"), Err(ArgError::CountMismatch(4, 2)));
}

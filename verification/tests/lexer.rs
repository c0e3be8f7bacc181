use cuicui_chirp::lex::{quoted_next, Swar8, Token};

fn pos(x: &[u8]) -> Option<usize> {
    Swar8::load_from(x).position(b'x')
}

#[test]
fn valid_position() {
    assert_eq!(pos(b"x   "), Some(0));
    assert_eq!(pos(b" x  "), Some(1));
    assert_eq!(pos(b"___"), None);
    assert_eq!(pos(b""), None);
    assert_eq!(pos(b"x"), Some(0));
    assert_eq!(pos(b"________x"), None);
    assert_eq!(pos(b"0123456x"), Some(7));
    assert_eq!(pos(b"0123456x8"), Some(7));
    assert_eq!(pos(b"01234567x"), None);
    assert_eq!(pos(b"0123456x8910"), Some(7));
    assert_eq!(pos(b"   x                  "), Some(3));
    assert_eq!(pos(b"x x x x               "), Some(0));
    assert_eq!(pos(b" xx_"), Some(1));
    assert_eq!(pos(b"__x____x__________"), Some(2));
}

#[test]
fn correct_position() {
    let some = |x| Some(x);
    let none = None;
    assert_eq!(pos(b"x   "), some(0));
    assert_eq!(pos(b" x  "), some(1));
    assert_eq!(pos(b"___"), none);
    assert_eq!(pos(b""), none);
    assert_eq!(pos(b"x"), some(0));
    assert_eq!(pos(b"________x"), none);
    assert_eq!(pos(b"0123456x"), some(7));
    assert_eq!(pos(b"0123456x8"), some(7));
    assert_eq!(pos(b"01234567x"), none);
    assert_eq!(pos(b"0123456x8910"), some(7));
    assert_eq!(pos(b"   x                  "), some(3));
    assert_eq!(pos(b"x x x x               "), some(0));
    assert_eq!(pos(b" xx_"), some(1));
    assert_eq!(pos(b"__x____x__________"), some(2));
}

fn valid(input: &[u8], expected: &[u8], remaining: &[u8]) {
    let (token, end) = quoted_next(input, 0, b'"');
    assert_eq!(Some(Token::String(expected)), token);
    assert_eq!(remaining, &input[end..]);
}

fn full_valid(input: &[u8]) {
    valid(input, input, b"");
}

#[test]
fn valid_string() {
    full_valid(br#""hello""#);
    full_valid(br#""hello world""#);
    full_valid(br#""hello\"world""#);
    full_valid(br#""hello\\world""#);

    full_valid(br#""hello\\\\\"world""#); // hello\\"world
    full_valid(br#""\\hello world\\""#); // \hello world\
    full_valid(br#""  hello world\"""#); // |  hello world"|
    full_valid(br#""\'hello world\"""#); // 'hello world"
}

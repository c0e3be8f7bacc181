//! Splitting and reading the arguments of methods, as written in chirp
//! files.
use vstd::prelude::*;

use crate::ast::Argument;
use crate::grammar::{
    self, err_of, expect, lemma_expect_bounds, lemma_paren_args_bounds, lemma_tt_bounds, sep_args,
    sp_expect, sp_sep_args, sp_token_tree, token_tree, ErrMode, Error,
};
use crate::lex::{self, lex, skip_spaces, TokenType};
use crate::stream::Input;
use vstd::string::{StringExecFns, StringSliceAdditionalSpecFns};

verus! {

// ---------------------------------------------------------------------------
// Unicode white space
// ---------------------------------------------------------------------------

/// Length of the UTF-8 encoded white space character (Unicode property
/// `White_Space`) starting at index `i` of `s`, zero if there is none.
pub open spec fn ws_len_at(s: Seq<u8>, i: int) -> int {
    if 0 <= i < s.len() && ((0x09 <= s[i] <= 0x0d) || s[i] == 0x20) {
        1
    } else if 0 <= i && i + 1 < s.len() && s[i] == 0xc2 && (s[i + 1] == 0x85 || s[i + 1] == 0xa0) {
        2
    } else if 0 <= i && i + 2 < s.len() && ws3(s[i], s[i + 1], s[i + 2]) {
        3
    } else {
        0
    }
}

/// Whether three bytes encode a white space character: U+1680,
/// U+2000..U+200A, U+2028, U+2029, U+202F, U+205F or U+3000.
pub open spec fn ws3(a: u8, b: u8, c: u8) -> bool {
    ||| a == 0xe1 && b == 0x9a && c == 0x80
    ||| a == 0xe2 && b == 0x80 && ((0x80 <= c <= 0x8a) || c == 0xa8 || c == 0xa9 || c == 0xaf)
    ||| a == 0xe2 && b == 0x81 && c == 0x9f
    ||| a == 0xe3 && b == 0x80 && c == 0x80
}

/// Length of the UTF-8 encoded white space character ending at index `j`
/// (exclusive) of `s`, not starting before `lo`, zero if there is none.
pub open spec fn ws_len_before(s: Seq<u8>, lo: int, j: int) -> int {
    if lo <= j - 3 && j <= s.len() && ws3(s[j - 3], s[j - 2], s[j - 1]) {
        3
    } else if lo <= j - 2 && j <= s.len() && s[j - 2] == 0xc2 && (s[j - 1] == 0x85 || s[j - 1]
        == 0xa0) {
        2
    } else if lo <= j - 1 && j <= s.len() && ((0x09 <= s[j - 1] <= 0x0d) || s[j - 1] == 0x20) {
        1
    } else {
        0
    }
}

/// First index at or after `i` that does not start a white space character.
pub open spec fn trim_start_from(s: Seq<u8>, i: int) -> int
    decreases s.len() - i,
{
    if 0 <= i < s.len() && ws_len_at(s, i) > 0 {
        trim_start_from(s, i + ws_len_at(s, i))
    } else {
        i
    }
}

/// Last index at or before `j`, not before `lo`, that does not end a white
/// space character.
pub open spec fn trim_end_from(s: Seq<u8>, lo: int, j: int) -> int
    decreases j - lo,
{
    if lo < j && ws_len_before(s, lo, j) > 0 {
        trim_end_from(s, lo, j - ws_len_before(s, lo, j))
    } else {
        j
    }
}

/// The bounds of `s` with leading and trailing white space removed.
pub open spec fn trim_bounds(s: Seq<u8>) -> (int, int) {
    let a = trim_start_from(s, 0);
    (a, trim_end_from(s, a, s.len() as int))
}

/// `s` with leading and trailing white space removed.
pub open spec fn trimmed(s: Seq<u8>) -> Seq<u8> {
    s.subrange(trim_bounds(s).0, trim_bounds(s).1)
}

proof fn lemma_trim_start(s: Seq<u8>, i: int)
    requires
        0 <= i <= s.len(),
    ensures
        i <= trim_start_from(s, i) <= s.len(),
    decreases s.len() - i,
{
    if i < s.len() && ws_len_at(s, i) > 0 {
        lemma_trim_start(s, i + ws_len_at(s, i));
    }
}

proof fn lemma_trim_end(s: Seq<u8>, lo: int, j: int)
    requires
        0 <= lo <= j <= s.len(),
    ensures
        lo <= trim_end_from(s, lo, j) <= j,
    decreases j - lo,
{
    if lo < j && ws_len_before(s, lo, j) > 0 {
        lemma_trim_end(s, lo, j - ws_len_before(s, lo, j));
    }
}

pub proof fn lemma_trim_bounds(s: Seq<u8>)
    ensures
        0 <= trim_bounds(s).0 <= trim_bounds(s).1 <= s.len(),
{
    lemma_trim_start(s, 0);
    lemma_trim_end(s, trim_start_from(s, 0), s.len() as int);
}

fn is_ascii_ws(b: u8) -> (r: bool)
    ensures
        r == ((0x09 <= b <= 0x0d) || b == 0x20),
{
    (0x09 <= b && b <= 0x0d) || b == 0x20
}

fn is_ws3(a: u8, b: u8, c: u8) -> (r: bool)
    ensures
        r == ws3(a, b, c),
{
    (a == 0xe1 && b == 0x9a && c == 0x80) || (a == 0xe2 && b == 0x80 && ((0x80 <= c && c <= 0x8a)
        || c == 0xa8 || c == 0xa9 || c == 0xaf)) || (a == 0xe2 && b == 0x81 && c == 0x9f) || (a
        == 0xe3 && b == 0x80 && c == 0x80)
}

/// The bounds of `s` with leading and trailing white space removed (see
/// [`trim_bounds`]). This is what `str::trim` removes.
pub fn trim_ws(s: &[u8]) -> (r: (usize, usize))
    ensures
        r.0 == trim_bounds(s@).0,
        r.1 == trim_bounds(s@).1,
{
    let ghost v = s@;
    let mut i: usize = 0;
    while i < s.len()
        invariant
            i <= s@.len(),
            v == s@,
            trim_start_from(v, 0) == trim_start_from(v, i as int),
        ensures
            i == trim_start_from(v, 0),
        decreases s@.len() - i,
    {
        let w: usize = if is_ascii_ws(s[i]) {
            1
        } else if s.len() - i > 1 && s[i] == 0xc2 && (s[i + 1] == 0x85 || s[i + 1] == 0xa0) {
            2
        } else if s.len() - i > 2 && is_ws3(s[i], s[i + 1], s[i + 2]) {
            3
        } else {
            0
        };
        assert(w == ws_len_at(v, i as int));
        if w == 0 {
            break ;
        }
        i = i + w;
    }
    let a = i;
    let mut j: usize = s.len();
    while a < j
        invariant
            a <= j <= s@.len(),
            v == s@,
            a == trim_start_from(v, 0),
            trim_end_from(v, a as int, v.len() as int) == trim_end_from(v, a as int, j as int),
        ensures
            j == trim_end_from(v, a as int, v.len() as int),
        decreases j - a,
    {
        let w: usize = if j - a >= 3 && is_ws3(s[j - 3], s[j - 2], s[j - 1]) {
            3
        } else if j - a >= 2 && s[j - 2] == 0xc2 && (s[j - 1] == 0x85 || s[j - 1] == 0xa0) {
            2
        } else if is_ascii_ws(s[j - 1]) {
            1
        } else {
            0
        };
        assert(w == ws_len_before(v, a as int, j as int));
        if w == 0 {
            break ;
        }
        j = j - w;
    }
    (a, j)
}

// ---------------------------------------------------------------------------
// Splitting arguments
// ---------------------------------------------------------------------------

/// Error returned by [`split`].
#[derive(Debug, Clone, Copy, PartialEq, Eq, Structural)]
pub enum ArgError {
    /// Expected the first count of arguments, got the second (255 stands
    /// for 255 or more).
    CountMismatch(u8, u8),
    /// The arguments could not be parsed; the error and its offset.
    ArgParse(Error, u32),
}

/// A count of arguments, saturated to 255.
pub open spec fn count_byte(n: int) -> u8 {
    if 0 <= n <= 255 {
        n as u8
    } else {
        255
    }
}

impl ArgError {
    /// Expected `expected` arguments, got `got`.
    pub fn count_mismatch(expected: u8, got: usize) -> (r: Self)
        ensures
            r == ArgError::CountMismatch(expected, count_byte(got as int)),
    {
        let got = if got <= 255 {
            got as u8
        } else {
            255
        };
        ArgError::CountMismatch(expected, got)
    }

    /// The offset of the error in the split input, if it is a parse error.
    pub fn maybe_offset(&self) -> (r: Option<u32>)
        ensures
            r == match *self {
                ArgError::CountMismatch(..) => None,
                ArgError::ArgParse(_, offset) => Some(offset),
            },
    {
        match self {
            ArgError::CountMismatch(..) => None,
            ArgError::ArgParse(_, offset) => Some(*offset),
        }
    }
}

/// `()`
pub open spec fn empty_parens() -> Seq<u8> {
    seq![0x28u8, 0x29u8]
}

/// The arguments of `s`, within parentheses when `s` is parenthesized: how
/// many bytes are removed at the start, and the remaining bytes.
pub open spec fn split_inner(s: Seq<u8>) -> (int, Seq<u8>) {
    if s.len() >= 2 && s[0] == 0x28 && s[s.len() - 1] == 0x29 {
        (1, s.subrange(1, s.len() - 1))
    } else {
        (0, s)
    }
}

/// What [`split`] returns for `s` and `n` arguments: the trimmed text of
/// each top level comma separated argument, exactly `n` of them.
pub open spec fn sp_split(s: Seq<u8>, n: int) -> Result<Seq<Seq<u8>>, ArgError> {
    if n == 0 && (s.len() == 0 || s == empty_parens()) {
        Ok(Seq::empty())
    } else {
        let (init, inner) = split_inner(s);
        let t = trimmed(inner);
        let (r, q) = grammar::sp_arg_list(t);
        match r {
            Ok(args) => if args.len() == n {
                Ok(args.map_values(|a: Argument| trimmed(crate::interpret::arg_text(t, a))))
            } else {
                Err(ArgError::CountMismatch(n as u8, count_byte(args.len() as int)))
            },
            Err(x) => Err(ArgError::ArgParse(err_of(x), (init + skip_spaces(t, q)) as u32)),
        }
    }
}

/// The trimmed text of each argument of `args`, in `t`.
fn trimmed_args<'i>(t: &'i [u8], args: &Vec<Argument>) -> (out: Vec<&'i [u8]>)
    ensures
        out@.map_values(|x: &[u8]| x@) =~= args@.map_values(
            |a: Argument| trimmed(crate::interpret::arg_text(t@, a)),
        ),
{
    let mut out: Vec<&'i [u8]> = Vec::new();
    let mut k: usize = 0;
    while k < args.len()
        invariant
            k <= args@.len(),
            out@.map_values(|x: &[u8]| x@) =~= args@.take(k as int).map_values(
                |a: Argument| trimmed(crate::interpret::arg_text(t@, a)),
            ),
        decreases args@.len() - k,
    {
        let text = crate::interpret::read_arg(t, args[k]);
        let (x, y) = trim_ws(text);
        proof {
            lemma_trim_bounds(text@);
        }
        let piece = &text[x..y];
        assert(piece@ == trimmed(crate::interpret::arg_text(t@, args@[k as int])));
        let ghost before = out@;
        out.push(piece);
        assert(args@.take(k + 1) =~= args@.take(k as int).push(args@[k as int]));
        assert(out@ == before.push(piece));
        assert(out@.map_values(|x: &[u8]| x@) =~= before.map_values(|x: &[u8]| x@).push(piece@));
        k = k + 1;
    }
    assert(args@.take(args@.len() as int) =~= args@);
    out
}

/// The pieces of a successful split of valid UTF-8 are valid UTF-8.
proof fn lemma_pieces_utf8(s: Seq<u8>, n: int, pieces: Seq<&[u8]>)
    requires
        vstd::utf8::valid_utf8(s),
        s.len() <= u32::MAX,
        sp_split(s, n) == Ok::<Seq<Seq<u8>>, ArgError>(pieces.map_values(|x: &[u8]| x@)),
    ensures
        forall|j: int| 0 <= j < pieces.len() ==> vstd::utf8::valid_utf8(#[trigger] pieces[j]@),
{
    lemma_split_utf8(s, n);
    let texts = sp_split(s, n)->Ok_0;
    assert forall|j: int| 0 <= j < pieces.len() implies vstd::utf8::valid_utf8(
        #[trigger] pieces[j]@,
    ) by {
        assert(texts[j] == pieces[j]@);
    }
}

/// The pieces of valid UTF-8 as strings.
fn utf8_pieces<'i>(pieces: Vec<&'i [u8]>) -> (out: Vec<&'i str>)
    requires
        forall|j: int| 0 <= j < pieces@.len() ==> vstd::utf8::valid_utf8(#[trigger] pieces@[j]@),
    ensures
        out@.map_values(|x: &str| x.spec_bytes()) =~= pieces@.map_values(|x: &[u8]| x@),
{
    let ghost texts = pieces@.map_values(|x: &[u8]| x@);
    let mut out: Vec<&'i str> = Vec::new();
    let mut k: usize = 0;
    while k < pieces.len()
        invariant
            k <= pieces@.len(),
            texts == pieces@.map_values(|x: &[u8]| x@),
            forall|j: int| 0 <= j < pieces@.len() ==> vstd::utf8::valid_utf8(#[trigger] pieces@[j]@),
            out@.map_values(|x: &str| x.spec_bytes()) =~= texts.take(k as int),
        decreases pieces@.len() - k,
    {
        assert(texts[k as int] == pieces@[k as int]@);
        let text = match str_from_utf8(pieces[k]) {
            Some(text) => text,
            None => {
                proof {
                    assert(false);
                }
                return out;
            },
        };
        let ghost before = out@;
        out.push(text);
        assert(out@.map_values(|x: &str| x.spec_bytes()) =~= before.map_values(
            |x: &str| x.spec_bytes(),
        ).push(text.spec_bytes()));
        assert(texts.take(k + 1) =~= texts.take(k as int).push(texts[k as int]));
        k = k + 1;
    }
    assert(texts.take(pieces@.len() as int) =~= texts);
    out
}

/// Split `input` into `n` arguments, on commas.
///
/// Commas split at the top level only: not within `()`, `[]`, `{}` or
/// string literals. When `input` is within parentheses, they are removed.
/// Each argument is trimmed of white space; quotes and backslashes are kept
/// as they are.
///
/// Fails when the arguments are not exactly `n`, or contain unbalanced
/// delimiters outside of string literals.
pub fn split<'i>(input: &'i str, n: usize) -> (r: Result<Vec<&'i str>, ArgError>)
    requires
        n <= 255,
        input.spec_bytes().len() <= u32::MAX,
    ensures
        match r {
            Ok(v) => sp_split(input.spec_bytes(), n as int) == Ok::<Seq<Seq<u8>>, ArgError>(
                v@.map_values(|x: &str| x.spec_bytes()),
            ),
            Err(e) => sp_split(input.spec_bytes(), n as int) == Err::<Seq<Seq<u8>>, ArgError>(e),
        },
{
    let bytes = input.as_bytes();
    let ghost s = bytes@;
    let len = bytes.len();
    if n == 0 && (len == 0 || (len == 2 && bytes[0] == 0x28 && bytes[1] == 0x29)) {
        proof {
            if len == 2 {
                assert(s =~= empty_parens());
            }
        }
        let out: Vec<&'i str> = Vec::new();
        assert(out@.map_values(|x: &str| x.spec_bytes()) =~= Seq::empty());
        return Ok(out);
    }
    proof {
        if s == empty_parens() {
            assert(s.len() == 2 && s[0] == 0x28 && s[1] == 0x29);
        }
    }
    let (init, inner): (u32, &[u8]) = if len >= 2 && bytes[0] == 0x28 && bytes[len - 1] == 0x29 {
        (1, &bytes[1..len - 1])
    } else {
        (0, bytes)
    };
    let (a, b) = trim_ws(inner);
    proof {
        lemma_trim_bounds(inner@);
    }
    let t = &inner[a..b];
    let mut stream = Input::new(t, ());
    match grammar::arg_list(&mut stream) {
        Ok(args) => {
            if args.len() != n {
                return Err(ArgError::count_mismatch(n as u8, args.len()));
            }
            let pieces = trimmed_args(t, &args);
            proof {
                vstd::utf8::encode_utf8_valid_utf8(input@);
                lemma_pieces_utf8(s, n as int, pieces@);
            }
            let out = utf8_pieces(pieces);
            Ok(out)
        },
        Err(x) => {
            let offset = stream.next_start();
            let err = match x {
                ErrMode::Backtrack(e) => e,
                ErrMode::Cut(e) => e,
            };
            proof {
                stream.lemma_wf();
                lex::lemma_skip_spaces_bounds(t@, stream.offset());
            }
            Err(ArgError::ArgParse(err, init + offset))
        },
    }
}

// ---------------------------------------------------------------------------
// Escapes
// ---------------------------------------------------------------------------

/// Byte `k` (0 to 3) of `x`.
pub open spec fn byte_of(x: u32, k: u32) -> u32 {
    (x >> (8 * k)) & 0xff
}

/// Whether one of the four bytes of `x` is zero.
pub open spec fn has_zero_byte(x: u32) -> bool {
    exists|k: u32| k < 4 && #[trigger] byte_of(x, k) == 0
}

/// Whether one of the four bytes of `xored` is zero.
pub fn contains_swar(xored: u32) -> (r: bool)
    ensures
        r == has_zero_byte(xored),
{
    let mut x = xored;
    let mut ret = false;
    let mut i: u32 = 0;
    assert(xored == xored >> 0u32) by (bit_vector);
    while i < 4
        invariant
            i <= 4,
            x == xored >> ((8 * i) as u32),
            ret == exists|k: u32| k < i && #[trigger] byte_of(xored, k) == 0,
        decreases 4 - i,
    {
        assert(x & 0xff == byte_of(xored, i)) by (bit_vector)
            requires
                x == xored >> ((8 * i) as u32),
                i < 4,
        ;
        assert((x >> 8u32) == xored >> ((8 * (i + 1)) as u32)) by (bit_vector)
            requires
                x == xored >> ((8 * i) as u32),
                i < 4,
        ;
        ret = ret || (x & 0xff == 0);
        x = x >> 8;
        i = i + 1;
    }
    ret
}

/// Four bytes as a little endian number.
pub open spec fn le_word(a: u8, b: u8, c: u8, d: u8) -> u32 {
    (a as u32) | ((b as u32) << 8u32) | ((c as u32) << 16u32) | ((d as u32) << 24u32)
}

proof fn lemma_xor_word(a: u8, b: u8, c: u8, d: u8, w: u8)
    ensures
        has_zero_byte(le_word(a, b, c, d) ^ le_word(w, w, w, w)) == (a == w || b == w || c == w
            || d == w),
{
    let x = le_word(a, b, c, d) ^ le_word(w, w, w, w);
    assert(byte_of(x, 0) == 0 <==> a == w) by (bit_vector)
        requires
            x == le_word(a, b, c, d) ^ le_word(w, w, w, w),
    ;
    assert(byte_of(x, 1) == 0 <==> b == w) by (bit_vector)
        requires
            x == le_word(a, b, c, d) ^ le_word(w, w, w, w),
    ;
    assert(byte_of(x, 2) == 0 <==> c == w) by (bit_vector)
        requires
            x == le_word(a, b, c, d) ^ le_word(w, w, w, w),
    ;
    assert(byte_of(x, 3) == 0 <==> d == w) by (bit_vector)
        requires
            x == le_word(a, b, c, d) ^ le_word(w, w, w, w),
    ;
    if has_zero_byte(x) {
        let k = choose|k: u32| k < 4 && #[trigger] byte_of(x, k) == 0;
        assert(k == 0 || k == 1 || k == 2 || k == 3);
    }
}

/// Whether `check` contains `what`, comparing four bytes at a time.
pub fn fast_contains(check: &[u8], what: u8) -> (r: bool)
    ensures
        r == check@.contains(what),
{
    let mask = (what as u32) | ((what as u32) << 8) | ((what as u32) << 16) | ((what as u32) << 24);
    let mut i: usize = 0;
    while check.len() - i >= 4
        invariant
            i <= check@.len(),
            mask == le_word(what, what, what, what),
            forall|j: int| 0 <= j < i ==> check@[j] != what,
        decreases check@.len() - i,
    {
        let (a, b, c, d) = (check[i], check[i + 1], check[i + 2], check[i + 3]);
        let word = (a as u32) | ((b as u32) << 8) | ((c as u32) << 16) | ((d as u32) << 24);
        proof {
            lemma_xor_word(a, b, c, d, what);
        }
        if contains_swar(word ^ mask) {
            assert(check@[i as int] == what || check@[i + 1] == what || check@[i + 2] == what
                || check@[i + 3] == what);
            return true;
        }
        i = i + 4;
    }
    while i < check.len()
        invariant
            i <= check@.len(),
            forall|j: int| 0 <= j < i ==> check@[j] != what,
        decreases check@.len() - i,
    {
        if check[i] == what {
            assert(check@[i as int] == what);
            return true;
        }
        i = i + 1;
    }
    false
}

/// The bytes of `s` with backslash escapes applied, `prev_bs` telling
/// whether the byte before `s` was an escaping backslash: an escaping
/// backslash is removed, `\n`, `\t` and `\r` become a newline, a tab and a
/// carriage return, any other escaped byte is kept as it is.
pub open spec fn unescape(s: Seq<u8>, prev_bs: bool) -> Seq<u8>
    decreases s.len(),
{
    if s.len() == 0 {
        Seq::empty()
    } else {
        let c0 = s[0];
        let c = if prev_bs && c0 == 0x6e {
            0x0au8
        } else if prev_bs && c0 == 0x74 {
            0x09u8
        } else if prev_bs && c0 == 0x72 {
            0x0du8
        } else {
            c0
        };
        let is_bs = c == 0x5c;
        let keep = !is_bs || prev_bs;
        let rest = unescape(s.skip(1), !keep && is_bs);
        if keep {
            seq![c] + rest
        } else {
            rest
        }
    }
}

/// Backslash escapes of `to_escape` applied.
fn owned_escape(to_escape: &[u8]) -> (r: Vec<u8>)
    ensures
        r@ == unescape(to_escape@, false),
{
    let mut ret: Vec<u8> = Vec::new();
    let mut prev_bs = false;
    let mut i: usize = 0;
    assert(to_escape@.skip(0) =~= to_escape@);
    assert(ret@ + unescape(to_escape@, false) =~= unescape(to_escape@, false));
    while i < to_escape.len()
        invariant
            i <= to_escape@.len(),
            ret@ + unescape(to_escape@.skip(i as int), prev_bs) == unescape(to_escape@, false),
        decreases to_escape@.len() - i,
    {
        let c0 = to_escape[i];
        let c = if prev_bs && c0 == 0x6e {
            0x0a
        } else if prev_bs && c0 == 0x74 {
            0x09
        } else if prev_bs && c0 == 0x72 {
            0x0d
        } else {
            c0
        };
        let is_bs = c == 0x5c;
        let keep = !is_bs || prev_bs;
        let ghost before = ret@;
        let ghost old_prev = prev_bs;
        if keep {
            ret.push(c);
        }
        prev_bs = !keep && is_bs;
        proof {
            let rest = to_escape@.skip(i as int);
            assert(rest[0] == c0);
            assert(rest.skip(1) =~= to_escape@.skip(i + 1));
            if keep {
                assert(before + unescape(rest, old_prev) =~= ret@ + unescape(
                    to_escape@.skip(i + 1),
                    prev_bs,
                ));
            }
        }
        i = i + 1;
    }
    assert(to_escape@.skip(to_escape@.len() as int) =~= Seq::<u8>::empty());
    assert(ret@ + Seq::<u8>::empty() =~= ret@);
    ret
}

proof fn lemma_unescape_plain(s: Seq<u8>)
    requires
        !s.contains(0x5c),
    ensures
        unescape(s, false) == s,
    decreases s.len(),
{
    if s.len() > 0 {
        assert(s[0] != 0x5c);
        assert forall|i: int| 0 <= i < s.skip(1).len() implies s.skip(1)[i] != 0x5c by {
            assert(s.skip(1)[i] == s[i + 1]);
        }
        lemma_unescape_plain(s.skip(1));
        assert(seq![s[0]] + s.skip(1) =~= s);
    }
}

/// Apply the backslash escapes of `to_escape` (see [`unescape`]).
///
/// Without backslash, `to_escape` is returned as it is.
pub fn escape_literal<'a>(to_escape: &'a [u8]) -> (r: std::borrow::Cow<'a, [u8]>)
    ensures
        r@ == unescape(to_escape@, false),
        (r is Borrowed) == !to_escape@.contains(0x5c),
{
    if fast_contains(to_escape, 0x5c) {
        std::borrow::Cow::Owned(owned_escape(to_escape))
    } else {
        proof {
            lemma_unescape_plain(to_escape@);
        }
        std::borrow::Cow::Borrowed(to_escape)
    }
}

/// `input` without the double quotes around it, when it is quoted (at
/// least two bytes, a `"` at each end).
pub open spec fn unquoted(input: Seq<u8>) -> Seq<u8> {
    if input.len() >= 2 && input[0] == 0x22 && input[input.len() - 1] == 0x22 {
        input.subrange(1, input.len() - 1)
    } else {
        input
    }
}

/// `input` with the quotes around it removed and backslash escapes
/// applied.
pub open spec fn spec_interpret_str(input: Seq<u8>) -> Seq<u8> {
    unescape(unquoted(input), false)
}

/// Unescaping `s` when it starts with `k` bytes that are not ASCII: they
/// are kept as they are.
proof fn lemma_unescape_high(s: Seq<u8>, prev: bool, k: int)
    requires
        1 <= k <= s.len(),
        forall|i: int| 0 <= i < k ==> s[i] >= 0x80,
    ensures
        unescape(s, prev) == s.take(k) + unescape(s.skip(k), false),
    decreases k,
{
    assert(s[0] >= 0x80);
    assert(unescape(s, prev) == seq![s[0]] + unescape(s.skip(1), false));
    if k > 1 {
        let t = s.skip(1);
        assert forall|i: int| 0 <= i < k - 1 implies t[i] >= 0x80 by {
            assert(t[i] == s[i + 1]);
        }
        lemma_unescape_high(t, false, k - 1);
        assert(t.skip(k - 1) =~= s.skip(k));
        assert(seq![s[0]] + t.take(k - 1) =~= s.take(k));
    } else {
        assert(s.take(1) =~= seq![s[0]]);
    }
}

/// A single ASCII byte is valid UTF-8.
proof fn lemma_ascii_utf8(c: u8)
    requires
        c < 0x80,
    ensures
        vstd::utf8::valid_utf8(seq![c]),
{
    assert(c & 0x7f == c) by (bit_vector)
        requires
            c < 0x80,
    ;
    reveal_with_fuel(vstd::utf8::valid_utf8, 2);
    assert(seq![c][0] == c);
    assert(vstd::utf8::pop_first_scalar(seq![c]) =~= Seq::<u8>::empty());
}

/// Escapes keep text valid UTF-8: they only remove or replace ASCII bytes.
pub proof fn lemma_unescape_utf8(s: Seq<u8>, prev: bool)
    requires
        vstd::utf8::valid_utf8(s),
    ensures
        vstd::utf8::valid_utf8(unescape(s, prev)),
    decreases s.len(),
{
    if s.len() > 0 {
        let l = vstd::utf8::length_of_first_scalar(s);
        if s[0] < 0x80 {
            assert(vstd::utf8::pop_first_scalar(s) =~= s.skip(1));
            let c0 = s[0];
            let c = if prev && c0 == 0x6e {
                0x0au8
            } else if prev && c0 == 0x74 {
                0x09u8
            } else if prev && c0 == 0x72 {
                0x0du8
            } else {
                c0
            };
            let is_bs = c == 0x5c;
            let keep = !is_bs || prev;
            lemma_unescape_utf8(s.skip(1), !keep && is_bs);
            if keep {
                lemma_ascii_utf8(c);
                vstd::utf8::valid_utf8_concat(seq![c], unescape(s.skip(1), !keep && is_bs));
            }
        } else {
            assert(l >= 2);
            assert forall|i: int| 0 <= i < l implies s[i] >= 0x80 by {
                assert(vstd::utf8::is_continuation_byte(s[1]));
                if l >= 3 {
                    assert(vstd::utf8::is_continuation_byte(s[2]));
                }
                if l >= 4 {
                    assert(vstd::utf8::is_continuation_byte(s[3]));
                }
            }
            lemma_unescape_high(s, prev, l);
            assert(vstd::utf8::is_char_boundary(s, l)) by {
                reveal_with_fuel(vstd::utf8::is_char_boundary, 2);
            }
            vstd::utf8::valid_utf8_split(s, l);
            assert(s.skip(l) =~= s.subrange(l, s.len() as int));
            assert(s.take(l) =~= s.subrange(0, l));
            lemma_unescape_utf8(s.skip(l), false);
            vstd::utf8::valid_utf8_concat(s.take(l), unescape(s.skip(l), false));
        }
    }
}

/// Reading a string argument keeps text valid UTF-8.
pub proof fn lemma_interpret_str_utf8(input: Seq<u8>)
    requires
        vstd::utf8::valid_utf8(input),
    ensures
        vstd::utf8::valid_utf8(spec_interpret_str(input)),
{
    let n = input.len();
    if n >= 2 && input[0] == 0x22 && input[n - 1] == 0x22 {
        let t = input.subrange(1, n as int);
        assert(vstd::utf8::pop_first_scalar(input) =~= t);
        vstd::utf8::is_char_boundary_iff_not_is_continuation_byte(t, t.len() - 1);
        vstd::utf8::valid_utf8_split(t, t.len() - 1);
        assert(t.subrange(0, t.len() - 1) =~= input.subrange(1, n - 1));
        lemma_unescape_utf8(input.subrange(1, n - 1), false);
    } else {
        lemma_unescape_utf8(input, false);
    }
}

/// `input` with its quotes removed and backslash escapes applied (see
/// [`spec_interpret_str`]). It is borrowed from `input` unless a backslash
/// is used, in which case it is allocated.
pub fn interpret_str<'a>(input: &'a str) -> (r: std::borrow::Cow<'a, str>)
    ensures
        r@ == vstd::utf8::decode_utf8(spec_interpret_str(input.spec_bytes())),
        (r is Borrowed) == !unquoted(input.spec_bytes()).contains(0x5c),
{
    let bytes = input.as_bytes();
    let len = bytes.len();
    let inner = if len >= 2 && bytes[0] == 0x22 && bytes[len - 1] == 0x22 {
        &bytes[1..len - 1]
    } else {
        bytes
    };
    proof {
        vstd::utf8::encode_utf8_valid_utf8(input@);
        lemma_interpret_str_utf8(bytes@);
    }
    match escape_literal(inner) {
        std::borrow::Cow::Borrowed(text) => match str_from_utf8(text) {
            Some(text) => std::borrow::Cow::Borrowed(text),
            None => {
                proof {
                    assert(false);
                }
                std::borrow::Cow::Borrowed(input)
            },
        },
        std::borrow::Cow::Owned(text) => match string_from_utf8(text) {
            Some(text) => std::borrow::Cow::Owned(text),
            None => {
                proof {
                    assert(false);
                }
                std::borrow::Cow::Borrowed(input)
            },
        },
    }
}

/// Parse a string argument: quotes removed, escapes applied. Never fails;
/// allocates only when a backslash is used.
pub fn quoted<'a>(input: &'a str) -> (r: Result<std::borrow::Cow<'a, str>, ArgumentError>)
    ensures
        r matches Ok(text) && text@ == vstd::utf8::decode_utf8(spec_interpret_str(input.spec_bytes()))
            && (text is Borrowed) == !unquoted(input.spec_bytes()).contains(0x5c),
{
    Ok(interpret_str(input))
}

/// `input` without the double quotes around it when it is quoted and longer
/// than two bytes; otherwise `input` itself. No escape is applied.
pub open spec fn spec_maybe_quoted(input: Seq<u8>) -> Seq<u8> {
    if input.len() > 2 && input[0] == 0x22 && input[input.len() - 1] == 0x22 {
        input.subrange(1, input.len() - 1)
    } else {
        input
    }
}

/// A string argument taken as it is written: the quotes around it, if any,
/// are removed (an input of two bytes keeps them), escapes are left as they
/// are. Never fails, never allocates.
pub fn maybe_quoted<'a>(input: &'a str) -> (r: Result<&'a str, ArgumentError>)
    ensures
        r matches Ok(text) && text.spec_bytes() == spec_maybe_quoted(input.spec_bytes()),
{
    let bytes = input.as_bytes();
    let len = bytes.len();
    if len > 2 && bytes[0] == 0x22 && bytes[len - 1] == 0x22 {
        proof {
            vstd::utf8::encode_utf8_valid_utf8(input@);
            lex::lemma_edge_slice_utf8(bytes@, 1, len - 1);
        }
        match str_from_utf8(&bytes[1..len - 1]) {
            Some(text) => Ok(text),
            None => {
                proof {
                    assert(false);
                }
                Ok(input)
            },
        }
    } else {
        Ok(input)
    }
}

/// `std::str::from_utf8`: the bytes as a string when they are valid UTF-8.
#[verifier::external_body]
pub(crate) fn str_from_utf8(bytes: &[u8]) -> (r: Option<&str>)
    ensures
        r is Some <==> vstd::utf8::valid_utf8(bytes@),
        r matches Some(s) ==> s.spec_bytes() == bytes@ && s@ == vstd::utf8::decode_utf8(bytes@),
{
    std::str::from_utf8(bytes).ok()
}

/// `String::from_utf8`: the bytes as a string when they are valid UTF-8.
#[verifier::external_body]
fn string_from_utf8(bytes: Vec<u8>) -> (r: Option<String>)
    ensures
        r is Some <==> vstd::utf8::valid_utf8(bytes@),
        r matches Some(s) ==> s@ == vstd::utf8::decode_utf8(bytes@),
{
    String::from_utf8(bytes).ok()
}

/// An invalid number of arguments was passed to a method.
#[derive(Debug, Clone, Copy, PartialEq, Eq, Structural)]
pub struct ArgumentError {
    /// Number of arguments the method expects.
    pub expected: usize,
    /// Number of arguments passed to the method.
    pub got: usize,
}

/// The method called does not exist.
pub struct DslParseError {
    method: String,
}

impl DslParseError {
    /// The method `method` does not exist.
    pub fn new(method: &str) -> (r: Self)
        ensures
            r.method()@ == method@,
    {
        DslParseError { method: method.to_owned() }
    }

    pub closed spec fn method(&self) -> String {
        self.method
    }

    /// The name of the missing method.
    pub fn method_name(&self) -> (r: &str)
        ensures
            r@ == self.method()@,
    {
        self.method.as_str()
    }

    /// The error message: `No '<method>' method`.
    pub fn message(&self) -> (r: String)
        ensures
            r@ == "No '"@ + self.method()@ + "' method"@,
    {
        let mut text = String::from_str("No '");
        text.append(self.method.as_str());
        text.append("' method");
        text
    }
}

// ---------------------------------------------------------------------------
// Method arguments
// ---------------------------------------------------------------------------

/// Where the arguments of a method come from.
pub enum ArgumentsInner<'i, 'a> {
    /// The arguments of a method call in a chirp file.
    Parser(&'a crate::interpret::Arguments<'i, 'a>),
    /// The single argument of the `named` method, the entity name.
    Named(std::borrow::Cow<'i, [u8]>),
}

/// The arguments passed to a method.
pub struct Arguments<'i, 'a>(pub ArgumentsInner<'i, 'a>);

/// The text of the entity name `name`: a quoted name (`"…"` or `'…'`) has
/// its quotes removed and escapes applied.
pub open spec fn name_text(name: Seq<u8>) -> Seq<u8> {
    if name.len() >= 2 && ((name[0] == 0x22 && name[name.len() - 1] == 0x22) || (name[0] == 0x27
        && name[name.len() - 1] == 0x27)) {
        unescape(name.subrange(1, name.len() - 1), false)
    } else {
        name
    }
}

impl<'i, 'a> Arguments<'i, 'a> {
    /// The texts of the arguments.
    pub open spec fn texts(&self) -> Seq<Seq<u8>> {
        match self.0 {
            ArgumentsInner::Parser(p) => p.method_args@.map_values(
                |a: Argument|
                    crate::interpret::arg_text(
                        p.input@,
                        crate::interpret::substitute(p.input@, p.parameters@, a),
                    ),
            ),
            ArgumentsInner::Named(n) => seq![n@],
        }
    }

    /// The well formed arguments: their input fits offsets.
    pub open spec fn wf(&self) -> bool {
        match self.0 {
            ArgumentsInner::Parser(p) => p.input@.len() <= u32::MAX,
            ArgumentsInner::Named(_) => true,
        }
    }

    /// The arguments of the method call `args`.
    pub fn from_parser(args: &'a crate::interpret::Arguments<'i, 'a>) -> (r: Self)
        ensures
            r.0 == ArgumentsInner::Parser(args),
    {
        Arguments(ArgumentsInner::Parser(args))
    }

    /// The argument of `named`, for the entity name `name`.
    pub fn for_name(name: &'i [u8]) -> (r: Self)
        ensures
            r.texts() == seq![name_text(name@)],
    {
        let len = name.len();
        let quoted = len >= 2 && ((name[0] == 0x22 && name[len - 1] == 0x22) || (name[0] == 0x27
            && name[len - 1] == 0x27));
        let name = if quoted {
            escape_literal(&name[1..len - 1])
        } else {
            std::borrow::Cow::Borrowed(name)
        };
        Arguments(ArgumentsInner::Named(name))
    }

    /// Whether no argument was passed.
    pub fn is_empty(&self) -> (r: bool)
        ensures
            r == (self.texts().len() == 0),
    {
        self.len() == 0
    }

    /// How many arguments were passed.
    pub fn len(&self) -> (r: usize)
        ensures
            r == self.texts().len(),
    {
        match &self.0 {
            ArgumentsInner::Parser(p) => p.len(),
            ArgumentsInner::Named(_) => 1,
        }
    }

    /// The text of argument `index`, template parameters replaced.
    pub fn get(&self, index: usize) -> (r: Option<&[u8]>)
        requires
            self.wf(),
        ensures
            index < self.texts().len() ==> (r matches Some(text) && text@ == self.texts()[index as int]),
            index >= self.texts().len() ==> r is None,
    {
        match &self.0 {
            ArgumentsInner::Parser(p) => p.get(index),
            ArgumentsInner::Named(n) => if index == 0 {
                match n {
                    std::borrow::Cow::Borrowed(b) => Some(*b),
                    std::borrow::Cow::Owned(v) => Some(v.as_slice()),
                }
            } else {
                None
            },
        }
    }

    /// The text of argument `index` as a string, invalid UTF-8 replaced. It
    /// is borrowed exactly when the argument is valid UTF-8.
    pub fn get_str(&self, index: usize) -> (r: Option<std::borrow::Cow<'_, str>>)
        requires
            self.wf(),
        ensures
            index < self.texts().len() ==> (r matches Some(text) && text@ == utf8_lossy(
                self.texts()[index as int],
            ) && ((text is Borrowed) == vstd::utf8::valid_utf8(self.texts()[index as int])) && (
            vstd::utf8::valid_utf8(self.texts()[index as int]) ==> text@ == vstd::utf8::decode_utf8(
                self.texts()[index as int],
            ))),
            index >= self.texts().len() ==> r is None,
    {
        match self.get(index) {
            Some(bytes) => Some(from_utf8_lossy(bytes)),
            None => None,
        }
    }
}

/// The string that `String::from_utf8_lossy` makes of `bytes`.
pub uninterp spec fn utf8_lossy(bytes: Seq<u8>) -> Seq<char>;

/// `String::from_utf8_lossy`: `bytes` decoded as UTF-8, invalid sequences
/// replaced by U+FFFD. The replacement rules are named, not stated: the
/// result depends on `bytes` alone. Valid UTF-8 comes back borrowed, as
/// the decoded text; anything else is allocated.
#[verifier::external_body]
fn from_utf8_lossy<'b>(bytes: &'b [u8]) -> (r: std::borrow::Cow<'b, str>)
    ensures
        r@ == utf8_lossy(bytes@),
        (r is Borrowed) == vstd::utf8::valid_utf8(bytes@),
        vstd::utf8::valid_utf8(bytes@) ==> r@ == vstd::utf8::decode_utf8(bytes@),
{
    String::from_utf8_lossy(bytes)
}

// ---------------------------------------------------------------------------
// Laws
// ---------------------------------------------------------------------------

/// A successful split has exactly as many arguments as asked for.
pub proof fn lemma_split_count(s: Seq<u8>, n: int)
    ensures
        sp_split(s, n) matches Ok(args) ==> args.len() == n,
{
}

proof fn lemma_trim_start_stops(s: Seq<u8>, i: int)
    requires
        0 <= i <= s.len(),
    ensures
        trim_start_from(s, i) == s.len() || ws_len_at(s, trim_start_from(s, i)) == 0,
    decreases s.len() - i,
{
    if i < s.len() && ws_len_at(s, i) > 0 {
        lemma_trim_start_stops(s, i + ws_len_at(s, i));
    }
}

proof fn lemma_trim_end_stops(s: Seq<u8>, lo: int, j: int)
    requires
        0 <= lo <= j <= s.len(),
    ensures
        trim_end_from(s, lo, j) == lo || ws_len_before(s, lo, trim_end_from(s, lo, j)) == 0,
    decreases j - lo,
{
    if lo < j && ws_len_before(s, lo, j) > 0 {
        lemma_trim_end_stops(s, lo, j - ws_len_before(s, lo, j));
    }
}

/// Trimmed text neither starts nor ends with a white space character.
pub proof fn lemma_trimmed(s: Seq<u8>)
    ensures
        ws_len_at(trimmed(s), 0) == 0,
        ws_len_before(trimmed(s), 0, trimmed(s).len() as int) == 0,
{
    lemma_trim_bounds(s);
    let (a, b) = trim_bounds(s);
    lemma_trim_start_stops(s, 0);
    lemma_trim_end_stops(s, a, s.len() as int);
    let t = trimmed(s);
    assert(t.len() == b - a);
    if t.len() > 0 {
        assert(a < s.len());
        assert(forall|k: int| 0 <= k < t.len() ==> t[k] == s[a + k]);
        assert(ws_len_at(s, a) == 0);
        assert(ws_len_before(s, a, b) == 0);
    }
}

/// Every argument of a successful split is trimmed of white space.
pub proof fn lemma_split_trimmed(s: Seq<u8>, n: int, k: int)
    requires
        sp_split(s, n) is Ok,
        0 <= k < sp_split(s, n)->Ok_0.len(),
    ensures
        ws_len_at(sp_split(s, n)->Ok_0[k], 0) == 0,
        ws_len_before(sp_split(s, n)->Ok_0[k], 0, sp_split(s, n)->Ok_0[k].len() as int) == 0,
{
    let (init, inner) = split_inner(s);
    let t = trimmed(inner);
    if !(n == 0 && (s.len() == 0 || s == empty_parens())) {
        let args = grammar::sp_arg_list(t).0->Ok_0;
        lemma_trimmed(crate::interpret::arg_text(t, args[k]));
    }
}


proof fn lemma_trim_start_utf8(s: Seq<u8>, i: int)
    requires
        0 <= i <= s.len(),
        vstd::utf8::valid_utf8(s.subrange(i, s.len() as int)),
    ensures
        vstd::utf8::valid_utf8(s.subrange(trim_start_from(s, i), s.len() as int)),
    decreases s.len() - i,
{
    if i < s.len() && ws_len_at(s, i) > 0 {
        let k = ws_len_at(s, i);
        let r = s.subrange(i, s.len() as int);
        assert(r[0] == s[i]);
        if k >= 2 {
            assert(r[1] == s[i + 1]);
        }
        if k >= 3 {
            assert(r[2] == s[i + 2]);
        }
        assert(vstd::utf8::length_of_first_scalar(r) == k);
        assert(vstd::utf8::pop_first_scalar(r) =~= s.subrange(i + k, s.len() as int));
        lemma_trim_start_utf8(s, i + k);
    }
}

proof fn lemma_trim_end_utf8(s: Seq<u8>, lo: int, j: int)
    requires
        0 <= lo <= j <= s.len(),
        vstd::utf8::valid_utf8(s.subrange(lo, j)),
    ensures
        vstd::utf8::valid_utf8(s.subrange(lo, trim_end_from(s, lo, j))),
    decreases j - lo,
{
    if lo < j && ws_len_before(s, lo, j) > 0 {
        let k = ws_len_before(s, lo, j);
        let u = s.subrange(lo, j);
        let m = j - lo;
        assert(u[m - k] == s[j - k]);
        vstd::utf8::is_char_boundary_iff_not_is_continuation_byte(u, m - k);
        vstd::utf8::valid_utf8_split(u, m - k);
        assert(u.subrange(0, m - k) =~= s.subrange(lo, j - k));
        lemma_trim_end_utf8(s, lo, j - k);
    }
}

/// Trimming white space keeps text valid UTF-8.
pub proof fn lemma_trimmed_utf8(s: Seq<u8>)
    requires
        vstd::utf8::valid_utf8(s),
    ensures
        vstd::utf8::valid_utf8(trimmed(s)),
{
    assert(s.subrange(0, s.len() as int) =~= s);
    lemma_trim_start_utf8(s, 0);
    lemma_trim_bounds(s);
    let (a, b) = trim_bounds(s);
    lemma_trim_end_utf8(s, a, s.len() as int);
}

/// Splitting valid UTF-8 gives valid UTF-8 arguments: they are cut next
/// to ASCII bytes and trimmed of whole white space characters.
pub proof fn lemma_split_utf8(s: Seq<u8>, n: int)
    requires
        vstd::utf8::valid_utf8(s),
        s.len() <= u32::MAX,
    ensures
        sp_split(s, n) matches Ok(args) ==> forall|k: int|
            0 <= k < args.len() ==> vstd::utf8::valid_utf8(#[trigger] args[k]),
{
    if !(n == 0 && (s.len() == 0 || s == empty_parens())) {
        let (init, inner) = split_inner(s);
        if s.len() >= 2 && s[0] == 0x28 && s[s.len() - 1] == 0x29 {
            lex::lemma_edge_slice_utf8(s, 1, s.len() - 1);
        }
        lemma_trimmed_utf8(inner);
        let t = trimmed(inner);
        lemma_trim_bounds(inner);
        grammar::lemma_arg_list_edges(t);
        if let Ok(args) = grammar::sp_arg_list(t).0 {
            if args.len() == n {
                assert forall|k: int| 0 <= k < args.len() implies vstd::utf8::valid_utf8(
                    trimmed(crate::interpret::arg_text(t, #[trigger] args[k])),
                ) by {
                    let a = args[k];
                    assert(grammar::arg_edges(t, a));
                    if a.start <= a.end <= t.len() {
                        lex::lemma_edge_slice_utf8(t, a.start as int, a.end as int);
                    }
                    lemma_trimmed_utf8(crate::interpret::arg_text(t, a));
                }
            }
        }
    }
}

} // verus!

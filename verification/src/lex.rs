//! The chirp lexer: splits a byte slice into [`Token`]s.
//!
//! The lexer recognizes single-byte punctuation (`=(){}[],`), quoted string
//! literals (`"..."` and `'...'`, with backslash escapes), identifiers (any run
//! of bytes that are neither punctuation, quotes nor spaces) and skips spaces
//! and `//` line comments.
//!
//! All lexing functions work on a byte slice and an index into it. The
//! behaviour of the lexer is stated by the spec function [`lex`].
use vstd::prelude::*;

verus! {

// ---------------------------------------------------------------------------
// Byte classes
// ---------------------------------------------------------------------------

/// Bytes that are recognized specially by the lexer, in order.
pub const RECOGNIZED_SYMBOL_COUNT: usize = 15;

/// Class of a single byte, as seen by the lexer.
#[derive(Clone, Copy, Debug, PartialEq, Eq, Structural)]
pub enum Recognized {
    Equal,
    Lparen,
    Rparen,
    Lcurly,
    Rcurly,
    Lbracket,
    Rbracket,
    Comma,
    Quote,
    Apostrophe,
    Slash,
    Space,
    Ident,
}

/// The class of byte `x`.
pub open spec fn spec_recognize(x: u8) -> Recognized {
    if x == 0x3d {
        Recognized::Equal
    } else if x == 0x28 {
        Recognized::Lparen
    } else if x == 0x29 {
        Recognized::Rparen
    } else if x == 0x7b {
        Recognized::Lcurly
    } else if x == 0x7d {
        Recognized::Rcurly
    } else if x == 0x5b {
        Recognized::Lbracket
    } else if x == 0x5d {
        Recognized::Rbracket
    } else if x == 0x2c {
        Recognized::Comma
    } else if x == 0x22 {
        Recognized::Quote
    } else if x == 0x27 {
        Recognized::Apostrophe
    } else if x == 0x2f {
        Recognized::Slash
    } else if x == 0x20 || x == 0x0a || x == 0x09 || x == 0x0d {
        Recognized::Space
    } else {
        Recognized::Ident
    }
}

/// A byte that may continue an identifier (this includes `/`).
pub open spec fn is_ident_byte(x: u8) -> bool {
    spec_recognize(x) == Recognized::Ident || spec_recognize(x) == Recognized::Slash
}

/// The symbols recognized by the lexer, `=(){}[],"'/` followed by the four
/// space bytes ` \n\t\r`.
pub fn recognized_symbols() -> (r: [u8; 15])
    ensures
        r@ == seq![
            0x3du8, 0x28u8, 0x29u8, 0x7bu8, 0x7du8, 0x5bu8, 0x5du8, 0x2cu8, 0x22u8, 0x27u8, 0x2fu8,
            0x20u8, 0x0au8, 0x09u8, 0x0du8,
        ],
{
    [0x3d, 0x28, 0x29, 0x7b, 0x7d, 0x5b, 0x5d, 0x2c, 0x22, 0x27, 0x2f, 0x20, 0x0a, 0x09, 0x0d]
}

/// Classify byte `x`, by looking for it in the table of recognized symbols.
pub fn recognize(x: u8) -> (r: Recognized)
    ensures
        r == spec_recognize(x),
{
    let table = recognized_symbols();
    let mut i: usize = 0;
    while i < RECOGNIZED_SYMBOL_COUNT && (x ^ table[i]) != 0
        invariant
            i <= RECOGNIZED_SYMBOL_COUNT,
            table@ == recognized_symbols_spec(),
            forall|j: int| 0 <= j < i ==> table@[j] != x,
        decreases RECOGNIZED_SYMBOL_COUNT - i,
    {
        let t = table[i];
        assert(x ^ t != 0 ==> x != t) by (bit_vector);
        i = i + 1;
    }
    if i < RECOGNIZED_SYMBOL_COUNT {
        let t = table[i];
        assert(x ^ t == 0 ==> x == t) by (bit_vector);
    }
    if i == 0 {
        Recognized::Equal
    } else if i == 1 {
        Recognized::Lparen
    } else if i == 2 {
        Recognized::Rparen
    } else if i == 3 {
        Recognized::Lcurly
    } else if i == 4 {
        Recognized::Rcurly
    } else if i == 5 {
        Recognized::Lbracket
    } else if i == 6 {
        Recognized::Rbracket
    } else if i == 7 {
        Recognized::Comma
    } else if i == 8 {
        Recognized::Quote
    } else if i == 9 {
        Recognized::Apostrophe
    } else if i == 10 {
        Recognized::Slash
    } else if i < RECOGNIZED_SYMBOL_COUNT {
        Recognized::Space
    } else {
        Recognized::Ident
    }
}

pub open spec fn recognized_symbols_spec() -> Seq<u8> {
    seq![
        0x3du8, 0x28u8, 0x29u8, 0x7bu8, 0x7du8, 0x5bu8, 0x5du8, 0x2cu8, 0x22u8, 0x27u8, 0x2fu8,
        0x20u8, 0x0au8, 0x09u8, 0x0du8,
    ]
}


// ---------------------------------------------------------------------------
// Tokens
// ---------------------------------------------------------------------------

/// A token of the chirp language. Payloads are subslices of the lexed input.
#[derive(Clone, Copy, Debug, PartialEq, Eq)]
pub enum Token<'i> {
    Equal,
    Lparen,
    Rparen,
    Lcurly,
    Rcurly,
    Lbracket,
    Rbracket,
    Comma,
    Reserved(&'i [u8]),
    Ident(&'i [u8]),
    String(&'i [u8]),
}

/// The kind of a [`Token`], as shown in error messages.
#[derive(Debug, Clone, Copy, PartialEq, Eq, Structural)]
pub enum TokenType {
    Equal,
    Lparen,
    Rparen,
    Lcurly,
    Rcurly,
    Lbracket,
    Rbracket,
    Comma,
    Reserved,
    Ident,
    String,
    Code,
    As,
    Use,
    Fn,
    Eof,
}

/// The type of a token.
pub open spec fn token_type(t: Token) -> TokenType {
    match t {
        Token::Equal => TokenType::Equal,
        Token::Lparen => TokenType::Lparen,
        Token::Rparen => TokenType::Rparen,
        Token::Lcurly => TokenType::Lcurly,
        Token::Rcurly => TokenType::Rcurly,
        Token::Lbracket => TokenType::Lbracket,
        Token::Rbracket => TokenType::Rbracket,
        Token::Comma => TokenType::Comma,
        Token::Reserved(_) => TokenType::Reserved,
        Token::Ident(_) => TokenType::Ident,
        Token::String(_) => TokenType::String,
    }
}

/// The text of a token: the punctuation byte itself, or the payload.
pub open spec fn token_bytes(t: Token) -> Seq<u8> {
    match t {
        Token::Equal => seq![0x3du8],
        Token::Lparen => seq![0x28u8],
        Token::Rparen => seq![0x29u8],
        Token::Lcurly => seq![0x7bu8],
        Token::Rcurly => seq![0x7du8],
        Token::Lbracket => seq![0x5bu8],
        Token::Rbracket => seq![0x5du8],
        Token::Comma => seq![0x2cu8],
        Token::Reserved(b) => b@,
        Token::Ident(b) => b@,
        Token::String(b) => b@,
    }
}

/// The type of an optional token, `None` for the end of input.
pub open spec fn opt_token_type(t: Option<Token>) -> TokenType {
    match t {
        Some(t) => token_type(t),
        None => TokenType::Eof,
    }
}

impl<'i> Token<'i> {
    /// The length in bytes of the token's text.
    pub fn len(&self) -> (r: u32)
        requires
            token_bytes(*self).len() <= u32::MAX,
        ensures
            r == token_bytes(*self).len(),
    {
        match self {
            Token::Comma | Token::Equal | Token::Lparen | Token::Rparen | Token::Lcurly
            | Token::Rcurly | Token::Lbracket | Token::Rbracket => 1,
            Token::Reserved(s) | Token::Ident(s) | Token::String(s) => s.len() as u32,
        }
    }
}

impl TokenType {
    /// The type of `value`, [`TokenType::Eof`] when there is no token.
    pub fn from_token(value: Option<Token<'_>>) -> (r: TokenType)
        ensures
            r == opt_token_type(value),
    {
        match value {
            Some(Token::Equal) => TokenType::Equal,
            Some(Token::Lparen) => TokenType::Lparen,
            Some(Token::Rparen) => TokenType::Rparen,
            Some(Token::Lcurly) => TokenType::Lcurly,
            Some(Token::Rcurly) => TokenType::Rcurly,
            Some(Token::Lbracket) => TokenType::Lbracket,
            Some(Token::Rbracket) => TokenType::Rbracket,
            Some(Token::Comma) => TokenType::Comma,
            Some(Token::Reserved(_)) => TokenType::Reserved,
            Some(Token::Ident(_)) => TokenType::Ident,
            Some(Token::String(_)) => TokenType::String,
            None => TokenType::Eof,
        }
    }

    /// How the token type is shown in error messages.
    pub fn as_str(&self) -> (r: &'static str)
        ensures
            r@ == token_type_text(*self),
    {
        match self {
            TokenType::Equal => "'='",
            TokenType::Lparen => "'('",
            TokenType::Rparen => "')'",
            TokenType::Lcurly => "'{'",
            TokenType::Rcurly => "'}'",
            TokenType::Lbracket => "'['",
            TokenType::Rbracket => "']'",
            TokenType::Comma => "','",
            TokenType::Reserved => "a reserved keyword",
            TokenType::Ident => "an identifier",
            TokenType::Code => "'code'",
            TokenType::Fn => "'fn'",
            TokenType::Use => "'use'",
            TokenType::As => "'as'",
            TokenType::String => "\"a string literal\"",
            TokenType::Eof => "nothing, the end of file",
        }
    }
}

/// The text shown for each token type.
pub open spec fn token_type_text(t: TokenType) -> Seq<char> {
    match t {
        TokenType::Equal => "'='"@,
        TokenType::Lparen => "'('"@,
        TokenType::Rparen => "')'"@,
        TokenType::Lcurly => "'{'"@,
        TokenType::Rcurly => "'}'"@,
        TokenType::Lbracket => "'['"@,
        TokenType::Rbracket => "']'"@,
        TokenType::Comma => "','"@,
        TokenType::Reserved => "a reserved keyword"@,
        TokenType::Ident => "an identifier"@,
        TokenType::Code => "'code'"@,
        TokenType::Fn => "'fn'"@,
        TokenType::Use => "'use'"@,
        TokenType::As => "'as'"@,
        TokenType::String => "\"a string literal\""@,
        TokenType::Eof => "nothing, the end of file"@,
    }
}


// ---------------------------------------------------------------------------
// Specification of the lexer
// ---------------------------------------------------------------------------

/// End of the identifier continuing at `i`: the first index at or after `i`
/// that does not hold an identifier byte.
pub open spec fn ident_end(s: Seq<u8>, i: int) -> int
    decreases s.len() - i,
{
    if 0 <= i < s.len() && is_ident_byte(s[i]) {
        ident_end(s, i + 1)
    } else {
        i
    }
}

/// End (exclusive) of a string literal quoted with `q`, scanning from `i`
/// with `esc` telling whether the previous byte was an unescaped backslash.
///
/// An unterminated literal ends at the end of input, unless it ends on a
/// dangling escape, in which case there is no literal.
pub open spec fn quoted_end(s: Seq<u8>, i: int, q: u8, esc: bool) -> Option<int>
    decreases s.len() - i,
{
    if i < 0 || i >= s.len() {
        if esc {
            None
        } else {
            Some(s.len() as int)
        }
    } else if s[i] == 0x5c {
        quoted_end(s, i + 1, q, !esc)
    } else if s[i] == q && esc {
        quoted_end(s, i + 1, q, false)
    } else if s[i] == q {
        Some(i + 1)
    } else {
        quoted_end(s, i + 1, q, false)
    }
}

/// Index of the first newline at or after `i`.
pub open spec fn line_end(s: Seq<u8>, i: int) -> Option<int>
    decreases s.len() - i,
{
    if i < 0 || i >= s.len() {
        None
    } else if s[i] == 0x0a {
        Some(i)
    } else {
        line_end(s, i + 1)
    }
}

/// Where the lexer stops inside a comment without newline: it advances by
/// chunks of 8 bytes while at least 8 bytes remain.
pub open spec fn comment_stop(s: Seq<u8>, i: int) -> int
    decreases s.len() - i,
{
    if i < 0 || s.len() - i < 8 {
        i
    } else {
        comment_stop(s, i + 8)
    }
}

pub proof fn lemma_line_end_bounds(s: Seq<u8>, i: int)
    requires
        0 <= i,
    ensures
        line_end(s, i) matches Some(j) ==> i <= j < s.len() && s[j] == 0x0a,
    decreases s.len() - i,
{
    if i < s.len() && s[i] != 0x0a {
        lemma_line_end_bounds(s, i + 1);
    }
}

/// Start index of a lexed token (zero when there is none).
pub open spec fn tok_start(t: Option<(TokenType, int)>) -> int {
    match t {
        Some((_, st)) => st,
        None => 0,
    }
}

/// Type of a lexed token ([`TokenType::Eof`] when there is none).
pub open spec fn tok_type(t: Option<(TokenType, int)>) -> TokenType {
    match t {
        Some((ty, _)) => ty,
        None => TokenType::Eof,
    }
}

/// Token type of a punctuation byte class.
pub open spec fn punct_type(c: Recognized) -> Option<TokenType> {
    match c {
        Recognized::Equal => Some(TokenType::Equal),
        Recognized::Lparen => Some(TokenType::Lparen),
        Recognized::Rparen => Some(TokenType::Rparen),
        Recognized::Lcurly => Some(TokenType::Lcurly),
        Recognized::Rcurly => Some(TokenType::Rcurly),
        Recognized::Lbracket => Some(TokenType::Lbracket),
        Recognized::Rbracket => Some(TokenType::Rbracket),
        Recognized::Comma => Some(TokenType::Comma),
        _ => None,
    }
}

/// The lexer: the next token at or after index `i` of `s`, as its type and
/// start index, together with the index where lexing stopped. A returned
/// token always spans from its start index to the returned index.
///
/// Spaces are skipped, `//` starts a comment running to the next newline,
/// a `/` followed by another byte skips both.
pub open spec fn lex(s: Seq<u8>, i: int) -> (Option<(TokenType, int)>, int)
    decreases s.len() - i,
{
    if i < 0 || i >= s.len() {
        (None, i)
    } else {
        let c = spec_recognize(s[i]);
        if punct_type(c) is Some {
            (Some((punct_type(c)->0, i)), i + 1)
        } else if c == Recognized::Quote || c == Recognized::Apostrophe {
            match quoted_end(s, i + 1, s[i], false) {
                Some(e) => (Some((TokenType::String, i)), e),
                None => (None, s.len() as int),
            }
        } else if c == Recognized::Slash {
            if i + 1 >= s.len() {
                (None, i + 1)
            } else if s[i + 1] == 0x2f {
                match line_end(s, i + 2) {
                    Some(j) => {
                        proof {
                            lemma_line_end_bounds(s, i + 2);
                        }
                        lex(s, j + 1)
                    },
                    None => (None, comment_stop(s, i + 2)),
                }
            } else {
                lex(s, i + 2)
            }
        } else if c == Recognized::Ident {
            (Some((TokenType::Ident, i)), ident_end(s, i + 1))
        } else {
            lex(s, i + 1)
        }
    }
}

/// Bytes skipped by `consume_spaces`: ` `, `\n`, `\t`.
pub open spec fn is_skipped_space(x: u8) -> bool {
    x == 0x20 || x == 0x0a || x == 0x09
}

/// Index of the first byte at or after `i` that is not a space or comment,
/// as computed by `consume_spaces`. Note that `\r` is not skipped, and a
/// single `/` is skipped.
pub open spec fn skip_spaces(s: Seq<u8>, i: int) -> int
    decreases s.len() - i, 2int,
{
    if i < 0 || i >= s.len() {
        i
    } else if s[i] == 0x2f {
        skip_maybe_comment(s, i + 1)
    } else if is_skipped_space(s[i]) {
        skip_spaces(s, i + 1)
    } else {
        i
    }
}

/// After a `/` at `i - 1`: skip a comment if `i` holds a second `/`.
pub open spec fn skip_maybe_comment(s: Seq<u8>, i: int) -> int
    decreases s.len() - i, 1int,
{
    if 0 <= i < s.len() && s[i] == 0x2f {
        skip_comment(s, i + 1)
    } else {
        i
    }
}

/// Skip the comment body starting at `i`, then the spaces following it.
pub open spec fn skip_comment(s: Seq<u8>, i: int) -> int
    decreases s.len() - i, 0int,
{
    if i < 0 {
        i
    } else {
        match line_end(s, i) {
            Some(j) => {
                proof {
                    lemma_line_end_bounds(s, i);
                }
                skip_spaces(s, j + 1)
            },
            None => comment_stop(s, i),
        }
    }
}


// ---------------------------------------------------------------------------
// SWAR: 8 bytes packed in a u64, searched in parallel
// ---------------------------------------------------------------------------

/// Byte `k` (little endian) of `x`.
pub open spec fn byte_at(x: u64, k: u64) -> u64 {
    (x >> ((8 * k) as u64)) & 0xff
}

/// Byte `k` of `s`, or zero past its end.
pub open spec fn padded_byte(s: Seq<u8>, k: int) -> u64 {
    if 0 <= k < s.len() {
        s[k] as u64
    } else {
        0
    }
}

/// Index of the first byte of `x`, from byte `k` on, that equals `b`.
pub open spec fn first_byte_eq(x: u64, b: u8, k: u64) -> Option<u64>
    decreases 8 - k,
{
    if k >= 8 {
        None
    } else if byte_at(x, k) == b as u64 {
        Some(k)
    } else {
        first_byte_eq(x, b, (k + 1) as u64)
    }
}

/// Up to 8 bytes of a slice loaded in a `u64`, first byte in the lowest bits.
#[derive(Clone, Copy)]
pub struct Swar8(pub u64);

proof fn lemma_or_byte(acc: u64, b: u64, k: u64, j: u64)
    by (bit_vector)
    requires
        b < 256,
        k < 8,
        j < 8,
        (acc >> ((8 * k) as u64)) & 0xff == 0,
    ensures
        ((acc | (b << ((8 * k) as u64))) >> ((8 * j) as u64)) & 0xff == if j == k {
            b
        } else {
            (acc >> ((8 * j) as u64)) & 0xff
        },
{
}

proof fn lemma_xor_byte(x: u64, m: u64, i: u64)
    by (bit_vector)
    requires
        i < 8,
    ensures
        ((((x ^ m) >> ((8 * i) as u64)) & 0xff) == 0) == (((x >> ((8 * i) as u64)) & 0xff) == ((m
            >> ((8 * i) as u64)) & 0xff)),
        ((x ^ m) >> ((8 * i) as u64)) >> 8 == (x ^ m) >> ((8 * (i + 1)) as u64),
{
}

proof fn lemma_repeated_byte(b: u64, k: u64)
    by (bit_vector)
    requires
        b < 256,
        k < 8,
    ensures
        (((b * 0x0101010101010101u64) as u64) >> ((8 * k) as u64)) & 0xff == b,
{
}

proof fn lemma_zero_bytes(k: u64)
    by (bit_vector)
    requires
        k < 8,
    ensures
        (0u64 >> ((8 * k) as u64)) & 0xff == 0,
{
}

impl Swar8 {
    /// Load the first (up to) 8 bytes of `slice`, padding with zeros.
    pub fn load_from(slice: &[u8]) -> (r: Swar8)
        ensures
            forall|k: u64| k < 8 ==> #[trigger] byte_at(r.0, k) == padded_byte(slice@, k as int),
    {
        let len = if slice.len() < 8 {
            slice.len()
        } else {
            8
        };
        let mut acc: u64 = 0;
        let mut k: usize = 0;
        assert forall|j: u64| j < 8 implies #[trigger] byte_at(acc, j) == 0 by {
            lemma_zero_bytes(j);
        }
        while k < len
            invariant
                k <= len <= 8,
                len <= slice@.len(),
                len == 8 || len == slice@.len(),
                forall|j: u64|
                    j < 8 ==> #[trigger] byte_at(acc, j) == if j < k {
                        slice@[j as int] as u64
                    } else {
                        0
                    },
            decreases len - k,
        {
            let b = slice[k] as u64;
            let kk = k as u64;
            let ghost old_acc = acc;
            assert(byte_at(acc, kk) == 0);
            acc = acc | (b << (8 * kk));
            assert forall|j: u64| j < 8 implies #[trigger] byte_at(acc, j) == if j < kk + 1 {
                slice@[j as int] as u64
            } else {
                0
            } by {
                assert(byte_at(old_acc, j) == if j < kk {
                    slice@[j as int] as u64
                } else {
                    0
                });
                lemma_or_byte(old_acc, b, kk, j);
            }
            k = k + 1;
        }
        Swar8(acc)
    }

    /// Index of the first of the 8 bytes equal to `b`.
    pub fn position(self, b: u8) -> (r: Option<usize>)
        ensures
            r matches Some(p) ==> first_byte_eq(self.0, b, 0) == Some(p as u64),
            r is None ==> first_byte_eq(self.0, b, 0) is None,
    {
        let mask: u64 = (b as u64) * 0x0101010101010101u64;
        let mut masked = self.0 ^ mask;
        let mut pos: usize = 0;
        let mut encountered = false;
        let mut i: u64 = 0;
        assert(masked == (masked >> ((8 * 0u64) as u64))) by (bit_vector);
        while i < 8
            invariant
                i <= 8,
                i < 8 ==> masked == (self.0 ^ mask) >> ((8 * i) as u64),
                mask == (b as u64) * 0x0101010101010101u64,
                !encountered ==> pos == i,
                first_byte_eq(self.0, b, 0) == if encountered {
                    Some(pos as u64)
                } else {
                    first_byte_eq(self.0, b, i)
                },
            decreases 8 - i,
        {
            proof {
                lemma_xor_byte(self.0, mask, i);
                lemma_repeated_byte(b as u64, i);
                assert(mask == ((b as u64 * 0x0101010101010101u64) as u64));
            }
            encountered = encountered || (masked & 0xff == 0);
            if !encountered {
                pos = pos + 1;
            }
            masked = masked >> 8;
            i = i + 1;
        }
        if encountered {
            Some(pos)
        } else {
            None
        }
    }
}


proof fn lemma_first_byte_eq_from(s: Seq<u8>, x: u64, b: u8, k: u64)
    requires
        b != 0,
        k <= 8,
        forall|j: u64| j < 8 ==> #[trigger] byte_at(x, j) == padded_byte(s, j as int),
    ensures
        first_byte_eq(x, b, k) matches Some(p) ==> k <= p < 8 && p < s.len() && s[p as int]
            == b && forall|j: int| k <= j < p ==> s[j] != b,
        first_byte_eq(x, b, k) is None ==> forall|j: int| k <= j < 8 && j < s.len() ==> s[j] != b,
    decreases 8 - k,
{
    if k < 8 {
        assert(byte_at(x, k) == padded_byte(s, k as int));
        if byte_at(x, k) != b as u64 {
            lemma_first_byte_eq_from(s, x, b, (k + 1) as u64);
        }
    }
}

/// Searching a non-zero byte in a loaded [`Swar8`] finds its first
/// occurrence within the first 8 bytes of the slice.
pub proof fn lemma_swar_find(s: Seq<u8>, x: u64, b: u8)
    requires
        b != 0,
        forall|j: u64| j < 8 ==> #[trigger] byte_at(x, j) == padded_byte(s, j as int),
    ensures
        first_byte_eq(x, b, 0) matches Some(p) ==> p < 8 && p < s.len() && s[p as int] == b
            && forall|j: int| 0 <= j < p ==> s[j] != b,
        first_byte_eq(x, b, 0) is None ==> forall|j: int| 0 <= j < 8 && j < s.len() ==> s[j] != b,
{
    lemma_first_byte_eq_from(s, x, b, 0);
}

proof fn lemma_line_end_skip(s: Seq<u8>, a: int, c: int)
    requires
        0 <= a <= c,
        forall|j: int| a <= j < c ==> s[j] != 0x0a,
    ensures
        line_end(s, a) == line_end(s, c),
    decreases c - a,
{
    if a < c {
        lemma_line_end_skip(s, a + 1, c);
    }
}

proof fn lemma_line_end_none(s: Seq<u8>, a: int)
    requires
        0 <= a,
        forall|j: int| a <= j < s.len() ==> s[j] != 0x0a,
    ensures
        line_end(s, a) is None,
    decreases s.len() - a,
{
    if a < s.len() {
        lemma_line_end_none(s, a + 1);
    }
}

pub proof fn lemma_ident_end_bounds(s: Seq<u8>, i: int)
    requires
        0 <= i <= s.len(),
    ensures
        i <= ident_end(s, i) <= s.len(),
        forall|j: int| i <= j < ident_end(s, i) ==> is_ident_byte(#[trigger] s[j]),
        ident_end(s, i) < s.len() ==> !is_ident_byte(s[ident_end(s, i)]),
    decreases s.len() - i,
{
    if i < s.len() && is_ident_byte(s[i]) {
        lemma_ident_end_bounds(s, i + 1);
    }
}

pub proof fn lemma_quoted_end_bounds(s: Seq<u8>, i: int, q: u8, esc: bool)
    requires
        0 <= i <= s.len(),
    ensures
        quoted_end(s, i, q, esc) matches Some(e) ==> i <= e <= s.len(),
    decreases s.len() - i,
{
    if i < s.len() {
        lemma_quoted_end_bounds(s, i + 1, q, !esc);
        lemma_quoted_end_bounds(s, i + 1, q, false);
    }
}

pub proof fn lemma_comment_stop_bounds(s: Seq<u8>, i: int)
    requires
        0 <= i <= s.len(),
    ensures
        i <= comment_stop(s, i) <= s.len(),
        s.len() - comment_stop(s, i) < 8,
    decreases s.len() - i,
{
    if s.len() - i >= 8 {
        lemma_comment_stop_bounds(s, i + 8);
    }
}

/// Lexing never goes back nor past the end of input, and a token lies
/// between the starting index and the stopping index, never empty.
pub proof fn lemma_lex_bounds(s: Seq<u8>, i: int)
    requires
        0 <= i <= s.len(),
    ensures
        i <= lex(s, i).1 <= s.len(),
        lex(s, i).0 matches Some((ty, st)) ==> i <= st < lex(s, i).1,
        lex(s, i).0 matches Some((ty, st)) ==> ty != TokenType::Reserved && ty != TokenType::Code
            && ty != TokenType::As && ty != TokenType::Use && ty != TokenType::Fn && ty
            != TokenType::Eof,
    decreases s.len() - i,
{
    if i < s.len() {
        let c = spec_recognize(s[i]);
        if punct_type(c) is Some {
        } else if c == Recognized::Quote || c == Recognized::Apostrophe {
            lemma_quoted_end_bounds(s, i + 1, s[i], false);
        } else if c == Recognized::Slash {
            if i + 1 < s.len() {
                if s[i + 1] == 0x2f {
                    lemma_line_end_bounds(s, i + 2);
                    match line_end(s, i + 2) {
                        Some(j) => lemma_lex_bounds(s, j + 1),
                        None => lemma_comment_stop_bounds(s, i + 2),
                    }
                } else {
                    lemma_lex_bounds(s, i + 2);
                }
            }
        } else if c == Recognized::Ident {
            lemma_ident_end_bounds(s, i + 1);
        } else {
            lemma_lex_bounds(s, i + 1);
        }
    }
}

/// Whether index `i` of `s` is next to an ASCII byte (or at an end). The
/// lexer only stops at such indices after a token: in valid UTF-8 they are
/// character boundaries.
pub open spec fn ascii_edge(s: Seq<u8>, i: int) -> bool {
    ||| i == 0
    ||| i == s.len()
    ||| (0 <= i < s.len() && s[i] < 0x80)
    ||| (0 < i <= s.len() && s[i - 1] < 0x80)
}

/// In valid UTF-8, the byte after an ASCII byte starts a character.
proof fn lemma_after_ascii(s: Seq<u8>, i: int)
    requires
        vstd::utf8::valid_utf8(s),
        0 < i < s.len(),
        s[i - 1] < 0x80,
    ensures
        !vstd::utf8::is_continuation_byte(s[i]),
    decreases s.len(),
{
    reveal_with_fuel(vstd::utf8::valid_utf8, 2);
    let l = vstd::utf8::length_of_first_scalar(s);
    let rest = vstd::utf8::pop_first_scalar(s);
    if i - 1 < l {
        if i - 1 > 0 {
            assert(vstd::utf8::is_continuation_byte(s[1]));
            if i - 1 >= 2 {
                assert(vstd::utf8::is_continuation_byte(s[2]));
            }
            if i - 1 >= 3 {
                assert(vstd::utf8::is_continuation_byte(s[3]));
            }
        }
        assert(l == 1);
        assert(rest[0] == s[1]);
    } else {
        assert(rest[i - l - 1] == s[i - 1]);
        assert(rest[i - l] == s[i]);
        lemma_after_ascii(rest, i - l);
    }
}

/// In valid UTF-8, an index next to an ASCII byte is a character boundary.
proof fn lemma_edge_boundary(s: Seq<u8>, i: int)
    requires
        vstd::utf8::valid_utf8(s),
        0 <= i <= s.len(),
        ascii_edge(s, i),
    ensures
        vstd::utf8::is_char_boundary(s, i),
{
    vstd::utf8::is_char_boundary_start_end_of_seq(s);
    if 0 < i < s.len() {
        if s[i - 1] < 0x80 {
            lemma_after_ascii(s, i);
        }
        vstd::utf8::is_char_boundary_iff_not_is_continuation_byte(s, i);
    }
}

/// The text between two indices next to ASCII bytes of valid UTF-8 is
/// valid UTF-8.
pub proof fn lemma_edge_slice_utf8(s: Seq<u8>, a: int, b: int)
    requires
        vstd::utf8::valid_utf8(s),
        0 <= a <= b <= s.len(),
        ascii_edge(s, a),
        ascii_edge(s, b),
    ensures
        vstd::utf8::valid_utf8(s.subrange(a, b)),
{
    lemma_edge_boundary(s, b);
    vstd::utf8::valid_utf8_split(s, b);
    let prefix = s.subrange(0, b);
    assert(ascii_edge(prefix, a)) by {
        if 0 <= a < s.len() && s[a] < 0x80 && a < b {
            assert(prefix[a] == s[a]);
        }
        if 0 < a <= s.len() && s[a - 1] < 0x80 {
            assert(prefix[a - 1] == s[a - 1]);
        }
    }
    lemma_edge_boundary(prefix, a);
    vstd::utf8::valid_utf8_split(prefix, a);
    assert(prefix.subrange(a, b) =~= s.subrange(a, b));
}

proof fn lemma_quoted_end_edge(s: Seq<u8>, i: int, q: u8, esc: bool)
    requires
        0 <= i <= s.len(),
        q < 0x80,
    ensures
        quoted_end(s, i, q, esc) matches Some(e) ==> ascii_edge(s, e),
    decreases s.len() - i,
{
    if i < s.len() {
        lemma_quoted_end_edge(s, i + 1, q, !esc);
        lemma_quoted_end_edge(s, i + 1, q, false);
    }
}

/// Where the lexer stops after a token is next to an ASCII byte.
pub proof fn lemma_lex_end_edge(s: Seq<u8>, i: int)
    requires
        0 <= i <= s.len(),
        lex(s, i).0 is Some,
    ensures
        ascii_edge(s, lex(s, i).1),
    decreases s.len() - i,
{
    let c = spec_recognize(s[i]);
    if punct_type(c) is Some {
    } else if c == Recognized::Quote || c == Recognized::Apostrophe {
        lemma_quoted_end_edge(s, i + 1, s[i], false);
    } else if c == Recognized::Slash {
        if s[i + 1] == 0x2f {
            lemma_line_end_bounds(s, i + 2);
            lemma_lex_end_edge(s, line_end(s, i + 2)->0 + 1);
        } else {
            lemma_lex_end_edge(s, i + 2);
        }
    } else if c == Recognized::Ident {
        lemma_ident_end_bounds(s, i + 1);
    } else {
        lemma_lex_end_edge(s, i + 1);
    }
}

/// Skipping spaces from an index next to an ASCII byte, when a token
/// follows, stops next to an ASCII byte.
pub proof fn lemma_skip_spaces_edge(s: Seq<u8>, i: int)
    requires
        0 <= i <= s.len(),
        ascii_edge(s, i),
        lex(s, i).0 is Some,
    ensures
        ascii_edge(s, skip_spaces(s, i)),
    decreases s.len() - i,
{
    if i < s.len() {
        if s[i] == 0x2f {
            if i + 1 < s.len() && s[i + 1] == 0x2f {
                lemma_line_end_bounds(s, i + 2);
                assert(line_end(s, i + 2) is Some);
                let j = line_end(s, i + 2)->0;
                assert(skip_maybe_comment(s, i + 1) == skip_comment(s, i + 2));
                assert(skip_comment(s, i + 2) == skip_spaces(s, j + 1));
                assert(lex(s, i) == lex(s, j + 1));
                lemma_skip_spaces_edge(s, j + 1);
            } else {
                assert(skip_spaces(s, i) == skip_maybe_comment(s, i + 1));
                assert(skip_maybe_comment(s, i + 1) == i + 1);
            }
        } else if is_skipped_space(s[i]) {
            assert(lex(s, i) == lex(s, i + 1));
            lemma_skip_spaces_edge(s, i + 1);
        }
    }
}

// ---------------------------------------------------------------------------
// The lexer
// ---------------------------------------------------------------------------

/// `r` is what [`lex`] gives for `s` from index `i`: the same stopping index,
/// and a token of the same type spanning the same bytes.
pub open spec fn lexed(s: Seq<u8>, i: int, r: (Option<Token>, usize)) -> bool {
    let (t, q) = lex(s, i);
    &&& r.1 == q
    &&& match r.0 {
        None => t is None,
        Some(tok) => match t {
            Some((ty, st)) => token_type(tok) == ty && token_bytes(tok) == s.subrange(st, q),
            None => false,
        },
    }
}

/// The end of the identifier continuing at `i` (the identifier's first byte
/// was already consumed).
fn ident_next(input: &[u8], i: usize) -> (e: usize)
    requires
        i <= input@.len(),
    ensures
        e == ident_end(input@, i as int),
{
    let mut p = i;
    while p < input.len()
        invariant
            i <= p <= input@.len(),
            ident_end(input@, p as int) == ident_end(input@, i as int),
        decreases input@.len() - p,
    {
        match recognize(input[p]) {
            Recognized::Slash | Recognized::Ident => {
                p = p + 1;
            },
            _ => {
                return p;
            },
        }
    }
    p
}

/// Lex the string literal whose opening quote `q` is at `start`.
pub fn quoted_next<'i>(input: &'i [u8], start: usize, q: u8) -> (r: (Option<Token<'i>>, usize))
    requires
        start < input@.len(),
        input@[start as int] == q,
    ensures
        match quoted_end(input@, start + 1, q, false) {
            Some(e) => {
                &&& r.1 == e
                &&& r.0 matches Some(Token::String(b))
                &&& b@ == input@.subrange(start as int, e)
            },
            None => r.1 == input@.len() && r.0 is None,
        },
{
    let mut esc = false;
    let len = input.len();
    let mut p = start + 1;
    loop
        invariant
            start < p <= input@.len(),
            quoted_end(input@, p as int, q, esc) == quoted_end(input@, start + 1, q, false),
        decreases input@.len() - p,
    {
        if p >= input.len() {
            if esc {
                return (None, p);
            } else {
                return (Some(Token::String(&input[start..p])), p);
            }
        }
        let last = input[p];
        p = p + 1;
        if last == 0x5c {
            esc = !esc;
        } else if last == q && esc {
            esc = !esc;
        } else if last == q {
            return (Some(Token::String(&input[start..p])), p);
        } else {
            esc = false;
        }
    }
}

/// Lex from index `i`, skipping spaces and comments.
pub fn after_space<'i>(input: &'i [u8], i: usize) -> (r: (Option<Token<'i>>, usize))
    requires
        i <= input@.len(),
    ensures
        lexed(input@, i as int, r),
    decreases input@.len() - i,
{
    let ghost s = input@;
    let mut p = i;
    loop
        invariant
            i <= p <= s.len(),
            s == input@,
            lex(s, p as int) == lex(s, i as int),
        decreases s.len() - p,
    {
        if p >= input.len() {
            return (None, p);
        }
        let first = input[p];
        let start = p;
        p = p + 1;
        proof {
            assert(s.subrange(start as int, p as int) =~= seq![first]);
        }
        match recognize(first) {
            Recognized::Equal => {
                return (Some(Token::Equal), p);
            },
            Recognized::Lparen => {
                return (Some(Token::Lparen), p);
            },
            Recognized::Rparen => {
                return (Some(Token::Rparen), p);
            },
            Recognized::Lcurly => {
                return (Some(Token::Lcurly), p);
            },
            Recognized::Rcurly => {
                return (Some(Token::Rcurly), p);
            },
            Recognized::Lbracket => {
                return (Some(Token::Lbracket), p);
            },
            Recognized::Rbracket => {
                return (Some(Token::Rbracket), p);
            },
            Recognized::Comma => {
                return (Some(Token::Comma), p);
            },
            Recognized::Quote | Recognized::Apostrophe => {
                proof {
                    lemma_quoted_end_bounds(s, p as int, first, false);
                }
                return quoted_next(input, start, first);
            },
            Recognized::Slash => {
                return next_maybe_comment(input, p);
            },
            Recognized::Ident => {
                proof {
                    lemma_ident_end_bounds(s, p as int);
                }
                let end = ident_next(input, p);
                return (Some(Token::Ident(&input[start..end])), end);
            },
            Recognized::Space => {},
        }
    }
}

/// Lex after a `/` found at `i - 1`: a second `/` starts a comment,
/// otherwise the byte at `i` is skipped.
fn next_maybe_comment<'i>(input: &'i [u8], i: usize) -> (r: (Option<Token<'i>>, usize))
    requires
        1 <= i <= input@.len(),
        input@[i - 1] == 0x2f,
    ensures
        lexed(input@, i - 1, r),
    decreases input@.len() - i,
{
    if i >= input.len() {
        return (None, i);
    }
    let first = input[i];
    if first == 0x2f {
        next_comment(input, i + 1)
    } else {
        after_space(input, i + 1)
    }
}

/// Lex after the `//` starting a comment, `i` is the index of the comment's
/// first byte.
fn next_comment<'i>(input: &'i [u8], i: usize) -> (r: (Option<Token<'i>>, usize))
    requires
        2 <= i <= input@.len(),
        input@[i - 1] == 0x2f,
        input@[i - 2] == 0x2f,
    ensures
        lexed(input@, i - 2, r),
    decreases input@.len() - i,
{
    let ghost s = input@;
    let mut p = i;
    loop
        invariant
            2 <= i <= p <= s.len(),
            s == input@,
            s[i - 1] == 0x2f,
            s[i - 2] == 0x2f,
            forall|j: int| i <= j < p ==> s[j] != 0x0a,
            comment_stop(s, i as int) == comment_stop(s, p as int),
        decreases s.len() - p,
    {
        let rest = &input[p..input.len()];
        let swar = Swar8::load_from(rest);
        proof {
            lemma_swar_find(rest@, swar.0, 0x0a);
        }
        match swar.position(0x0a) {
            Some(offset) => {
                proof {
                    assert forall|j: int| i <= j < p + offset implies s[j] != 0x0a by {
                        if j >= p {
                            assert(rest@[j - p] == s[j]);
                        }
                    }
                    assert(rest@[offset as int] == s[p + offset]);
                    lemma_line_end_skip(s, i as int, p + offset);
                    assert(line_end(s, p + offset) == Some(p + offset));
                    assert(line_end(s, i as int) == Some(p + offset));
                    assert(spec_recognize(s[i - 2]) == Recognized::Slash);
                    assert(lex(s, i - 2) == lex(s, p + offset + 1));
                }
                return after_space(input, p + offset + 1);
            },
            None => {
                if input.len() - p < 8 {
                    proof {
                        assert forall|j: int| p <= j < s.len() implies s[j] != 0x0a by {
                            assert(rest@[j - p] == s[j]);
                        }
                        lemma_line_end_skip(s, i as int, p as int);
                        lemma_line_end_none(s, p as int);
                        assert(comment_stop(s, p as int) == p);
                        assert(spec_recognize(s[i - 2]) == Recognized::Slash);
                        assert(lex(s, i - 2) == (None::<(TokenType, int)>, p as int));
                    }
                    return (None, p);
                }
                proof {
                    assert forall|j: int| i <= j < p + 8 implies s[j] != 0x0a by {
                        if j >= p {
                            assert(rest@[j - p] == s[j]);
                        }
                    }
                }
                p = p + 8;
            },
        }
    }
}


/// The next token of `input`, advancing `input` past it.
pub fn next_token<'i>(input: &mut &'i [u8]) -> (r: Option<Token<'i>>)
    ensures
        lexed(old(input)@, 0, (r, lex(old(input)@, 0).1 as usize)),
        final(input)@ == old(input)@.subrange(lex(old(input)@, 0).1, old(input)@.len() as int),
{
    proof {
        lemma_lex_bounds(input@, 0);
    }
    let (token, end) = after_space(*input, 0);
    let len = input.len();
    *input = &input[end..len];
    token
}

/// Class of a byte for [`consume_spaces`].
#[derive(Clone, Copy, Debug, PartialEq, Eq, Structural)]
pub enum EndSpace {
    Slash,
    Token,
    Space,
}

/// The bytes `consume_spaces` stops on or skips: `/ \n\t`.
pub fn end_space_symbols() -> (r: [u8; 4])
    ensures
        r@ == seq![0x2fu8, 0x20u8, 0x0au8, 0x09u8],
{
    [0x2f, 0x20, 0x0a, 0x09]
}

/// Classify a byte for [`consume_spaces`].
pub fn recognize_space(x: u8) -> (r: EndSpace)
    ensures
        r == (if x == 0x2f {
            EndSpace::Slash
        } else if is_skipped_space(x) {
            EndSpace::Space
        } else {
            EndSpace::Token
        }),
{
    let table = end_space_symbols();
    let mut i: usize = 0;
    while i < 4 && (x ^ table[i]) != 0
        invariant
            i <= 4,
            table@ == seq![0x2fu8, 0x20u8, 0x0au8, 0x09u8],
            forall|j: int| 0 <= j < i ==> table@[j] != x,
        decreases 4 - i,
    {
        let t = table[i];
        assert(x ^ t != 0 ==> x != t) by (bit_vector);
        i = i + 1;
    }
    if i < 4 {
        let t = table[i];
        assert(x ^ t == 0 ==> x == t) by (bit_vector);
    }
    if i == 0 {
        EndSpace::Slash
    } else if i < 4 {
        EndSpace::Space
    } else {
        EndSpace::Token
    }
}

/// Index of the first non-space byte at or after `i`, see [`skip_spaces`].
pub fn consume_spaces_from(input: &[u8], i: usize) -> (r: usize)
    requires
        i <= input@.len(),
    ensures
        r == skip_spaces(input@, i as int),
    decreases input@.len() - i, 2int,
{
    let mut p = i;
    while p < input.len()
        invariant
            i <= p <= input@.len(),
            skip_spaces(input@, p as int) == skip_spaces(input@, i as int),
        decreases input@.len() - p,
    {
        match recognize_space(input[p]) {
            EndSpace::Slash => {
                return consume_maybe_comment(input, p + 1);
            },
            EndSpace::Token => {
                return p;
            },
            EndSpace::Space => {
                p = p + 1;
            },
        }
    }
    p
}

/// After a `/` at `i - 1`, skip a `//` comment and the following spaces.
fn consume_maybe_comment(input: &[u8], i: usize) -> (r: usize)
    requires
        i <= input@.len(),
    ensures
        r == skip_maybe_comment(input@, i as int),
    decreases input@.len() - i, 1int,
{
    if i < input.len() && input[i] == 0x2f {
        consume_comment(input, i + 1)
    } else {
        i
    }
}

/// Skip the comment body starting at `i` and the spaces following it.
fn consume_comment(input: &[u8], i: usize) -> (r: usize)
    requires
        i <= input@.len(),
    ensures
        r == skip_comment(input@, i as int),
    decreases input@.len() - i, 0int,
{
    let ghost s = input@;
    let mut p = i;
    loop
        invariant
            i <= p <= s.len(),
            s == input@,
            forall|j: int| i <= j < p ==> s[j] != 0x0a,
            comment_stop(s, i as int) == comment_stop(s, p as int),
        decreases s.len() - p,
    {
        let rest = &input[p..input.len()];
        let swar = Swar8::load_from(rest);
        proof {
            lemma_swar_find(rest@, swar.0, 0x0a);
        }
        match swar.position(0x0a) {
            Some(offset) => {
                proof {
                    assert forall|j: int| i <= j < p + offset implies s[j] != 0x0a by {
                        if j >= p {
                            assert(rest@[j - p] == s[j]);
                        }
                    }
                    assert(rest@[offset as int] == s[p + offset]);
                    lemma_line_end_skip(s, i as int, p + offset);
                    assert(line_end(s, p + offset) == Some(p + offset));
                }
                return consume_spaces_from(input, p + offset + 1);
            },
            None => {
                if input.len() - p < 8 {
                    proof {
                        assert forall|j: int| p <= j < s.len() implies s[j] != 0x0a by {
                            assert(rest@[j - p] == s[j]);
                        }
                        lemma_line_end_skip(s, i as int, p as int);
                        lemma_line_end_none(s, p as int);
                        assert(comment_stop(s, p as int) == p);
                    }
                    return p;
                }
                proof {
                    assert forall|j: int| i <= j < p + 8 implies s[j] != 0x0a by {
                        if j >= p {
                            assert(rest@[j - p] == s[j]);
                        }
                    }
                }
                p = p + 8;
            },
        }
    }
}

pub proof fn lemma_skip_spaces_bounds(s: Seq<u8>, i: int)
    requires
        0 <= i <= s.len(),
    ensures
        i <= skip_spaces(s, i) <= s.len(),
    decreases s.len() - i, 2int,
{
    if i < s.len() {
        if s[i] == 0x2f {
            lemma_skip_maybe_comment_bounds(s, i + 1);
        } else if is_skipped_space(s[i]) {
            lemma_skip_spaces_bounds(s, i + 1);
        }
    }
}

pub proof fn lemma_skip_maybe_comment_bounds(s: Seq<u8>, i: int)
    requires
        0 <= i <= s.len(),
    ensures
        i <= skip_maybe_comment(s, i) <= s.len(),
    decreases s.len() - i, 1int,
{
    if i < s.len() && s[i] == 0x2f {
        lemma_skip_comment_bounds(s, i + 1);
    }
}

pub proof fn lemma_skip_comment_bounds(s: Seq<u8>, i: int)
    requires
        0 <= i <= s.len(),
    ensures
        i <= skip_comment(s, i) <= s.len(),
    decreases s.len() - i, 0int,
{
    lemma_line_end_bounds(s, i);
    match line_end(s, i) {
        Some(j) => lemma_skip_spaces_bounds(s, j + 1),
        None => lemma_comment_stop_bounds(s, i),
    }
}

/// Advance `input` past spaces and comments, see [`skip_spaces`].
pub fn consume_spaces(input: &mut &[u8])
    ensures
        final(input)@ == old(input)@.subrange(skip_spaces(old(input)@, 0), old(input)@.len() as int),
{
    proof {
        lemma_skip_spaces_bounds(input@, 0);
    }
    let end = consume_spaces_from(*input, 0);
    let len = input.len();
    *input = &input[end..len];
}

/// Read an identifier whose first byte is the first byte of `input`,
/// advancing `input` past it.
pub fn next_ident<'i>(input: &mut &'i [u8]) -> (r: &'i [u8])
    requires
        old(input)@.len() > 0,
    ensures
        r@ == old(input)@.subrange(0, ident_end(old(input)@, 1)),
        final(input)@ == old(input)@.subrange(ident_end(old(input)@, 1), old(input)@.len() as int),
{
    proof {
        lemma_ident_end_bounds(input@, 1);
    }
    let end = ident_next(*input, 1);
    let len = input.len();
    let ident = &input[0..end];
    *input = &input[end..len];
    ident
}

/// The text of a statement name starting at the first byte of `input`:
/// a string literal or an identifier. Advances `input` past it.
pub fn next_statement_name<'i>(input: &mut &'i [u8]) -> (r: &'i [u8])
    requires
        old(input)@.len() > 0,
        spec_recognize(old(input)@[0]) == Recognized::Quote || spec_recognize(old(input)@[0])
            == Recognized::Apostrophe || spec_recognize(old(input)@[0]) == Recognized::Ident,
    ensures
        ({
            let s = old(input)@;
            let end = if spec_recognize(s[0]) == Recognized::Ident {
                ident_end(s, 1)
            } else {
                match quoted_end(s, 1, s[0], false) {
                    Some(e) => e,
                    None => s.len() as int,
                }
            };
            &&& r@ == s.subrange(0, end)
            &&& final(input)@ == s.subrange(end, s.len() as int)
        }),
{
    let ghost s = input@;
    let first = input[0];
    let len = input.len();
    match recognize(first) {
        Recognized::Quote | Recognized::Apostrophe => {
            proof {
                lemma_quoted_end_bounds(s, 1, first, false);
            }
            let (_, end) = quoted_next(*input, 0, first);
            let name = &input[0..end];
            *input = &input[end..len];
            name
        },
        _ => next_ident(input),
    }
}


// ---------------------------------------------------------------------------
// Laws of the lexer
// ---------------------------------------------------------------------------

/// Whether [`skip_spaces`] and [`lex`] disagree on what they skip from `i`:
/// a `/` followed by a byte other than `/` (the lexer skips both bytes,
/// `consume_spaces` only the slash), or a comment without a newline.
pub open spec fn skip_diverges(s: Seq<u8>, i: int) -> bool
    decreases s.len() - i,
{
    if i < 0 || i >= s.len() {
        false
    } else if s[i] == 0x2f {
        if i + 1 < s.len() && s[i + 1] == 0x2f {
            match line_end(s, i + 2) {
                Some(j) => {
                    proof {
                        lemma_line_end_bounds(s, i + 2);
                    }
                    skip_diverges(s, j + 1)
                },
                None => true,
            }
        } else {
            i + 1 < s.len()
        }
    } else if is_skipped_space(s[i]) {
        skip_diverges(s, i + 1)
    } else {
        false
    }
}

/// Unless they diverge, lexing from where `consume_spaces` stops gives the
/// same token, at the same place, as lexing from the start.
pub proof fn lemma_lex_from_skipped(s: Seq<u8>, i: int)
    requires
        0 <= i <= s.len(),
        !skip_diverges(s, i),
    ensures
        lex(s, skip_spaces(s, i)) == lex(s, i),
    decreases s.len() - i,
{
    if i < s.len() {
        if s[i] == 0x2f {
            if i + 1 < s.len() && s[i + 1] == 0x2f {
                lemma_line_end_bounds(s, i + 2);
                let j = line_end(s, i + 2)->0;
                assert(skip_maybe_comment(s, i + 1) == skip_comment(s, i + 2));
                assert(skip_comment(s, i + 2) == skip_spaces(s, j + 1));
                assert(skip_spaces(s, i) == skip_spaces(s, j + 1));
                assert(lex(s, i) == lex(s, j + 1));
                lemma_lex_from_skipped(s, j + 1);
            } else {
                assert(i + 1 == s.len());
                assert(skip_maybe_comment(s, i + 1) == i + 1);
                assert(skip_spaces(s, i) == s.len());
            }
        } else if is_skipped_space(s[i]) {
            lemma_lex_from_skipped(s, i + 1);
        }
    }
}

/// Unless they diverge, skipping spaces twice is skipping them once.
pub proof fn lemma_skip_spaces_idempotent(s: Seq<u8>, i: int)
    requires
        0 <= i <= s.len(),
        !skip_diverges(s, i),
    ensures
        skip_spaces(s, skip_spaces(s, i)) == skip_spaces(s, i),
    decreases s.len() - i,
{
    if i < s.len() {
        if s[i] == 0x2f {
            if i + 1 < s.len() && s[i + 1] == 0x2f {
                lemma_line_end_bounds(s, i + 2);
                let j = line_end(s, i + 2)->0;
                assert(skip_maybe_comment(s, i + 1) == skip_comment(s, i + 2));
                assert(skip_comment(s, i + 2) == skip_spaces(s, j + 1));
                assert(skip_spaces(s, i) == skip_spaces(s, j + 1));
                lemma_skip_spaces_idempotent(s, j + 1);
            } else {
                assert(i + 1 == s.len());
                assert(skip_maybe_comment(s, i + 1) == i + 1);
                assert(skip_spaces(s, i) == s.len());
            }
        } else if is_skipped_space(s[i]) {
            lemma_skip_spaces_idempotent(s, i + 1);
        }
    }
}

/// The shape of lexed tokens: punctuation is a single byte, an identifier is
/// a maximal run of identifier bytes not starting with `/`, a string literal
/// starts with a quote.
pub proof fn lemma_lex_token_shape(s: Seq<u8>, i: int)
    requires
        0 <= i <= s.len(),
    ensures
        ({
            let (t, e) = lex(s, i);
            t matches Some((ty, st)) ==> {
                &&& ty == TokenType::Ident ==> {
                    &&& spec_recognize(s[st]) == Recognized::Ident
                    &&& forall|j: int| st <= j < e ==> is_ident_byte(#[trigger] s[j])
                    &&& e < s.len() ==> !is_ident_byte(s[e])
                }
                &&& ty == TokenType::String ==> (s[st] == 0x22 || s[st] == 0x27)
                &&& (ty != TokenType::Ident && ty != TokenType::String) ==> e == st + 1
                    && punct_type(spec_recognize(s[st])) == Some(ty)
            }
        }),
    decreases s.len() - i,
{
    if i < s.len() {
        let c = spec_recognize(s[i]);
        if punct_type(c) is Some {
        } else if c == Recognized::Quote || c == Recognized::Apostrophe {
        } else if c == Recognized::Slash {
            if i + 1 < s.len() {
                if s[i + 1] == 0x2f {
                    lemma_line_end_bounds(s, i + 2);
                    if let Some(j) = line_end(s, i + 2) {
                        lemma_lex_token_shape(s, j + 1);
                    }
                } else {
                    lemma_lex_token_shape(s, i + 2);
                }
            }
        } else if c == Recognized::Ident {
            lemma_ident_end_bounds(s, i + 1);
        } else {
            lemma_lex_token_shape(s, i + 1);
        }
    }
}

} // verus!

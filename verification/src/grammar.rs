//! The chirp grammar, as a recursive descent parser over the tokens of an
//! [`Input`].
//!
//! ```text
//! TokenTree
//!    = 'ident' | StringLit | ',' | '='
//!    | '(' (TokenTree)* ')'
//!    | '[' (TokenTree)* ']'
//!    | '{' (TokenTree)* '}'
//!
//! Arguments = '(' ((TokenTree)+ (',' (TokenTree)+)*)? ')'
//! Method = 'ident' (Arguments)?
//!
//! Statement
//!    = 'code' '(' 'ident' ')'
//!    | 'ident!' Arguments ('(' (Method)* ')')? ('{' (Statement)* '}')?
//!    | ('ident' | StringLit) StatementTail
//!
//! StatementTail
//!    = '(' (Method)* ')' ('{' (Statement)* '}')?
//!    | '{' (Statement)* '}'
//!
//! Use = 'use' 'ident' ('as' 'ident')?
//! Fn = 'fn' 'ident' '(' ('ident' (',' 'ident')*)? ')' '{' Statement '}'
//! ChirpFile = (Use)* (Fn)* Statement
//! ```
//!
//! Each parser is specified by a spec function of the same name prefixed by
//! `sp_`, which gives the parse result and the position where parsing
//! stopped. A failure is either a `Backtrack` (the caller may try another
//! alternative, after going back to where it was) or a `Cut` (the whole
//! parse fails).
use vstd::prelude::*;

use crate::ast::{
    lemma_nodes_view_push, method_view, methods_view, node_view, nodes_view, statement_view,
    template_view, import_view, function_view, chirp_file_view, Argument, ChirpFile, Function,
    Import, IdentOffset, Method, Node, OptIdentOffset, OptNameOffset, Statement,
    Template,
    SpecChirpFile, SpecFunction, SpecImport,
    SpecMethod, SpecNode, SpecStatement, SpecTemplate,
};
use crate::lex::{self, lex, skip_spaces, tok_start, tok_type, Token, TokenType};
use crate::stream::Input;

verus! {

/// A syntax error.
#[derive(Debug, Clone, Copy, PartialEq, Eq, Structural)]
pub enum Error {
    /// Expected the first token type, got the second.
    Expected(TokenType, TokenType),
    Unbalanced,
    Unexpected,
    StatementDelimiter(TokenType),
    StartStatement(TokenType),
    BadMethod(TokenType),
    TrailingText,
}

/// The help text shown with each error.
pub open spec fn error_help_text(e: Error) -> Seq<char> {
    match e {
        Error::Expected(..) => "Check the other errors in the error output. If they are not enough, unhelpful error messages are considered a bug, so please open an issue: https://github.com/nicopap/cuicui_layout/issues\n"@,
        Error::Unexpected => "This is a bug in the chirp parser, please open an issue at: https://github.com/nicopap/cuicui_layout/issues\n"@,
        Error::Unbalanced => "Method arguments should balance their curly braces `{}`, brackets `[]` and parenthesis `()`. If you want to pass a string containing unbalanced delimiters, use a string literal such as `\":)\"`.\n"@,
        Error::StatementDelimiter(_) => "After the `EntityName` beginning a statement, you should specify a `(method list)` or a `{List() Of() Children()}`. If neither apply, use an empty list. Example: `EntityName ()`\nIMPORTANT! You might be getting this error because you are trying to put a space in your entity name. Use a string literal for spaces. Example: `\"Entity Name\"(method list)`.\nNote: A reminder that the chirp file format has no concept of separator, so you'll get this error if you put a `;` or `,` at the end of the last statement as well :)\n"@,
        Error::StartStatement(_) => "After closing a statement, you should either start a new statement with an `EntityName` or a close the parent's children statements list with a `}`.\n"@,
        Error::BadMethod(_) => "Methods are declared between parenthesis after the `EntityName`. A single method is either an identifier or a an identifier followed by parenthesis (the arguments to the method).\nYou might be getting this error because of an unbalanced parenthesis in a method list.\n"@,
        Error::TrailingText => "Chirp files define a single entity. This means that there can only be a single root statement. Try wrapping your statements inside a single root statement."@,
    }
}

impl Error {
    /// Help on how to fix the error.
    pub fn help(self) -> (r: &'static str)
        ensures
            r@ == error_help_text(self),
    {
        match self {
            Error::Expected(..) => "Check the other errors in the error output. If they are not enough, unhelpful error messages are considered a bug, so please open an issue: https://github.com/nicopap/cuicui_layout/issues\n",
            Error::Unexpected => "This is a bug in the chirp parser, please open an issue at: https://github.com/nicopap/cuicui_layout/issues\n",
            Error::Unbalanced => "Method arguments should balance their curly braces `{}`, brackets `[]` and parenthesis `()`. If you want to pass a string containing unbalanced delimiters, use a string literal such as `\":)\"`.\n",
            Error::StatementDelimiter(_) => "After the `EntityName` beginning a statement, you should specify a `(method list)` or a `{List() Of() Children()}`. If neither apply, use an empty list. Example: `EntityName ()`\nIMPORTANT! You might be getting this error because you are trying to put a space in your entity name. Use a string literal for spaces. Example: `\"Entity Name\"(method list)`.\nNote: A reminder that the chirp file format has no concept of separator, so you'll get this error if you put a `;` or `,` at the end of the last statement as well :)\n",
            Error::StartStatement(_) => "After closing a statement, you should either start a new statement with an `EntityName` or a close the parent's children statements list with a `}`.\n",
            Error::BadMethod(_) => "Methods are declared between parenthesis after the `EntityName`. A single method is either an identifier or a an identifier followed by parenthesis (the arguments to the method).\nYou might be getting this error because of an unbalanced parenthesis in a method list.\n",
            Error::TrailingText => "Chirp files define a single entity. This means that there can only be a single root statement. Try wrapping your statements inside a single root statement.",
        }
    }
}

/// How a parser failed.
#[derive(Debug, Clone, Copy, PartialEq, Eq, Structural)]
pub enum ErrMode {
    /// The caller may try something else.
    Backtrack(Error),
    /// The whole parse fails.
    Cut(Error),
}

/// A parse result, and where parsing stopped.
pub type SRes<T> = (Result<T, ErrMode>, int);

pub open spec fn backtrack<T>(e: Error, p: int) -> SRes<T> {
    (Err(ErrMode::Backtrack(e)), p)
}

pub open spec fn cut<T>(e: Error, p: int) -> SRes<T> {
    (Err(ErrMode::Cut(e)), p)
}

// ---------------------------------------------------------------------------
// Single tokens
// ---------------------------------------------------------------------------

/// A token of type `ty`.
pub open spec fn sp_expect(s: Seq<u8>, p: int, ty: TokenType) -> SRes<()> {
    let (t, q) = lex(s, p);
    if tok_type(t) == ty {
        (Ok(()), q)
    } else {
        backtrack(Error::Expected(ty, tok_type(t)), q)
    }
}

/// The identifier `kw`, reported as token type `ty`.
pub open spec fn sp_keyword(s: Seq<u8>, p: int, kw: Seq<u8>, ty: TokenType) -> SRes<()> {
    let (t, q) = lex(s, p);
    if tok_type(t) == TokenType::Ident && s.subrange(tok_start(t), q) == kw {
        (Ok(()), q)
    } else {
        backtrack(Error::Expected(ty, tok_type(t)), q)
    }
}

/// An identifier, recorded at the position where spaces end.
pub open spec fn sp_ident(s: Seq<u8>, p: int) -> SRes<IdentOffset> {
    let start = skip_spaces(s, p);
    let (t, q) = lex(s, p);
    if tok_type(t) == TokenType::Ident {
        (Ok(IdentOffset { start: start as u32 }), q)
    } else {
        backtrack(Error::Expected(TokenType::Ident, tok_type(t)), q)
    }
}

/// Whether bytes `a` and `b` are equal.
pub fn bytes_eq(a: &[u8], b: &[u8]) -> (r: bool)
    ensures
        r == (a@ == b@),
{
    if a.len() != b.len() {
        return false;
    }
    let mut i: usize = 0;
    while i < a.len()
        invariant
            a@.len() == b@.len(),
            i <= a@.len(),
            forall|j: int| 0 <= j < i ==> a@[j] == b@[j],
        decreases a@.len() - i,
    {
        if a[i] != b[i] {
            return false;
        }
        i = i + 1;
    }
    assert(a@ =~= b@);
    true
}

pub open spec fn kw_code() -> Seq<u8> {
    seq![0x63u8, 0x6fu8, 0x64u8, 0x65u8]
}

pub open spec fn kw_use() -> Seq<u8> {
    seq![0x75u8, 0x73u8, 0x65u8]
}

pub open spec fn kw_as() -> Seq<u8> {
    seq![0x61u8, 0x73u8]
}

pub open spec fn kw_fn() -> Seq<u8> {
    seq![0x66u8, 0x6eu8]
}

pub open spec fn kw_entity() -> Seq<u8> {
    seq![0x45u8, 0x6eu8, 0x74u8, 0x69u8, 0x74u8, 0x79u8]
}

pub open spec fn kw_spawn() -> Seq<u8> {
    seq![0x73u8, 0x70u8, 0x61u8, 0x77u8, 0x6eu8]
}

/// `code`
pub fn keyword_code() -> (r: [u8; 4])
    ensures
        r@ == kw_code(),
{
    [0x63, 0x6f, 0x64, 0x65]
}

/// `use`
pub fn keyword_use() -> (r: [u8; 3])
    ensures
        r@ == kw_use(),
{
    [0x75, 0x73, 0x65]
}

/// `as`
pub fn keyword_as() -> (r: [u8; 2])
    ensures
        r@ == kw_as(),
{
    [0x61, 0x73]
}

/// `fn`
pub fn keyword_fn() -> (r: [u8; 2])
    ensures
        r@ == kw_fn(),
{
    [0x66, 0x6e]
}

/// `Entity`
pub fn keyword_entity() -> (r: [u8; 6])
    ensures
        r@ == kw_entity(),
{
    [0x45, 0x6e, 0x74, 0x69, 0x74, 0x79]
}

/// `spawn`
pub fn keyword_spawn() -> (r: [u8; 5])
    ensures
        r@ == kw_spawn(),
{
    [0x73, 0x70, 0x61, 0x77, 0x6e]
}

/// Parse a token of type `ty`.
pub fn expect<'i>(input: &mut Input<'i>, ty: TokenType) -> (r: Result<(), ErrMode>)
    requires
        old(input).wf(),
    ensures
        final(input).wf(),
        final(input).src() == old(input).src(),
        (r, final(input).offset()) == sp_expect(old(input).src(), old(input).offset(), ty),
{
    let got = input.next_token();
    proof {
        input.lemma_wf();
    }
    let got_ty = TokenType::from_token(got);
    if got_ty == ty {
        Ok(())
    } else {
        Err(ErrMode::Backtrack(Error::Expected(ty, got_ty)))
    }
}

/// Parse the identifier `kw`, reported as token type `ty` in errors.
pub fn keyword<'i>(input: &mut Input<'i>, kw: &[u8], ty: TokenType) -> (r: Result<(), ErrMode>)
    requires
        old(input).wf(),
    ensures
        final(input).wf(),
        final(input).src() == old(input).src(),
        (r, final(input).offset()) == sp_keyword(old(input).src(), old(input).offset(), kw@, ty),
{
    let got = input.next_token();
    proof {
        input.lemma_wf();
    }
    match got {
        Some(Token::Ident(ident)) => {
            if bytes_eq(ident, kw) {
                return Ok(());
            }
        },
        _ => {},
    }
    Err(ErrMode::Backtrack(Error::Expected(ty, TokenType::from_token(got))))
}

/// Parse an identifier, recording where it starts.
pub fn ident<'i>(input: &mut Input<'i>) -> (r: Result<IdentOffset, ErrMode>)
    requires
        old(input).wf(),
    ensures
        final(input).wf(),
        final(input).src() == old(input).src(),
        (r, final(input).offset()) == sp_ident(old(input).src(), old(input).offset()),
{
    let start = input.next_start();
    let got = input.next_token();
    proof {
        input.lemma_wf();
    }
    match got {
        Some(Token::Ident(_)) => Ok(IdentOffset::new(start)),
        got => Err(ErrMode::Backtrack(Error::Expected(TokenType::Ident, TokenType::from_token(got)))),
    }
}


// ---------------------------------------------------------------------------
// Specification: token trees and arguments
// ---------------------------------------------------------------------------

/// Closing delimiter of an opening one.
pub open spec fn closing(ty: TokenType) -> TokenType {
    if ty == TokenType::Lparen {
        TokenType::Rparen
    } else if ty == TokenType::Lbracket {
        TokenType::Rbracket
    } else {
        TokenType::Rcurly
    }
}

/// A successful result mapped through `f`.
pub open spec fn map_ok<T, V>(r: Result<T, ErrMode>, f: spec_fn(T) -> V) -> Result<V, ErrMode> {
    match r {
        Ok(t) => Ok(f(t)),
        Err(e) => Err(e),
    }
}

/// A single token tree: a token other than a closing delimiter, or a
/// balanced delimited list of token trees, possibly empty. With `split`, a comma is not a
/// token tree.
///
/// A missing token backtracks to `p`; a stray closing delimiter backtracks
/// after it.
pub open spec fn sp_token_tree(s: Seq<u8>, p: int, split: bool) -> SRes<()>
    decreases s.len() - p, 0int,
{
    if p < 0 || p > s.len() {
        cut(Error::Unexpected, p)
    } else {
        let (t, e) = lex(s, p);
        match t {
            None => backtrack(Error::Unexpected, p),
            Some((ty, _)) => {
                if ty == TokenType::Lparen || ty == TokenType::Lbracket || ty == TokenType::Lcurly {
                    proof {
                        lex::lemma_lex_bounds(s, p);
                    }
                    let (r, q) = sp_tts_loop(s, e, false);
                    match r {
                        Err(x) => (Err(x), q),
                        Ok(_) => sp_expect(s, q, closing(ty)),
                    }
                } else if ty == TokenType::Comma && split {
                    backtrack(Error::Unexpected, e)
                } else if ty == TokenType::Ident || ty == TokenType::String || ty
                    == TokenType::Comma || ty == TokenType::Equal {
                    (Ok(()), e)
                } else if ty == TokenType::Rparen || ty == TokenType::Rbracket || ty
                    == TokenType::Rcurly {
                    backtrack(Error::Unexpected, e)
                } else {
                    cut(Error::Unbalanced, e)
                }
            },
        }
    }
}

/// One or more token trees, as the argument spanning them: from where the
/// first one starts (spaces skipped) to where the last one ends.
pub open spec fn sp_many_tts(s: Seq<u8>, p: int, split: bool) -> SRes<Argument>
    decreases s.len() - p, 2int,
{
    let start = skip_spaces(s, p);
    let (r, q) = sp_token_tree(s, p, split);
    match r {
        Err(x) => (Err(x), q),
        Ok(_) => if q <= p || q > s.len() {
            // Never taken: a token tree always consumes a token.
            cut(Error::Unexpected, q)
        } else {
            let (r2, q2) = sp_tts_loop(s, q, split);
            match r2 {
                Err(x) => (Err(x), q2),
                Ok(_) => (Ok(Argument { start: start as u32, end: q2 as u32 }), q2),
            }
        },
    }
}

/// Token trees following the first one, as many as parse.
pub open spec fn sp_tts_loop(s: Seq<u8>, p: int, split: bool) -> SRes<()>
    decreases s.len() - p, 1int,
{
    let (r, q) = sp_token_tree(s, p, split);
    match r {
        Err(ErrMode::Backtrack(_)) => (Ok(()), p),
        Err(x) => (Err(x), q),
        Ok(_) => if q <= p || q > s.len() {
            cut(Error::Unexpected, q)
        } else {
            sp_tts_loop(s, q, split)
        },
    }
}

/// Positions only move forward, within the input, and a parsed token tree
/// consumes input.
pub proof fn lemma_tt_bounds(s: Seq<u8>, p: int, split: bool)
    requires
        0 <= p <= s.len(),
    ensures
        p <= sp_token_tree(s, p, split).1 <= s.len(),
        sp_token_tree(s, p, split).0 is Ok ==> p < sp_token_tree(s, p, split).1,
        p <= sp_many_tts(s, p, split).1 <= s.len(),
        sp_many_tts(s, p, split).0 is Ok ==> p < sp_many_tts(s, p, split).1,
        p <= sp_tts_loop(s, p, split).1 <= s.len(),
    decreases s.len() - p, 3int,
{
    lemma_token_tree_bounds(s, p, split);
    lemma_many_tts_bounds(s, p, split);
    lemma_tts_loop_bounds(s, p, split);
}

proof fn lemma_token_tree_bounds(s: Seq<u8>, p: int, split: bool)
    requires
        0 <= p <= s.len(),
    ensures
        p <= sp_token_tree(s, p, split).1 <= s.len(),
        sp_token_tree(s, p, split).0 is Ok ==> p < sp_token_tree(s, p, split).1,
    decreases s.len() - p, 0int,
{
    lex::lemma_lex_bounds(s, p);
    let (t, e) = lex(s, p);
    if let Some((ty, _)) = t {
        if ty == TokenType::Lparen || ty == TokenType::Lbracket || ty == TokenType::Lcurly {
            lemma_tts_loop_bounds(s, e, false);
            let (r, q) = sp_tts_loop(s, e, false);
            if r is Ok {
                lex::lemma_lex_bounds(s, q);
            }
        }
    }
}

proof fn lemma_many_tts_bounds(s: Seq<u8>, p: int, split: bool)
    requires
        0 <= p <= s.len(),
    ensures
        p <= sp_many_tts(s, p, split).1 <= s.len(),
        sp_many_tts(s, p, split).0 is Ok ==> p < sp_many_tts(s, p, split).1,
    decreases s.len() - p, 2int,
{
    lemma_token_tree_bounds(s, p, split);
    let (r, q) = sp_token_tree(s, p, split);
    if r is Ok && q > p {
        lemma_tts_loop_bounds(s, q, split);
    }
}

proof fn lemma_tts_loop_bounds(s: Seq<u8>, p: int, split: bool)
    requires
        0 <= p <= s.len(),
    ensures
        p <= sp_tts_loop(s, p, split).1 <= s.len(),
    decreases s.len() - p, 1int,
{
    lemma_token_tree_bounds(s, p, split);
    let (r, q) = sp_token_tree(s, p, split);
    if r is Ok && q > p {
        lemma_tts_loop_bounds(s, q, split);
    }
}

/// Where a token of type `ty` is expected.
pub proof fn lemma_expect_bounds(s: Seq<u8>, p: int, ty: TokenType)
    requires
        0 <= p <= s.len(),
        ty != TokenType::Eof,
    ensures
        p <= sp_expect(s, p, ty).1 <= s.len(),
        sp_expect(s, p, ty).0 is Ok ==> p < sp_expect(s, p, ty).1,
{
    lex::lemma_lex_bounds(s, p);
}

/// Where an identifier or keyword is expected.
pub proof fn lemma_ident_bounds(s: Seq<u8>, p: int, kw: Seq<u8>, ty: TokenType)
    requires
        0 <= p <= s.len(),
    ensures
        p <= sp_ident(s, p).1 <= s.len(),
        sp_ident(s, p).0 is Ok ==> p < sp_ident(s, p).1,
        p <= sp_keyword(s, p, kw, ty).1 <= s.len(),
        sp_keyword(s, p, kw, ty).0 is Ok ==> p < sp_keyword(s, p, kw, ty).1,
{
    lex::lemma_lex_bounds(s, p);
}

/// Comma separated arguments, possibly none.
pub open spec fn sp_sep_args(s: Seq<u8>, p: int) -> SRes<Seq<Argument>> {
    let (r, q) = sp_many_tts(s, p, true);
    match r {
        Err(ErrMode::Backtrack(_)) => (Ok(Seq::empty()), p),
        Err(x) => (Err(x), q),
        Ok(a) => sp_sep_rest(s, q, seq![a]),
    }
}

/// The arguments following the first one, each preceded by a comma. When an
/// argument does not follow a comma, the comma is left unparsed.
pub open spec fn sp_sep_rest(s: Seq<u8>, p: int, acc: Seq<Argument>) -> SRes<Seq<Argument>>
    decreases s.len() - p,
{
    let (r, q) = sp_expect(s, p, TokenType::Comma);
    match r {
        Err(ErrMode::Backtrack(_)) => (Ok(acc), p),
        Err(x) => (Err(x), q),
        Ok(_) => if q <= p || q > s.len() {
            cut(Error::Unexpected, q)
        } else {
            let (r2, q2) = sp_many_tts(s, q, true);
            match r2 {
                Err(ErrMode::Backtrack(_)) => (Ok(acc), p),
                Err(x) => (Err(x), q2),
                Ok(a) => {
                    proof {
                        lemma_tt_bounds(s, q, true);
                    }
                    sp_sep_rest(s, q2, acc.push(a))
                },
            }
        },
    }
}

/// `'(' arguments ')'`
pub open spec fn sp_paren_args(s: Seq<u8>, p: int) -> SRes<Seq<Argument>> {
    let (r, q) = sp_expect(s, p, TokenType::Lparen);
    match r {
        Err(x) => (Err(x), q),
        Ok(_) => {
            let (r2, q2) = sp_sep_args(s, q);
            match r2 {
                Err(x) => (Err(x), q2),
                Ok(args) => {
                    let (r3, q3) = sp_expect(s, q2, TokenType::Rparen);
                    match r3 {
                        Err(x) => (Err(x), q3),
                        Ok(_) => (Ok(args), q3),
                    }
                },
            }
        },
    }
}

pub proof fn lemma_sep_rest_bounds(s: Seq<u8>, p: int, acc: Seq<Argument>)
    requires
        0 <= p <= s.len(),
    ensures
        p <= sp_sep_rest(s, p, acc).1 <= s.len(),
    decreases s.len() - p,
{
    lemma_expect_bounds(s, p, TokenType::Comma);
    let (r, q) = sp_expect(s, p, TokenType::Comma);
    if r is Ok && q > p {
        lemma_tt_bounds(s, q, true);
        let (r2, q2) = sp_many_tts(s, q, true);
        if let Ok(a) = r2 {
            lemma_sep_rest_bounds(s, q2, acc.push(a));
        }
    }
}

/// Both ends of argument `a` are next to ASCII bytes of `s`.
pub open spec fn arg_edges(s: Seq<u8>, a: Argument) -> bool {
    lex::ascii_edge(s, a.start as int) && lex::ascii_edge(s, a.end as int)
}

proof fn lemma_token_tree_edge(s: Seq<u8>, p: int, split: bool)
    requires
        0 <= p <= s.len(),
    ensures
        sp_token_tree(s, p, split).0 is Ok ==> lex::ascii_edge(s, sp_token_tree(s, p, split).1),
{
    lex::lemma_lex_bounds(s, p);
    let (t, e) = lex(s, p);
    if let Some((ty, _)) = t {
        if ty == TokenType::Lparen || ty == TokenType::Lbracket || ty == TokenType::Lcurly {
            lemma_tts_loop_bounds(s, e, false);
            let (r, q) = sp_tts_loop(s, e, false);
            if r is Ok {
                lex::lemma_lex_bounds(s, q);
                if lex(s, q).0 is Some {
                    lex::lemma_lex_end_edge(s, q);
                }
            }
        } else {
            lex::lemma_lex_end_edge(s, p);
        }
    }
}

proof fn lemma_tts_loop_edge(s: Seq<u8>, p: int, split: bool)
    requires
        0 <= p <= s.len(),
        lex::ascii_edge(s, p),
    ensures
        sp_tts_loop(s, p, split).0 is Ok ==> lex::ascii_edge(s, sp_tts_loop(s, p, split).1),
    decreases s.len() - p,
{
    lemma_token_tree_bounds(s, p, split);
    let (r, q) = sp_token_tree(s, p, split);
    if r is Ok && p < q <= s.len() {
        lemma_token_tree_edge(s, p, split);
        lemma_tts_loop_edge(s, q, split);
    }
}

/// Both ends of an argument are next to ASCII bytes.
proof fn lemma_many_tts_edge(s: Seq<u8>, p: int, split: bool)
    requires
        0 <= p <= s.len(),
        s.len() <= u32::MAX,
        lex::ascii_edge(s, p),
    ensures
        sp_many_tts(s, p, split).0 matches Ok(a) ==> arg_edges(s, a) && a.end == sp_many_tts(
            s,
            p,
            split,
        ).1,
{
    lemma_token_tree_bounds(s, p, split);
    let (r, q) = sp_token_tree(s, p, split);
    if r is Ok && p < q <= s.len() {
        lemma_token_tree_edge(s, p, split);
        lemma_tts_loop_bounds(s, q, split);
        lemma_tts_loop_edge(s, q, split);
        lex::lemma_skip_spaces_bounds(s, p);
        lex::lemma_skip_spaces_edge(s, p);
    }
}

proof fn lemma_sep_rest_edge(s: Seq<u8>, p: int, acc: Seq<Argument>)
    requires
        0 <= p <= s.len(),
        s.len() <= u32::MAX,
        forall|j: int| 0 <= j < acc.len() ==> arg_edges(s, #[trigger] acc[j]),
    ensures
        sp_sep_rest(s, p, acc).0 matches Ok(args) ==> forall|j: int|
            0 <= j < args.len() ==> arg_edges(s, #[trigger] args[j]),
    decreases s.len() - p,
{
    lemma_expect_bounds(s, p, TokenType::Comma);
    let (r, q) = sp_expect(s, p, TokenType::Comma);
    if r is Ok && p < q <= s.len() {
        lex::lemma_lex_end_edge(s, p);
        lemma_tt_bounds(s, q, true);
        lemma_many_tts_edge(s, q, true);
        let (r2, q2) = sp_many_tts(s, q, true);
        if let Ok(a) = r2 {
            assert forall|j: int| 0 <= j < acc.push(a).len() implies arg_edges(
                s,
                #[trigger] acc.push(a)[j],
            ) by {
                if j < acc.len() {
                    assert(acc.push(a)[j] == acc[j]);
                }
            }
            lemma_sep_rest_edge(s, q2, acc.push(a));
        }
    }
}

/// Both ends of every argument of an argument list are next to ASCII bytes.
pub proof fn lemma_arg_list_edges(s: Seq<u8>)
    requires
        s.len() <= u32::MAX,
    ensures
        sp_arg_list(s).0 matches Ok(args) ==> forall|j: int|
            0 <= j < args.len() ==> arg_edges(s, #[trigger] args[j]),
{
    lemma_tt_bounds(s, 0, true);
    lemma_many_tts_edge(s, 0, true);
    let (r, q) = sp_many_tts(s, 0, true);
    if let Ok(a) = r {
        assert forall|j: int| 0 <= j < seq![a].len() implies arg_edges(s, #[trigger] seq![a][j]) by {
            assert(seq![a][j] == a);
        }
        lemma_sep_rest_edge(s, q, seq![a]);
    }
}

pub proof fn lemma_paren_args_bounds(s: Seq<u8>, p: int)
    requires
        0 <= p <= s.len(),
    ensures
        p <= sp_sep_args(s, p).1 <= s.len(),
        p <= sp_paren_args(s, p).1 <= s.len(),
        sp_paren_args(s, p).0 is Ok ==> p < sp_paren_args(s, p).1,
{
    lemma_tt_bounds(s, p, true);
    let (r, q) = sp_many_tts(s, p, true);
    if let Ok(a) = r {
        lemma_sep_rest_bounds(s, q, seq![a]);
    }
    lemma_expect_bounds(s, p, TokenType::Lparen);
    let (r1, q1) = sp_expect(s, p, TokenType::Lparen);
    if r1 is Ok {
        lemma_tt_bounds(s, q1, true);
        let (r, q) = sp_many_tts(s, q1, true);
        if let Ok(a) = r {
            lemma_sep_rest_bounds(s, q, seq![a]);
        }
        let q2 = sp_sep_args(s, q1).1;
        lemma_expect_bounds(s, q2, TokenType::Rparen);
    }
}

// ---------------------------------------------------------------------------
// Specification: methods
// ---------------------------------------------------------------------------

/// `ident ('(' arguments ')')?`
pub open spec fn sp_method(s: Seq<u8>, p: int) -> SRes<SpecMethod> {
    let (r, q) = sp_ident(s, p);
    match r {
        Err(x) => (Err(x), q),
        Ok(name) => {
            let (r2, q2) = sp_paren_args(s, q);
            match r2 {
                Err(ErrMode::Backtrack(_)) => (Ok(SpecMethod { name, arguments: Seq::empty() }), q),
                Err(x) => (Err(x), q2),
                Ok(arguments) => (Ok(SpecMethod { name, arguments }), q2),
            }
        },
    }
}

/// Methods, as many as parse, appended to `acc`.
pub open spec fn sp_methods(s: Seq<u8>, p: int, acc: Seq<SpecMethod>) -> SRes<Seq<SpecMethod>>
    decreases s.len() - p,
{
    let (r, q) = sp_method(s, p);
    match r {
        Err(ErrMode::Backtrack(_)) => (Ok(acc), p),
        Err(x) => (Err(x), q),
        Ok(m) => if q <= p || q > s.len() {
            cut(Error::Unexpected, q)
        } else {
            sp_methods(s, q, acc.push(m))
        },
    }
}

/// `('(' methods ')')?`
pub open spec fn sp_opt_methods(s: Seq<u8>, p: int) -> SRes<Seq<SpecMethod>> {
    let (r, q) = sp_expect(s, p, TokenType::Lparen);
    match r {
        Err(ErrMode::Backtrack(_)) => (Ok(Seq::empty()), p),
        Err(x) => (Err(x), q),
        Ok(_) => {
            let (r2, q2) = sp_methods(s, q, Seq::empty());
            match r2 {
                Err(ErrMode::Backtrack(_)) => (Ok(Seq::empty()), p),
                Err(x) => (Err(x), q2),
                Ok(ms) => {
                    let (r3, q3) = sp_expect(s, q2, TokenType::Rparen);
                    match r3 {
                        Err(ErrMode::Backtrack(_)) => (Ok(Seq::empty()), p),
                        Err(x) => (Err(x), q3),
                        Ok(_) => (Ok(ms), q3),
                    }
                },
            }
        },
    }
}

pub proof fn lemma_method_bounds(s: Seq<u8>, p: int)
    requires
        0 <= p <= s.len(),
    ensures
        p <= sp_method(s, p).1 <= s.len(),
        sp_method(s, p).0 is Ok ==> p < sp_method(s, p).1,
{
    lemma_ident_bounds(s, p, Seq::empty(), TokenType::Ident);
    let (r, q) = sp_ident(s, p);
    if r is Ok {
        lemma_paren_args_bounds(s, q);
    }
}

pub proof fn lemma_methods_bounds(s: Seq<u8>, p: int, acc: Seq<SpecMethod>)
    requires
        0 <= p <= s.len(),
    ensures
        p <= sp_methods(s, p, acc).1 <= s.len(),
    decreases s.len() - p,
{
    lemma_method_bounds(s, p);
    let (r, q) = sp_method(s, p);
    if let Ok(m) = r {
        if q > p {
            lemma_methods_bounds(s, q, acc.push(m));
        }
    }
}

pub proof fn lemma_opt_methods_bounds(s: Seq<u8>, p: int)
    requires
        0 <= p <= s.len(),
    ensures
        p <= sp_opt_methods(s, p).1 <= s.len(),
{
    lemma_expect_bounds(s, p, TokenType::Lparen);
    let (r, q) = sp_expect(s, p, TokenType::Lparen);
    if r is Ok {
        lemma_methods_bounds(s, q, Seq::empty());
        let q2 = sp_methods(s, q, Seq::empty()).1;
        lemma_expect_bounds(s, q2, TokenType::Rparen);
    }
}

// ---------------------------------------------------------------------------
// Specification: statements
// ---------------------------------------------------------------------------

/// Whether the token `st..e` of `s` is the identifier `kw`.
pub open spec fn is_word(s: Seq<u8>, st: int, e: int, kw: Seq<u8>) -> bool {
    s.subrange(st, e) == kw
}

/// `'(' ident ')'`, after `code`.
pub open spec fn sp_code(s: Seq<u8>, p: int) -> SRes<SpecNode> {
    let (r, q) = sp_expect(s, p, TokenType::Lparen);
    match r {
        Err(x) => (Err(x), q),
        Ok(_) => {
            let (r2, q2) = sp_ident(s, q);
            match r2 {
                Err(x) => (Err(x), q2),
                Ok(name) => {
                    let (r3, q3) = sp_expect(s, q2, TokenType::Rparen);
                    match r3 {
                        Err(x) => (Err(x), q3),
                        Ok(_) => (Ok(SpecNode::Code(name)), q3),
                    }
                },
            }
        },
    }
}

/// A statement: `code(ident)`, a template call `name!(arguments)`, or an
/// entity named by an identifier or a string literal.
pub open spec fn sp_node(s: Seq<u8>, p: int) -> SRes<SpecNode>
    decreases s.len() - p, 0int,
{
    if p < 0 || p > s.len() {
        cut(Error::Unexpected, p)
    } else {
        let (t, e) = lex(s, p);
        match t {
            None => cut(Error::StartStatement(TokenType::Eof), e),
            Some((ty, st)) => {
                proof {
                    lex::lemma_lex_bounds(s, p);
                }
                sp_node_token(s, skip_spaces(s, p) as u32, ty, s.subrange(st, e), e)
            },
        }
    }
}

/// The entity name for the statement name `word` found at `start`: the
/// names `Entity` and `spawn` stand for no name.
pub open spec fn entity_name(word: Seq<u8>, start: u32) -> OptNameOffset {
    OptNameOffset::spec_from(
        if word == kw_entity() || word == kw_spawn() {
            None
        } else {
            Some(start)
        },
    )
}

/// A statement whose first token, of type `ty` and text `word`, starts at
/// `start` and ends at `p`.
pub open spec fn sp_node_token(s: Seq<u8>, start: u32, ty: TokenType, word: Seq<u8>, p: int) -> SRes<
    SpecNode,
>
    decreases s.len() - p, 2int,
{
    if ty == TokenType::Ident && word == kw_code() {
        sp_code(s, p)
    } else if ty == TokenType::Ident && word.len() > 0 && word.last() == 0x21 {
        let (r, q) = sp_template(s, start, p);
        (map_ok(r, |t: SpecTemplate| SpecNode::Template(t)), q)
    } else if ty == TokenType::Ident || ty == TokenType::String {
        let (r, q) = sp_statement(s, entity_name(word, start), p);
        (map_ok(r, |st: SpecStatement| SpecNode::Statement(st)), q)
    } else if ty == TokenType::Rcurly {
        backtrack(Error::Unexpected, p)
    } else {
        cut(Error::StartStatement(ty), p)
    }
}

/// After an entity name: `'(' methods ')' ('{' statements '}')?` or
/// `'{' statements '}'`.
pub open spec fn sp_statement(s: Seq<u8>, name: OptNameOffset, p: int) -> SRes<SpecStatement>
    decreases s.len() - p, 1int,
{
    if p < 0 || p > s.len() {
        cut(Error::Unexpected, p)
    } else {
        let (t, e) = lex(s, p);
        proof {
            lex::lemma_lex_bounds(s, p);
        }
        if tok_type(t) == TokenType::Lparen {
            let (r, q) = sp_methods(s, e, Seq::empty());
            match r {
                Err(x) => (Err(x), q),
                Ok(methods) => {
                    let (r2, q2) = sp_expect(s, q, TokenType::Rparen);
                    match r2 {
                        Err(x) => (Err(x), q2),
                        Ok(_) => {
                            proof {
                                lemma_methods_bounds(s, e, Seq::empty());
                                lemma_expect_bounds(s, q, TokenType::Rparen);
                            }
                            let (r3, q3) = sp_opt_children(s, q2);
                            match r3 {
                                Err(x) => (Err(x), q3),
                                Ok(children) => (Ok(SpecStatement { name, methods, children }), q3),
                            }
                        },
                    }
                },
            }
        } else if tok_type(t) == TokenType::Lcurly {
            let (r, q) = sp_nodes(s, e, Seq::empty());
            match r {
                Err(x) => (Err(x), q),
                Ok(children) => {
                    let (r2, q2) = sp_expect(s, q, TokenType::Rcurly);
                    match r2 {
                        Err(x) => (Err(x), q2),
                        Ok(_) => (Ok(SpecStatement { name, methods: Seq::empty(), children }), q2),
                    }
                },
            }
        } else {
            cut(Error::StatementDelimiter(tok_type(t)), e)
        }
    }
}

/// After a template name: `'(' arguments ')' ('(' methods ')')?
/// ('{' statements '}')?`.
pub open spec fn sp_template(s: Seq<u8>, name: u32, p: int) -> SRes<SpecTemplate>
    decreases s.len() - p, 1int,
{
    if p < 0 || p > s.len() {
        cut(Error::Unexpected, p)
    } else {
        let (r, q) = sp_paren_args(s, p);
        match r {
            Err(x) => (Err(x), q),
            Ok(arguments) => {
                let (r2, q2) = sp_opt_methods(s, q);
                match r2 {
                    Err(x) => (Err(x), q2),
                    Ok(methods) => {
                        proof {
                            lemma_paren_args_bounds(s, p);
                            lemma_opt_methods_bounds(s, q);
                        }
                        let (r3, q3) = sp_opt_children(s, q2);
                        match r3 {
                            Err(x) => (Err(x), q3),
                            Ok(children) => (
                                Ok(
                                    SpecTemplate {
                                        name: IdentOffset { start: name },
                                        arguments,
                                        methods,
                                        children,
                                    },
                                ),
                                q3,
                            ),
                        }
                    },
                }
            },
        }
    }
}

/// `('{' statements '}')?`
pub open spec fn sp_opt_children(s: Seq<u8>, p: int) -> SRes<Seq<SpecNode>>
    decreases s.len() - p, 0int,
{
    if p < 0 || p > s.len() {
        cut(Error::Unexpected, p)
    } else {
        let (r, q) = sp_expect(s, p, TokenType::Lcurly);
        match r {
            Err(ErrMode::Backtrack(_)) => (Ok(Seq::empty()), p),
            Err(x) => (Err(x), q),
            Ok(_) => {
                proof {
                    lemma_expect_bounds(s, p, TokenType::Lcurly);
                }
                let (r2, q2) = sp_nodes(s, q, Seq::empty());
                match r2 {
                    Err(ErrMode::Backtrack(_)) => (Ok(Seq::empty()), p),
                    Err(x) => (Err(x), q2),
                    Ok(children) => {
                        let (r3, q3) = sp_expect(s, q2, TokenType::Rcurly);
                        match r3 {
                            Err(ErrMode::Backtrack(_)) => (Ok(Seq::empty()), p),
                            Err(x) => (Err(x), q3),
                            Ok(_) => (Ok(children), q3),
                        }
                    },
                }
            },
        }
    }
}

/// Statements, as many as parse, appended to `acc`.
pub open spec fn sp_nodes(s: Seq<u8>, p: int, acc: Seq<SpecNode>) -> SRes<Seq<SpecNode>>
    decreases s.len() - p, 1int,
{
    let (r, q) = sp_node(s, p);
    match r {
        Err(ErrMode::Backtrack(_)) => (Ok(acc), p),
        Err(x) => (Err(x), q),
        Ok(n) => if q <= p || q > s.len() {
            cut(Error::Unexpected, q)
        } else {
            sp_nodes(s, q, acc.push(n))
        },
    }
}

pub proof fn lemma_code_bounds(s: Seq<u8>, p: int)
    requires
        0 <= p <= s.len(),
    ensures
        p <= sp_code(s, p).1 <= s.len(),
        sp_code(s, p).0 is Ok ==> p < sp_code(s, p).1,
{
    lemma_expect_bounds(s, p, TokenType::Lparen);
    let (r, q) = sp_expect(s, p, TokenType::Lparen);
    if r is Ok {
        lemma_ident_bounds(s, q, Seq::empty(), TokenType::Ident);
        let (r2, q2) = sp_ident(s, q);
        if r2 is Ok {
            lemma_expect_bounds(s, q2, TokenType::Rparen);
        }
    }
}

/// Statements only move forward, within the input, and a parsed statement
/// consumes input.
pub proof fn lemma_node_bounds(s: Seq<u8>, p: int)
    requires
        0 <= p <= s.len(),
    ensures
        p <= sp_node(s, p).1 <= s.len(),
        sp_node(s, p).0 is Ok ==> p < sp_node(s, p).1,
    decreases s.len() - p, 0int,
{
    lex::lemma_lex_bounds(s, p);
    let (t, e) = lex(s, p);
    if let Some((ty, st)) = t {
        lemma_node_token_bounds(s, skip_spaces(s, p) as u32, ty, s.subrange(st, e), e);
    }
}

proof fn lemma_node_token_bounds(s: Seq<u8>, start: u32, ty: TokenType, word: Seq<u8>, p: int)
    requires
        0 <= p <= s.len(),
    ensures
        p <= sp_node_token(s, start, ty, word, p).1 <= s.len(),
    decreases s.len() - p, 2int,
{
    if ty == TokenType::Ident && word == kw_code() {
        lemma_code_bounds(s, p);
    } else if ty == TokenType::Ident && word.len() > 0 && word.last() == 0x21 {
        lemma_template_bounds(s, start, p);
    } else if ty == TokenType::Ident || ty == TokenType::String {
        lemma_statement_bounds(s, entity_name(word, start), p);
    }
}

proof fn lemma_statement_bounds(s: Seq<u8>, name: OptNameOffset, p: int)
    requires
        0 <= p <= s.len(),
    ensures
        p <= sp_statement(s, name, p).1 <= s.len(),
    decreases s.len() - p, 1int,
{
    lex::lemma_lex_bounds(s, p);
    let (t, e) = lex(s, p);
    if tok_type(t) == TokenType::Lparen {
        lemma_methods_bounds(s, e, Seq::empty());
        let (r, q) = sp_methods(s, e, Seq::empty());
        if r is Ok {
            lemma_expect_bounds(s, q, TokenType::Rparen);
            let (r2, q2) = sp_expect(s, q, TokenType::Rparen);
            if r2 is Ok {
                lemma_opt_children_bounds(s, q2);
            }
        }
    } else if tok_type(t) == TokenType::Lcurly {
        lemma_nodes_bounds(s, e, Seq::empty());
        let (r, q) = sp_nodes(s, e, Seq::empty());
        if r is Ok {
            lemma_expect_bounds(s, q, TokenType::Rcurly);
        }
    }
}

proof fn lemma_template_bounds(s: Seq<u8>, name: u32, p: int)
    requires
        0 <= p <= s.len(),
    ensures
        p <= sp_template(s, name, p).1 <= s.len(),
    decreases s.len() - p, 1int,
{
    lemma_paren_args_bounds(s, p);
    let (r, q) = sp_paren_args(s, p);
    if r is Ok {
        lemma_opt_methods_bounds(s, q);
        let (r2, q2) = sp_opt_methods(s, q);
        if r2 is Ok {
            lemma_opt_children_bounds(s, q2);
        }
    }
}

proof fn lemma_opt_children_bounds(s: Seq<u8>, p: int)
    requires
        0 <= p <= s.len(),
    ensures
        p <= sp_opt_children(s, p).1 <= s.len(),
    decreases s.len() - p, 0int,
{
    lemma_expect_bounds(s, p, TokenType::Lcurly);
    let (r, q) = sp_expect(s, p, TokenType::Lcurly);
    if r is Ok {
        lemma_nodes_bounds(s, q, Seq::empty());
        let (r2, q2) = sp_nodes(s, q, Seq::empty());
        if r2 is Ok {
            lemma_expect_bounds(s, q2, TokenType::Rcurly);
        }
    }
}

proof fn lemma_nodes_bounds(s: Seq<u8>, p: int, acc: Seq<SpecNode>)
    requires
        0 <= p <= s.len(),
    ensures
        p <= sp_nodes(s, p, acc).1 <= s.len(),
    decreases s.len() - p, 1int,
{
    lemma_node_bounds(s, p);
    let (r, q) = sp_node(s, p);
    if let Ok(n) = r {
        if q > p {
            lemma_nodes_bounds(s, q, acc.push(n));
        }
    }
}

// ---------------------------------------------------------------------------
// Specification: imports, functions and whole files
// ---------------------------------------------------------------------------

/// `('as' ident)?`
pub open spec fn sp_alias(s: Seq<u8>, p: int) -> SRes<Option<IdentOffset>> {
    let (r, q) = sp_keyword(s, p, kw_as(), TokenType::As);
    match r {
        Err(ErrMode::Backtrack(_)) => (Ok(None), p),
        Err(x) => (Err(x), q),
        Ok(_) => {
            let (r2, q2) = sp_ident(s, q);
            match r2 {
                Err(ErrMode::Backtrack(_)) => (Ok(None), p),
                Err(x) => (Err(x), q2),
                Ok(alias) => (Ok(Some(alias)), q2),
            }
        },
    }
}

/// `'use' ident ('as' ident)?`
pub open spec fn sp_import(s: Seq<u8>, p: int) -> SRes<SpecImport> {
    let (r, q) = sp_keyword(s, p, kw_use(), TokenType::Use);
    match r {
        Err(x) => (Err(x), q),
        Ok(_) => {
            let (r2, q2) = sp_ident(s, q);
            match r2 {
                Err(x) => (Err(x), q2),
                Ok(name) => {
                    let (r3, q3) = sp_alias(s, q2);
                    match r3 {
                        Err(x) => (Err(x), q3),
                        Ok(alias) => (
                            Ok(SpecImport { name, alias: OptIdentOffset::spec_from(alias) }),
                            q3,
                        ),
                    }
                },
            }
        },
    }
}

/// Imports, as many as parse, appended to `acc`.
pub open spec fn sp_imports(s: Seq<u8>, p: int, acc: Seq<SpecImport>) -> SRes<Seq<SpecImport>>
    decreases s.len() - p,
{
    let (r, q) = sp_import(s, p);
    match r {
        Err(ErrMode::Backtrack(_)) => (Ok(acc), p),
        Err(x) => (Err(x), q),
        Ok(i) => if q <= p || q > s.len() {
            cut(Error::Unexpected, q)
        } else {
            sp_imports(s, q, acc.push(i))
        },
    }
}

/// Comma separated identifiers, possibly none.
pub open spec fn sp_sep_idents(s: Seq<u8>, p: int) -> SRes<Seq<IdentOffset>> {
    let (r, q) = sp_ident(s, p);
    match r {
        Err(ErrMode::Backtrack(_)) => (Ok(Seq::empty()), p),
        Err(x) => (Err(x), q),
        Ok(a) => sp_idents_rest(s, q, seq![a]),
    }
}

/// The identifiers following the first one, each preceded by a comma.
pub open spec fn sp_idents_rest(s: Seq<u8>, p: int, acc: Seq<IdentOffset>) -> SRes<
    Seq<IdentOffset>,
>
    decreases s.len() - p,
{
    let (r, q) = sp_expect(s, p, TokenType::Comma);
    match r {
        Err(ErrMode::Backtrack(_)) => (Ok(acc), p),
        Err(x) => (Err(x), q),
        Ok(_) => if q <= p || q > s.len() {
            cut(Error::Unexpected, q)
        } else {
            let (r2, q2) = sp_ident(s, q);
            match r2 {
                Err(ErrMode::Backtrack(_)) => (Ok(acc), p),
                Err(x) => (Err(x), q2),
                Ok(a) => {
                    proof {
                        lemma_ident_bounds(s, q, Seq::empty(), TokenType::Ident);
                    }
                    sp_idents_rest(s, q2, acc.push(a))
                },
            }
        },
    }
}

/// `'fn' ident '(' (ident (',' ident)*)? ')' '{' statement '}'`
pub open spec fn sp_function(s: Seq<u8>, p: int) -> SRes<SpecFunction> {
    let (r, q) = sp_keyword(s, p, kw_fn(), TokenType::Fn);
    match r {
        Err(x) => (Err(x), q),
        Ok(_) => {
            let (r2, q2) = sp_ident(s, q);
            match r2 {
                Err(x) => (Err(x), q2),
                Ok(name) => {
                    let (r3, q3) = sp_expect(s, q2, TokenType::Lparen);
                    match r3 {
                        Err(x) => (Err(x), q3),
                        Ok(_) => {
                            let (r4, q4) = sp_sep_idents(s, q3);
                            match r4 {
                                Err(x) => (Err(x), q4),
                                Ok(arguments) => {
                                    let (r5, q5) = sp_expect(s, q4, TokenType::Rparen);
                                    match r5 {
                                        Err(x) => (Err(x), q5),
                                        Ok(_) => sp_function_body(s, name, arguments, q5),
                                    }
                                },
                            }
                        },
                    }
                },
            }
        },
    }
}

/// `'{' statement '}'`, the body of function `name`.
pub open spec fn sp_function_body(
    s: Seq<u8>,
    name: IdentOffset,
    arguments: Seq<IdentOffset>,
    p: int,
) -> SRes<SpecFunction> {
    let (r, q) = sp_expect(s, p, TokenType::Lcurly);
    match r {
        Err(x) => (Err(x), q),
        Ok(_) => {
            let (r2, q2) = sp_node(s, q);
            match r2 {
                Err(x) => (Err(x), q2),
                Ok(body) => {
                    let (r3, q3) = sp_expect(s, q2, TokenType::Rcurly);
                    match r3 {
                        Err(x) => (Err(x), q3),
                        Ok(_) => (Ok(SpecFunction { name, arguments, body }), q3),
                    }
                },
            }
        },
    }
}

/// Functions, as many as parse, appended to `acc`.
pub open spec fn sp_functions(s: Seq<u8>, p: int, acc: Seq<SpecFunction>) -> SRes<
    Seq<SpecFunction>,
>
    decreases s.len() - p,
{
    let (r, q) = sp_function(s, p);
    match r {
        Err(ErrMode::Backtrack(_)) => (Ok(acc), p),
        Err(x) => (Err(x), q),
        Ok(f) => if q <= p || q > s.len() {
            cut(Error::Unexpected, q)
        } else {
            sp_functions(s, q, acc.push(f))
        },
    }
}

/// `(Use)* (Fn)* Statement`, and where parsing stopped.
pub open spec fn sp_file(s: Seq<u8>) -> SRes<SpecChirpFile> {
    let (r, q) = sp_imports(s, 0, Seq::empty());
    match r {
        Err(x) => (Err(x), q),
        Ok(imports) => {
            let (r2, q2) = sp_functions(s, q, Seq::empty());
            match r2 {
                Err(x) => (Err(x), q2),
                Ok(functions) => {
                    let (r3, q3) = sp_node(s, q2);
                    match r3 {
                        Err(x) => (Err(x), q3),
                        Ok(root) => (Ok(SpecChirpFile { imports, functions, root }), q3),
                    }
                },
            }
        },
    }
}

/// The error carried by a failure.
pub open spec fn err_of(x: ErrMode) -> Error {
    match x {
        ErrMode::Backtrack(e) => e,
        ErrMode::Cut(e) => e,
    }
}

/// A whole chirp file: the parsed file, or the error and the offset where
/// parsing stopped. A file with tokens after its root statement is
/// [`Error::TrailingText`].
pub open spec fn sp_chirp_file(s: Seq<u8>) -> Result<SpecChirpFile, (Error, (u32, u32))> {
    let (r, q) = sp_file(s);
    match r {
        Ok(f) => if lex(s, q).0 is None {
            Ok(f)
        } else {
            Err((Error::TrailingText, (q as u32, q as u32)))
        },
        Err(x) => Err((err_of(x), (q as u32, q as u32))),
    }
}

pub proof fn lemma_import_bounds(s: Seq<u8>, p: int)
    requires
        0 <= p <= s.len(),
    ensures
        p <= sp_import(s, p).1 <= s.len(),
        sp_import(s, p).0 is Ok ==> p < sp_import(s, p).1,
{
    lemma_ident_bounds(s, p, kw_use(), TokenType::Use);
    let (r, q) = sp_keyword(s, p, kw_use(), TokenType::Use);
    if r is Ok {
        lemma_ident_bounds(s, q, Seq::empty(), TokenType::Ident);
        let (r2, q2) = sp_ident(s, q);
        if r2 is Ok {
            lemma_ident_bounds(s, q2, kw_as(), TokenType::As);
            let (r3, q3) = sp_keyword(s, q2, kw_as(), TokenType::As);
            if r3 is Ok {
                lemma_ident_bounds(s, q3, Seq::empty(), TokenType::Ident);
            }
        }
    }
}

pub proof fn lemma_imports_bounds(s: Seq<u8>, p: int, acc: Seq<SpecImport>)
    requires
        0 <= p <= s.len(),
    ensures
        p <= sp_imports(s, p, acc).1 <= s.len(),
    decreases s.len() - p,
{
    lemma_import_bounds(s, p);
    let (r, q) = sp_import(s, p);
    if let Ok(i) = r {
        if q > p {
            lemma_imports_bounds(s, q, acc.push(i));
        }
    }
}

pub proof fn lemma_idents_rest_bounds(s: Seq<u8>, p: int, acc: Seq<IdentOffset>)
    requires
        0 <= p <= s.len(),
    ensures
        p <= sp_idents_rest(s, p, acc).1 <= s.len(),
    decreases s.len() - p,
{
    lemma_expect_bounds(s, p, TokenType::Comma);
    let (r, q) = sp_expect(s, p, TokenType::Comma);
    if r is Ok && q > p {
        lemma_ident_bounds(s, q, Seq::empty(), TokenType::Ident);
        let (r2, q2) = sp_ident(s, q);
        if let Ok(a) = r2 {
            lemma_idents_rest_bounds(s, q2, acc.push(a));
        }
    }
}

pub proof fn lemma_function_bounds(s: Seq<u8>, p: int)
    requires
        0 <= p <= s.len(),
    ensures
        p <= sp_function(s, p).1 <= s.len(),
        sp_function(s, p).0 is Ok ==> p < sp_function(s, p).1,
{
    lemma_ident_bounds(s, p, kw_fn(), TokenType::Fn);
    let (r, q) = sp_keyword(s, p, kw_fn(), TokenType::Fn);
    if r is Ok {
        lemma_ident_bounds(s, q, Seq::empty(), TokenType::Ident);
        let (r2, q2) = sp_ident(s, q);
        if let Ok(name) = r2 {
            lemma_expect_bounds(s, q2, TokenType::Lparen);
            let (r3, q3) = sp_expect(s, q2, TokenType::Lparen);
            if r3 is Ok {
                lemma_ident_bounds(s, q3, Seq::empty(), TokenType::Ident);
                let (ri, qi) = sp_ident(s, q3);
                if let Ok(a) = ri {
                    lemma_idents_rest_bounds(s, qi, seq![a]);
                }
                let (r4, q4) = sp_sep_idents(s, q3);
                if let Ok(arguments) = r4 {
                    lemma_expect_bounds(s, q4, TokenType::Rparen);
                    let (r5, q5) = sp_expect(s, q4, TokenType::Rparen);
                    if r5 is Ok {
                        lemma_expect_bounds(s, q5, TokenType::Lcurly);
                        let (r6, q6) = sp_expect(s, q5, TokenType::Lcurly);
                        if r6 is Ok {
                            lemma_node_bounds(s, q6);
                            let q7 = sp_node(s, q6).1;
                            lemma_expect_bounds(s, q7, TokenType::Rcurly);
                        }
                    }
                }
            }
        }
    }
}

pub proof fn lemma_functions_bounds(s: Seq<u8>, p: int, acc: Seq<SpecFunction>)
    requires
        0 <= p <= s.len(),
    ensures
        p <= sp_functions(s, p, acc).1 <= s.len(),
    decreases s.len() - p,
{
    lemma_function_bounds(s, p);
    let (r, q) = sp_function(s, p);
    if let Ok(f) = r {
        if q > p {
            lemma_functions_bounds(s, q, acc.push(f));
        }
    }
}

/// Parsing a file never reads past its end.
pub proof fn lemma_file_bounds(s: Seq<u8>)
    ensures
        0 <= sp_file(s).1 <= s.len(),
{
    lemma_imports_bounds(s, 0, Seq::empty());
    let (r, q) = sp_imports(s, 0, Seq::empty());
    if r is Ok {
        lemma_functions_bounds(s, q, Seq::empty());
        let (r2, q2) = sp_functions(s, q, Seq::empty());
        if r2 is Ok {
            lemma_node_bounds(s, q2);
        }
    }
}

// ---------------------------------------------------------------------------
// The parser: token trees and arguments
// ---------------------------------------------------------------------------

/// Parse a token tree (see [`sp_token_tree`]).
pub fn token_tree<'i>(input: &mut Input<'i>, split: bool) -> (r: Result<(), ErrMode>)
    requires
        old(input).wf(),
    ensures
        final(input).wf(),
        final(input).src() == old(input).src(),
        (r, final(input).offset()) == sp_token_tree(old(input).src(), old(input).offset(), split),
    decreases old(input).src().len() - old(input).offset(), 0int,
{
    proof {
        input.lemma_wf();
        lex::lemma_lex_bounds(input.src(), input.offset());
    }
    let checkpoint = input.checkpoint();
    let got = input.next_token();
    proof {
        input.lemma_wf();
    }
    match got {
        None => {
            input.reset(checkpoint);
            Err(ErrMode::Backtrack(Error::Unexpected))
        },
        Some(Token::Lparen) => delimited_tts(input, TokenType::Rparen),
        Some(Token::Lbracket) => delimited_tts(input, TokenType::Rbracket),
        Some(Token::Lcurly) => delimited_tts(input, TokenType::Rcurly),
        Some(Token::Comma) => if split {
            Err(ErrMode::Backtrack(Error::Unexpected))
        } else {
            Ok(())
        },
        Some(Token::Ident(_)) | Some(Token::String(_)) | Some(Token::Equal) => Ok(()),
        Some(Token::Rparen) | Some(Token::Rbracket) | Some(Token::Rcurly) => {
            Err(ErrMode::Backtrack(Error::Unexpected))
        },
        Some(Token::Reserved(_)) => Err(ErrMode::Cut(Error::Unbalanced)),
    }
}

/// The token trees following an opening delimiter, none or more, then the
/// closing one.
fn delimited_tts<'i>(input: &mut Input<'i>, close: TokenType) -> (r: Result<(), ErrMode>)
    requires
        old(input).wf(),
    ensures
        final(input).wf(),
        final(input).src() == old(input).src(),
        (r, final(input).offset()) == ({
            let (r1, q1) = sp_tts_loop(old(input).src(), old(input).offset(), false);
            match r1 {
                Err(x) => (Err(x), q1),
                Ok(_) => sp_expect(old(input).src(), q1, close),
            }
        }),
    decreases old(input).src().len() - old(input).offset(), 3int,
{
    match tts_loop(input, false) {
        Err(x) => Err(x),
        Ok(_) => expect(input, close),
    }
}

/// Token trees, as many as parse (see [`sp_tts_loop`]).
fn tts_loop<'i>(input: &mut Input<'i>, split: bool) -> (r: Result<(), ErrMode>)
    requires
        old(input).wf(),
    ensures
        final(input).wf(),
        final(input).src() == old(input).src(),
        (r, final(input).offset()) == sp_tts_loop(old(input).src(), old(input).offset(), split),
    decreases old(input).src().len() - old(input).offset(), 1int,
{
    let ghost s = input.src();
    let ghost p = input.offset();
    proof {
        input.lemma_wf();
    }
    loop
        invariant
            input.wf(),
            input.src() == s,
            s == old(input).src(),
            p == old(input).offset(),
            p <= input.offset() <= s.len(),
            sp_tts_loop(s, p, split) == sp_tts_loop(s, input.offset(), split),
        ensures
            input.wf(),
            input.src() == s,
            sp_tts_loop(s, p, split) == (Ok::<(), ErrMode>(()), input.offset()),
        decreases s.len() - input.offset(),
    {
        let ghost before = input.offset();
        let checkpoint = input.checkpoint();
        match token_tree(input, split) {
            Ok(_) => {
                proof {
                    lemma_tt_bounds(s, before, split);
                }
            },
            Err(ErrMode::Backtrack(_)) => {
                input.reset(checkpoint);
                break ;
            },
            Err(x) => return Err(x),
        }
    }
    Ok(())
}

/// One or more token trees (see [`sp_many_tts`]).
pub fn many_tts<'i>(input: &mut Input<'i>, split: bool) -> (r: Result<Argument, ErrMode>)
    requires
        old(input).wf(),
    ensures
        final(input).wf(),
        final(input).src() == old(input).src(),
        (r, final(input).offset()) == sp_many_tts(old(input).src(), old(input).offset(), split),
    decreases old(input).src().len() - old(input).offset(), 2int,
{
    let ghost s = input.src();
    let ghost p = input.offset();
    proof {
        input.lemma_wf();
    }
    let start = input.next_start();
    match token_tree(input, split) {
        Err(x) => return Err(x),
        Ok(_) => {},
    }
    proof {
        lemma_tt_bounds(s, p, split);
    }
    match tts_loop(input, split) {
        Err(x) => Err(x),
        Ok(_) => {
            proof {
                input.lemma_wf();
            }
            Ok(Argument { start, end: input.current_offset() })
        },
    }
}

/// Comma separated arguments (see [`sp_sep_args`]).
pub fn sep_args<'i>(input: &mut Input<'i>) -> (r: Result<Vec<Argument>, ErrMode>)
    requires
        old(input).wf(),
    ensures
        final(input).wf(),
        final(input).src() == old(input).src(),
        (map_ok(r, |v: Vec<Argument>| v@), final(input).offset()) == sp_sep_args(
            old(input).src(),
            old(input).offset(),
        ),
{
    let ghost s = input.src();
    let ghost p = input.offset();
    let checkpoint = input.checkpoint();
    let first = match many_tts(input, true) {
        Ok(a) => a,
        Err(ErrMode::Backtrack(_)) => {
            input.reset(checkpoint);
            return Ok(Vec::new());
        },
        Err(x) => return Err(x),
    };
    proof {
        lemma_tt_bounds(s, p, true);
    }
    let mut acc: Vec<Argument> = Vec::new();
    acc.push(first);
    assert(acc@ =~= seq![first]);
    loop
        invariant
            input.wf(),
            input.src() == s,
            s == old(input).src(),
            p == old(input).offset(),
            0 <= input.offset() <= s.len(),
            sp_sep_args(s, p) == sp_sep_rest(s, input.offset(), acc@),
        ensures
            input.wf(),
            input.src() == s,
            sp_sep_rest(s, input.offset(), acc@) == (
                Ok::<Seq<Argument>, ErrMode>(acc@),
                input.offset(),
            ),
        decreases s.len() - input.offset(),
    {
        let ghost before = input.offset();
        let checkpoint = input.checkpoint();
        match expect(input, TokenType::Comma) {
            Ok(_) => {},
            Err(ErrMode::Backtrack(_)) => {
                input.reset(checkpoint);
                break ;
            },
            Err(x) => return Err(x),
        }
        proof {
            lemma_expect_bounds(s, before, TokenType::Comma);
            lemma_tt_bounds(s, input.offset(), true);
        }
        match many_tts(input, true) {
            Ok(a) => acc.push(a),
            Err(ErrMode::Backtrack(_)) => {
                input.reset(checkpoint);
                break ;
            },
            Err(x) => return Err(x),
        }
    }
    Ok(acc)
}

/// `'(' arguments ')'` (see [`sp_paren_args`]).
pub fn paren_args<'i>(input: &mut Input<'i>) -> (r: Result<Vec<Argument>, ErrMode>)
    requires
        old(input).wf(),
    ensures
        final(input).wf(),
        final(input).src() == old(input).src(),
        (map_ok(r, |v: Vec<Argument>| v@), final(input).offset()) == sp_paren_args(
            old(input).src(),
            old(input).offset(),
        ),
{
    match expect(input, TokenType::Lparen) {
        Err(x) => return Err(x),
        Ok(_) => {},
    }
    let args = match sep_args(input) {
        Err(x) => return Err(x),
        Ok(args) => args,
    };
    match expect(input, TokenType::Rparen) {
        Err(x) => Err(x),
        Ok(_) => Ok(args),
    }
}

// ---------------------------------------------------------------------------
// The parser: methods
// ---------------------------------------------------------------------------

/// A method (see [`sp_method`]).
pub fn method<'i>(input: &mut Input<'i>) -> (r: Result<Method, ErrMode>)
    requires
        old(input).wf(),
    ensures
        final(input).wf(),
        final(input).src() == old(input).src(),
        (map_ok(r, |m: Method| method_view(m)), final(input).offset()) == sp_method(
            old(input).src(),
            old(input).offset(),
        ),
{
    let name = match ident(input) {
        Err(x) => return Err(x),
        Ok(name) => name,
    };
    let checkpoint = input.checkpoint();
    let arguments = match paren_args(input) {
        Ok(args) => args,
        Err(ErrMode::Backtrack(_)) => {
            input.reset(checkpoint);
            Vec::new()
        },
        Err(x) => return Err(x),
    };
    let m = Method::new((name, arguments));
    assert(method_view(m).arguments =~= m.arguments@);
    Ok(m)
}

pub proof fn lemma_methods_view_push(ms: Seq<Method>, m: Method)
    ensures
        methods_view(ms.push(m)) == methods_view(ms).push(method_view(m)),
{
    assert(methods_view(ms.push(m)) =~= methods_view(ms).push(method_view(m)));
}

/// Methods, as many as parse (see [`sp_methods`]).
pub fn methods<'i>(input: &mut Input<'i>) -> (r: Result<Vec<Method>, ErrMode>)
    requires
        old(input).wf(),
    ensures
        final(input).wf(),
        final(input).src() == old(input).src(),
        (map_ok(r, |v: Vec<Method>| methods_view(v@)), final(input).offset()) == sp_methods(
            old(input).src(),
            old(input).offset(),
            Seq::empty(),
        ),
{
    let ghost s = input.src();
    let ghost p = input.offset();
    let mut acc: Vec<Method> = Vec::new();
    proof {
        input.lemma_wf();
        assert(methods_view(acc@) =~= Seq::empty());
    }
    loop
        invariant
            input.wf(),
            input.src() == s,
            s == old(input).src(),
            p == old(input).offset(),
            0 <= input.offset() <= s.len(),
            sp_methods(s, p, Seq::empty()) == sp_methods(s, input.offset(), methods_view(acc@)),
        decreases s.len() - input.offset(),
    {
        let ghost before = input.offset();
        let checkpoint = input.checkpoint();
        match method(input) {
            Ok(m) => {
                proof {
                    lemma_method_bounds(s, before);
                    lemma_methods_view_push(acc@, m);
                }
                acc.push(m);
            },
            Err(ErrMode::Backtrack(_)) => {
                input.reset(checkpoint);
                return Ok(acc);
            },
            Err(x) => return Err(x),
        }
    }
}

/// `('(' methods ')')?` (see [`sp_opt_methods`]).
pub fn opt_methods<'i>(input: &mut Input<'i>) -> (r: Result<Vec<Method>, ErrMode>)
    requires
        old(input).wf(),
    ensures
        final(input).wf(),
        final(input).src() == old(input).src(),
        (map_ok(r, |v: Vec<Method>| methods_view(v@)), final(input).offset()) == sp_opt_methods(
            old(input).src(),
            old(input).offset(),
        ),
{
    let checkpoint = input.checkpoint();
    proof {
        assert(methods_view(Seq::<Method>::empty()) =~= Seq::empty());
    }
    match expect(input, TokenType::Lparen) {
        Ok(_) => {},
        Err(ErrMode::Backtrack(_)) => {
            input.reset(checkpoint);
            return Ok(Vec::new());
        },
        Err(x) => return Err(x),
    }
    let ms = match methods(input) {
        Ok(ms) => ms,
        Err(ErrMode::Backtrack(_)) => {
            input.reset(checkpoint);
            return Ok(Vec::new());
        },
        Err(x) => return Err(x),
    };
    match expect(input, TokenType::Rparen) {
        Ok(_) => Ok(ms),
        Err(ErrMode::Backtrack(_)) => {
            input.reset(checkpoint);
            Ok(Vec::new())
        },
        Err(x) => Err(x),
    }
}

// ---------------------------------------------------------------------------
// The parser: statements
// ---------------------------------------------------------------------------

/// Whether `name` ends with `!`.
fn ends_with_bang(name: &[u8]) -> (r: bool)
    ensures
        r == (name@.len() > 0 && name@[name@.len() - 1] == 0x21),
{
    name.len() > 0 && name[name.len() - 1] == 0x21
}

/// `'(' ident ')'`, after `code` (see [`sp_code`]).
fn code<'i>(input: &mut Input<'i>) -> (r: Result<Node, ErrMode>)
    requires
        old(input).wf(),
    ensures
        final(input).wf(),
        final(input).src() == old(input).src(),
        (map_ok(r, |n: Node| node_view(n)), final(input).offset()) == sp_code(
            old(input).src(),
            old(input).offset(),
        ),
{
    match expect(input, TokenType::Lparen) {
        Err(x) => return Err(x),
        Ok(_) => {},
    }
    let name = match ident(input) {
        Err(x) => return Err(x),
        Ok(name) => name,
    };
    match expect(input, TokenType::Rparen) {
        Err(x) => Err(x),
        Ok(_) => Ok(Node::Code(name)),
    }
}

/// A statement (see [`sp_node`]).
pub fn node<'i>(input: &mut Input<'i>) -> (r: Result<Node, ErrMode>)
    requires
        old(input).wf(),
    ensures
        final(input).wf(),
        final(input).src() == old(input).src(),
        (map_ok(r, |n: Node| node_view(n)), final(input).offset()) == sp_node(
            old(input).src(),
            old(input).offset(),
        ),
    decreases old(input).src().len() - old(input).offset(), 0int,
{
    proof {
        input.lemma_wf();
        lex::lemma_lex_bounds(input.src(), input.offset());
    }
    let start = input.next_start();
    let got = input.next_token();
    proof {
        input.lemma_wf();
    }
    match got {
        Some(Token::Ident(name)) => node_word(input, start, TokenType::Ident, name),
        Some(Token::String(name)) => node_word(input, start, TokenType::String, name),
        Some(Token::Rcurly) => Err(ErrMode::Backtrack(Error::Unexpected)),
        got => Err(ErrMode::Cut(Error::StartStatement(TokenType::from_token(got)))),
    }
}

/// The statement starting with the identifier or string literal `word`,
/// of type `ty`, found at `start` (see [`sp_node_token`]).
fn node_word<'i>(input: &mut Input<'i>, start: u32, ty: TokenType, word: &[u8]) -> (r: Result<
    Node,
    ErrMode,
>)
    requires
        old(input).wf(),
        ty == TokenType::Ident || ty == TokenType::String,
    ensures
        final(input).wf(),
        final(input).src() == old(input).src(),
        (map_ok(r, |n: Node| node_view(n)), final(input).offset()) == sp_node_token(
            old(input).src(),
            start,
            ty,
            word@,
            old(input).offset(),
        ),
    decreases old(input).src().len() - old(input).offset(), 3int,
{
    if ty == TokenType::Ident && bytes_eq(word, &keyword_code()) {
        code(input)
    } else if ty == TokenType::Ident && ends_with_bang(word) {
        match template(input, start) {
            Ok(t) => Ok(Node::Template(t)),
            Err(x) => Err(x),
        }
    } else {
        let name = if bytes_eq(word, &keyword_entity()) || bytes_eq(word, &keyword_spawn()) {
            OptNameOffset::empty()
        } else {
            OptNameOffset::new(start)
        };
        match statement(input, name) {
            Ok(st) => Ok(Node::Statement(st)),
            Err(x) => Err(x),
        }
    }
}

/// After an entity name (see [`sp_statement`]).
pub fn statement<'i>(input: &mut Input<'i>, name: OptNameOffset) -> (r: Result<Statement, ErrMode>)
    requires
        old(input).wf(),
    ensures
        final(input).wf(),
        final(input).src() == old(input).src(),
        (map_ok(r, |st: Statement| statement_view(st)), final(input).offset()) == sp_statement(
            old(input).src(),
            name,
            old(input).offset(),
        ),
    decreases old(input).src().len() - old(input).offset(), 1int,
{
    let ghost s = input.src();
    let ghost p = input.offset();
    proof {
        input.lemma_wf();
        lex::lemma_lex_bounds(s, p);
    }
    let got = input.next_token();
    proof {
        input.lemma_wf();
    }
    let ghost e = input.offset();
    match got {
        Some(Token::Lparen) => {
            let methods = match methods(input) {
                Err(x) => return Err(x),
                Ok(ms) => ms,
            };
            match expect(input, TokenType::Rparen) {
                Err(x) => return Err(x),
                Ok(_) => {},
            }
            proof {
                lemma_methods_bounds(s, e, Seq::empty());
                let q = sp_methods(s, e, Seq::empty()).1;
                lemma_expect_bounds(s, q, TokenType::Rparen);
            }
            let children = match opt_children(input) {
                Err(x) => return Err(x),
                Ok(children) => children,
            };
            Ok(Statement::both((name, methods, children)))
        },
        Some(Token::Lcurly) => {
            let children = match nodes(input) {
                Err(x) => return Err(x),
                Ok(children) => children,
            };
            match expect(input, TokenType::Rcurly) {
                Err(x) => Err(x),
                Ok(_) => {
                    let st = Statement::children((name, children));
                    assert(methods_view(st.methods@) =~= Seq::empty());
                    Ok(st)
                },
            }
        },
        got => Err(ErrMode::Cut(Error::StatementDelimiter(TokenType::from_token(got)))),
    }
}

/// After a template name found at `name` (see [`sp_template`]).
pub fn template<'i>(input: &mut Input<'i>, name: u32) -> (r: Result<Template, ErrMode>)
    requires
        old(input).wf(),
    ensures
        final(input).wf(),
        final(input).src() == old(input).src(),
        (map_ok(r, |t: Template| template_view(t)), final(input).offset()) == sp_template(
            old(input).src(),
            name,
            old(input).offset(),
        ),
    decreases old(input).src().len() - old(input).offset(), 1int,
{
    let ghost s = input.src();
    let ghost p = input.offset();
    proof {
        input.lemma_wf();
    }
    let arguments = match paren_args(input) {
        Err(x) => return Err(x),
        Ok(args) => args,
    };
    let ghost q = input.offset();
    let methods = match opt_methods(input) {
        Err(x) => return Err(x),
        Ok(ms) => ms,
    };
    proof {
        lemma_paren_args_bounds(s, p);
        lemma_opt_methods_bounds(s, q);
    }
    let children = match opt_children(input) {
        Err(x) => return Err(x),
        Ok(children) => children,
    };
    Ok(Template::new((IdentOffset::new(name), arguments, methods, children)))
}

/// `('{' statements '}')?` (see [`sp_opt_children`]).
pub fn opt_children<'i>(input: &mut Input<'i>) -> (r: Result<Vec<Node>, ErrMode>)
    requires
        old(input).wf(),
    ensures
        final(input).wf(),
        final(input).src() == old(input).src(),
        (map_ok(r, |v: Vec<Node>| nodes_view(v@)), final(input).offset()) == sp_opt_children(
            old(input).src(),
            old(input).offset(),
        ),
    decreases old(input).src().len() - old(input).offset(), 0int,
{
    let ghost s = input.src();
    let ghost p = input.offset();
    proof {
        input.lemma_wf();
        lemma_expect_bounds(s, p, TokenType::Lcurly);
        assert(nodes_view(Seq::<Node>::empty()) =~= Seq::empty());
    }
    let checkpoint = input.checkpoint();
    match expect(input, TokenType::Lcurly) {
        Ok(_) => {},
        Err(ErrMode::Backtrack(_)) => {
            input.reset(checkpoint);
            return Ok(Vec::new());
        },
        Err(x) => return Err(x),
    }
    let children = match nodes(input) {
        Ok(children) => children,
        Err(ErrMode::Backtrack(_)) => {
            input.reset(checkpoint);
            return Ok(Vec::new());
        },
        Err(x) => return Err(x),
    };
    match expect(input, TokenType::Rcurly) {
        Ok(_) => Ok(children),
        Err(ErrMode::Backtrack(_)) => {
            input.reset(checkpoint);
            Ok(Vec::new())
        },
        Err(x) => Err(x),
    }
}

/// Statements, as many as parse (see [`sp_nodes`]).
pub fn nodes<'i>(input: &mut Input<'i>) -> (r: Result<Vec<Node>, ErrMode>)
    requires
        old(input).wf(),
    ensures
        final(input).wf(),
        final(input).src() == old(input).src(),
        (map_ok(r, |v: Vec<Node>| nodes_view(v@)), final(input).offset()) == sp_nodes(
            old(input).src(),
            old(input).offset(),
            Seq::empty(),
        ),
    decreases old(input).src().len() - old(input).offset(), 1int,
{
    let ghost s = input.src();
    let ghost p = input.offset();
    let mut acc: Vec<Node> = Vec::new();
    proof {
        input.lemma_wf();
        assert(nodes_view(acc@) =~= Seq::empty());
    }
    loop
        invariant
            input.wf(),
            input.src() == s,
            s == old(input).src(),
            p == old(input).offset(),
            p <= input.offset() <= s.len(),
            sp_nodes(s, p, Seq::empty()) == sp_nodes(s, input.offset(), nodes_view(acc@)),
        decreases s.len() - input.offset(),
    {
        let ghost before = input.offset();
        let checkpoint = input.checkpoint();
        match node(input) {
            Ok(n) => {
                proof {
                    lemma_node_bounds(s, before);
                    lemma_nodes_view_push(acc@, n);
                }
                acc.push(n);
            },
            Err(ErrMode::Backtrack(_)) => {
                input.reset(checkpoint);
                return Ok(acc);
            },
            Err(x) => return Err(x),
        }
    }
}

// ---------------------------------------------------------------------------
// The parser: imports, functions and whole files
// ---------------------------------------------------------------------------

/// `'use' ident ('as' ident)?` (see [`sp_import`]).
pub fn import<'i>(input: &mut Input<'i>) -> (r: Result<Import, ErrMode>)
    requires
        old(input).wf(),
    ensures
        final(input).wf(),
        final(input).src() == old(input).src(),
        (map_ok(r, |i: Import| import_view(i)), final(input).offset()) == sp_import(
            old(input).src(),
            old(input).offset(),
        ),
{
    match keyword(input, &keyword_use(), TokenType::Use) {
        Err(x) => return Err(x),
        Ok(_) => {},
    }
    let name = match ident(input) {
        Err(x) => return Err(x),
        Ok(name) => name,
    };
    let checkpoint = input.checkpoint();
    let alias = match keyword(input, &keyword_as(), TokenType::As) {
        Ok(_) => match ident(input) {
            Ok(alias) => Some(alias),
            Err(ErrMode::Backtrack(_)) => {
                input.reset(checkpoint);
                None
            },
            Err(x) => return Err(x),
        },
        Err(ErrMode::Backtrack(_)) => {
            input.reset(checkpoint);
            None
        },
        Err(x) => return Err(x),
    };
    Ok(Import::new((name, alias)))
}

/// Imports, as many as parse (see [`sp_imports`]).
pub fn imports<'i>(input: &mut Input<'i>) -> (r: Result<Vec<Import>, ErrMode>)
    requires
        old(input).wf(),
    ensures
        final(input).wf(),
        final(input).src() == old(input).src(),
        ({
            let got = map_ok(r, |v: Vec<Import>| v@.map_values(|i: Import| import_view(i)));
            (got, final(input).offset())
        }) == sp_imports(old(input).src(), old(input).offset(), Seq::empty()),
{
    let ghost s = input.src();
    let ghost p = input.offset();
    let mut acc: Vec<Import> = Vec::new();
    proof {
        input.lemma_wf();
        assert(acc@.map_values(|i: Import| import_view(i)) =~= Seq::empty());
    }
    loop
        invariant
            input.wf(),
            input.src() == s,
            s == old(input).src(),
            p == old(input).offset(),
            0 <= input.offset() <= s.len(),
            sp_imports(s, p, Seq::empty()) == sp_imports(
                s,
                input.offset(),
                acc@.map_values(|i: Import| import_view(i)),
            ),
        decreases s.len() - input.offset(),
    {
        let ghost before = input.offset();
        let checkpoint = input.checkpoint();
        match import(input) {
            Ok(i) => {
                proof {
                    lemma_import_bounds(s, before);
                    assert(acc@.push(i).map_values(|i: Import| import_view(i)) =~= acc@.map_values(
                        |i: Import| import_view(i),
                    ).push(import_view(i)));
                }
                acc.push(i);
            },
            Err(ErrMode::Backtrack(_)) => {
                input.reset(checkpoint);
                return Ok(acc);
            },
            Err(x) => return Err(x),
        }
    }
}

/// Comma separated identifiers (see [`sp_sep_idents`]).
pub fn sep_idents<'i>(input: &mut Input<'i>) -> (r: Result<Vec<IdentOffset>, ErrMode>)
    requires
        old(input).wf(),
    ensures
        final(input).wf(),
        final(input).src() == old(input).src(),
        (map_ok(r, |v: Vec<IdentOffset>| v@), final(input).offset()) == sp_sep_idents(
            old(input).src(),
            old(input).offset(),
        ),
{
    let ghost s = input.src();
    let ghost p = input.offset();
    let checkpoint = input.checkpoint();
    let first = match ident(input) {
        Ok(a) => a,
        Err(ErrMode::Backtrack(_)) => {
            input.reset(checkpoint);
            return Ok(Vec::new());
        },
        Err(x) => return Err(x),
    };
    proof {
        input.lemma_wf();
    }
    let mut acc: Vec<IdentOffset> = Vec::new();
    acc.push(first);
    assert(acc@ =~= seq![first]);
    loop
        invariant
            input.wf(),
            input.src() == s,
            s == old(input).src(),
            p == old(input).offset(),
            0 <= input.offset() <= s.len(),
            sp_sep_idents(s, p) == sp_idents_rest(s, input.offset(), acc@),
        ensures
            input.wf(),
            input.src() == s,
            sp_idents_rest(s, input.offset(), acc@) == (
                Ok::<Seq<IdentOffset>, ErrMode>(acc@),
                input.offset(),
            ),
        decreases s.len() - input.offset(),
    {
        let ghost before = input.offset();
        let checkpoint = input.checkpoint();
        match expect(input, TokenType::Comma) {
            Ok(_) => {},
            Err(ErrMode::Backtrack(_)) => {
                input.reset(checkpoint);
                break ;
            },
            Err(x) => return Err(x),
        }
        proof {
            lemma_expect_bounds(s, before, TokenType::Comma);
            lemma_ident_bounds(s, input.offset(), Seq::empty(), TokenType::Ident);
        }
        match ident(input) {
            Ok(a) => acc.push(a),
            Err(ErrMode::Backtrack(_)) => {
                input.reset(checkpoint);
                break ;
            },
            Err(x) => return Err(x),
        }
    }
    Ok(acc)
}

/// A function declaration (see [`sp_function`]).
pub fn function<'i>(input: &mut Input<'i>) -> (r: Result<Function, ErrMode>)
    requires
        old(input).wf(),
    ensures
        final(input).wf(),
        final(input).src() == old(input).src(),
        (map_ok(r, |f: Function| function_view(f)), final(input).offset()) == sp_function(
            old(input).src(),
            old(input).offset(),
        ),
{
    match keyword(input, &keyword_fn(), TokenType::Fn) {
        Err(x) => return Err(x),
        Ok(_) => {},
    }
    let name = match ident(input) {
        Err(x) => return Err(x),
        Ok(name) => name,
    };
    match expect(input, TokenType::Lparen) {
        Err(x) => return Err(x),
        Ok(_) => {},
    }
    let arguments = match sep_idents(input) {
        Err(x) => return Err(x),
        Ok(arguments) => arguments,
    };
    match expect(input, TokenType::Rparen) {
        Err(x) => return Err(x),
        Ok(_) => {},
    }
    match expect(input, TokenType::Lcurly) {
        Err(x) => return Err(x),
        Ok(_) => {},
    }
    let body = match node(input) {
        Err(x) => return Err(x),
        Ok(body) => body,
    };
    match expect(input, TokenType::Rcurly) {
        Err(x) => Err(x),
        Ok(_) => Ok(Function::new((name, arguments, body))),
    }
}

/// Function declarations, as many as parse (see [`sp_functions`]).
pub fn functions<'i>(input: &mut Input<'i>) -> (r: Result<Vec<Function>, ErrMode>)
    requires
        old(input).wf(),
    ensures
        final(input).wf(),
        final(input).src() == old(input).src(),
        ({
            let got = map_ok(r, |v: Vec<Function>| v@.map_values(|f: Function| function_view(f)));
            (got, final(input).offset())
        }) == sp_functions(old(input).src(), old(input).offset(), Seq::empty()),
{
    let ghost s = input.src();
    let ghost p = input.offset();
    let mut acc: Vec<Function> = Vec::new();
    proof {
        input.lemma_wf();
        assert(acc@.map_values(|f: Function| function_view(f)) =~= Seq::empty());
    }
    loop
        invariant
            input.wf(),
            input.src() == s,
            s == old(input).src(),
            p == old(input).offset(),
            0 <= input.offset() <= s.len(),
            sp_functions(s, p, Seq::empty()) == sp_functions(
                s,
                input.offset(),
                acc@.map_values(|f: Function| function_view(f)),
            ),
        decreases s.len() - input.offset(),
    {
        let ghost before = input.offset();
        let checkpoint = input.checkpoint();
        match function(input) {
            Ok(f) => {
                proof {
                    lemma_function_bounds(s, before);
                    assert(acc@.push(f).map_values(|f: Function| function_view(f))
                        =~= acc@.map_values(|f: Function| function_view(f)).push(
                        function_view(f),
                    ));
                }
                acc.push(f);
            },
            Err(ErrMode::Backtrack(_)) => {
                input.reset(checkpoint);
                return Ok(acc);
            },
            Err(x) => return Err(x),
        }
    }
}

/// Parse a whole chirp file read from its start (see [`sp_chirp_file`]).
pub fn chirp_file(input: Input<'_>) -> (r: Result<ChirpFile, (Error, (u32, u32))>)
    requires
        input.wf(),
        input.offset() == 0,
    ensures
        match r {
            Ok(f) => sp_chirp_file(input.src()) == Ok::<SpecChirpFile, (Error, (u32, u32))>(
                chirp_file_view(f),
            ),
            Err(e) => sp_chirp_file(input.src()) == Err::<SpecChirpFile, (Error, (u32, u32))>(e),
        },
{
    let mut input = input;
    let ghost s = input.src();
    let result = match imports(&mut input) {
        Err(x) => Err(x),
        Ok(imports) => match functions(&mut input) {
            Err(x) => Err(x),
            Ok(functions) => match node(&mut input) {
                Err(x) => Err(x),
                Ok(root) => Ok(ChirpFile::new((imports, functions, root))),
            },
        },
    };
    let offset = input.current_offset();
    match result {
        Ok(chirp_file) => if input.is_empty() {
            Ok(chirp_file)
        } else {
            Err((Error::TrailingText, (offset, offset)))
        },
        Err(ErrMode::Cut(err)) => Err((err, (offset, offset))),
        Err(ErrMode::Backtrack(err)) => Err((err, (offset, offset))),
    }
}

/// Parse the chirp file `input`.
pub fn parse_chirp(input: &[u8]) -> (r: Result<ChirpFile, (Error, (u32, u32))>)
    requires
        input@.len() <= u32::MAX,
    ensures
        match r {
            Ok(f) => sp_chirp_file(input@) == Ok::<SpecChirpFile, (Error, (u32, u32))>(
                chirp_file_view(f),
            ),
            Err(e) => sp_chirp_file(input@) == Err::<SpecChirpFile, (Error, (u32, u32))>(e),
        },
{
    chirp_file(Input::new(input, ()))
}

// ---------------------------------------------------------------------------
// Argument lists on their own
// ---------------------------------------------------------------------------

/// Comma separated arguments, with an optional trailing comma, making up
/// the whole of `s`. On failure, where parsing stopped.
pub open spec fn sp_arg_list(s: Seq<u8>) -> SRes<Seq<Argument>> {
    let (r, q) = sp_sep_args(s, 0);
    match r {
        Err(x) => (Err(x), q),
        Ok(args) => {
            let (rc, qc) = sp_expect(s, q, TokenType::Comma);
            let q2 = if rc is Ok {
                qc
            } else {
                q
            };
            if lex(s, q2).0 is None {
                (Ok(args), q2)
            } else {
                let (rt, qt) = sp_token_tree(s, q2, true);
                match rt {
                    Err(x) => (Err(x), qt),
                    Ok(_) => (Err(ErrMode::Backtrack(Error::Unexpected)), qt),
                }
            }
        },
    }
}

/// Parse an argument list making up the whole input (see [`sp_arg_list`]).
pub fn arg_list<'i>(input: &mut Input<'i>) -> (r: Result<Vec<Argument>, ErrMode>)
    requires
        old(input).wf(),
        old(input).offset() == 0,
    ensures
        final(input).wf(),
        final(input).src() == old(input).src(),
        (map_ok(r, |v: Vec<Argument>| v@), final(input).offset()) == sp_arg_list(old(input).src()),
{
    let ghost s = input.src();
    let args = match sep_args(input) {
        Err(x) => return Err(x),
        Ok(args) => args,
    };
    proof {
        lemma_paren_args_bounds(s, 0);
    }
    let checkpoint = input.checkpoint();
    match expect(input, TokenType::Comma) {
        Ok(_) => {},
        Err(_) => input.reset(checkpoint),
    }
    if input.is_empty() {
        Ok(args)
    } else {
        match token_tree(input, true) {
            Err(x) => Err(x),
            Ok(_) => Err(ErrMode::Backtrack(Error::Unexpected)),
        }
    }
}

} // verus!

//! Interpretation of a parsed chirp file: the sequence of operations that an
//! interpreter (such as one spawning entities) performs to build the scene
//! the file describes.
//!
//! Templates (`fn` declarations) are expanded where they are called: the
//! parameters of the template are replaced by the arguments of the call, and
//! the methods and children given at the call site ("template extras") are
//! added to the root statement of the template body.
use vstd::prelude::*;

use crate::ast::{
    chirp_file_view, function_view, lemma_nodes_view_index, methods_view, node_view, nodes_view,
    statement_view, template_view, Argument, ChirpFile, Function, IdentOffset, Method, Node,
    OptNameOffset, SpecChirpFile, SpecFunction, SpecImport, SpecMethod, Statement, Template,
    SpecNode, SpecStatement, SpecTemplate,
};
use crate::grammar::bytes_eq;
use crate::lex::{self, lex, Token, TokenType};
use crate::stream::Input;

verus! {

// ---------------------------------------------------------------------------
// Reading text at offsets
// ---------------------------------------------------------------------------

/// The identifier or string literal starting at offset `o` of `s` (spaces
/// before it skipped), empty if there is none.
pub open spec fn word_at(s: Seq<u8>, o: int) -> Seq<u8> {
    if o < 0 || o > s.len() {
        Seq::empty()
    } else {
        let (t, e) = lex(s, o);
        match t {
            Some((ty, st)) => if ty == TokenType::Ident || ty == TokenType::String {
                s.subrange(st, e)
            } else {
                Seq::empty()
            },
            None => Seq::empty(),
        }
    }
}

/// The span of the word at `o`: from `o`, as long as the word.
pub open spec fn span_at(s: Seq<u8>, o: int) -> (u32, u32) {
    (o as u32, (o + word_at(s, o).len()) as u32)
}

/// The text of an argument, empty when its span is not within `s`.
pub open spec fn arg_text(s: Seq<u8>, a: Argument) -> Seq<u8> {
    if a.start <= a.end <= s.len() {
        s.subrange(a.start as int, a.end as int)
    } else {
        Seq::empty()
    }
}

/// The text of an identifier.
pub open spec fn ident_text(s: Seq<u8>, i: IdentOffset) -> Seq<u8> {
    word_at(s, i.start as int)
}

pub proof fn lemma_word_at(s: Seq<u8>, o: int)
    requires
        0 <= o,
    ensures
        o + word_at(s, o).len() <= s.len() || word_at(s, o).len() == 0,
{
    if o <= s.len() {
        lex::lemma_lex_bounds(s, o);
    }
}

/// The word at `o` (see [`word_at`]).
pub fn read_word<'i>(bytes: &'i [u8], o: u32) -> (r: &'i [u8])
    requires
        bytes@.len() <= u32::MAX,
    ensures
        r@ == word_at(bytes@, o as int),
{
    if o as usize > bytes.len() {
        return &[];
    }
    let input = Input::new(bytes, ());
    let mut at = input.starting_at(o);
    match at.next_token() {
        Some(Token::Ident(word)) | Some(Token::String(word)) => word,
        _ => &[],
    }
}

/// The span of the word at `o` (see [`span_at`]).
pub fn read_span(bytes: &[u8], o: u32) -> (r: (u32, u32))
    requires
        bytes@.len() <= u32::MAX,
    ensures
        r == span_at(bytes@, o as int),
{
    let word = read_word(bytes, o);
    proof {
        lemma_word_at(bytes@, o as int);
    }
    (o, o + word.len() as u32)
}

/// The text of an argument (see [`arg_text`]).
pub fn read_arg<'i>(bytes: &'i [u8], a: Argument) -> (r: &'i [u8])
    ensures
        r@ == arg_text(bytes@, a),
{
    if a.start <= a.end && a.end as usize <= bytes.len() {
        &bytes[a.start as usize..a.end as usize]
    } else {
        &[]
    }
}

// ---------------------------------------------------------------------------
// Template parameters
// ---------------------------------------------------------------------------

/// The parameters of a template being expanded: each parameter name
/// (`idents`) stands for the argument at the same index in `values`, unless
/// `special_values` holds a replacement for it (when the argument itself
/// names a parameter of the calling template).
pub struct Parameters {
    pub idents: Vec<IdentOffset>,
    pub values: Vec<Argument>,
    pub special_values: Vec<Option<Argument>>,
}

/// Mathematical model of [`Parameters`].
pub struct SpecParams {
    pub idents: Seq<IdentOffset>,
    pub values: Seq<Argument>,
    pub special: Seq<Option<Argument>>,
}

impl View for Parameters {
    type V = SpecParams;

    open spec fn view(&self) -> SpecParams {
        SpecParams {
            idents: self.idents@,
            values: self.values@,
            special: self.special_values@,
        }
    }
}

pub open spec fn empty_params() -> SpecParams {
    SpecParams { idents: Seq::empty(), values: Seq::empty(), special: Seq::empty() }
}

pub open spec fn min(a: int, b: int) -> int {
    if a <= b {
        a
    } else {
        b
    }
}

/// How many parameters can be substituted: the pairs of a name and a value
/// (and a replacement, when there are replacements).
pub open spec fn pairs_len(p: SpecParams) -> int {
    let n = min(p.idents.len() as int, p.values.len() as int);
    if p.special.len() == 0 {
        n
    } else {
        min(n, p.special.len() as int)
    }
}

/// The value of parameter `i`: its replacement if any, else its argument.
pub open spec fn value_at(p: SpecParams, i: int) -> Argument {
    if 0 <= i < p.special.len() && p.special[i] is Some {
        p.special[i]->0
    } else {
        p.values[i]
    }
}

/// Index of the first parameter in `i..n` named `t`.
pub open spec fn find_param(s: Seq<u8>, p: SpecParams, t: Seq<u8>, i: int, n: int) -> Option<int>
    decreases n - i,
{
    if i >= n {
        None
    } else if ident_text(s, p.idents[i]) == t {
        Some(i)
    } else {
        find_param(s, p, t, i + 1, n)
    }
}

/// The argument `a` with parameters replaced: when its text is the name of
/// a parameter, the value of that parameter.
pub open spec fn substitute(s: Seq<u8>, p: SpecParams, a: Argument) -> Argument {
    match find_param(s, p, arg_text(s, a), 0, pairs_len(p)) {
        Some(i) => value_at(p, i),
        None => a,
    }
}

/// Whether an argument of a call names a parameter of `p`.
pub open spec fn forwards_params(s: Seq<u8>, p: SpecParams, values: Seq<Argument>) -> bool {
    exists|i: int, j: int|
        0 <= i < p.idents.len() && 0 <= j < values.len() && #[trigger] ident_text(s, p.idents[i])
            == #[trigger] arg_text(s, values[j])
}

/// The replacement of an argument that names a parameter of `p`.
pub open spec fn special_of(s: Seq<u8>, p: SpecParams, v: Argument) -> Option<Argument> {
    match find_param(s, p, arg_text(s, v), 0, min(p.idents.len() as int, p.values.len() as int)) {
        Some(k) => Some(value_at(p, k)),
        None => None,
    }
}

/// The parameters of a template with parameter names `idents`, called with
/// `values` from a scope with parameters `p`. Arguments that name a
/// parameter of `p` are replaced by its value.
pub open spec fn scope(s: Seq<u8>, p: SpecParams, idents: Seq<IdentOffset>, values: Seq<Argument>) -> SpecParams {
    SpecParams {
        idents,
        values,
        special: if forwards_params(s, p, values) {
            values.map_values(|v: Argument| special_of(s, p, v))
        } else {
            Seq::empty()
        },
    }
}

impl Parameters {
    /// No parameters.
    pub fn empty() -> (r: Self)
        ensures
            r@ == empty_params(),
    {
        Parameters { idents: Vec::new(), values: Vec::new(), special_values: Vec::new() }
    }

    /// Index of the first parameter in `0..n` named `text`.
    fn find(&self, bytes: &[u8], text: &[u8], n: usize) -> (r: Option<usize>)
        requires
            bytes@.len() <= u32::MAX,
            n <= self.idents@.len(),
        ensures
            match r {
                Some(i) => i < n && find_param(bytes@, self@, text@, 0, n as int) == Some(i as int),
                None => find_param(bytes@, self@, text@, 0, n as int) is None,
            },
    {
        let mut i: usize = 0;
        while i < n
            invariant
                i <= n <= self.idents@.len(),
                bytes@.len() <= u32::MAX,
                find_param(bytes@, self@, text@, 0, n as int) == find_param(
                    bytes@,
                    self@,
                    text@,
                    i as int,
                    n as int,
                ),
            decreases n - i,
        {
            if bytes_eq(read_word(bytes, self.idents[i].start), text) {
                return Some(i);
            }
            i = i + 1;
        }
        None
    }

    /// The value of parameter `i` (see [`value_at`]).
    fn value(&self, i: usize) -> (r: Argument)
        requires
            i < self.values@.len(),
        ensures
            r == value_at(self@, i as int),
    {
        if i < self.special_values.len() {
            match self.special_values[i] {
                Some(v) => return v,
                None => {},
            }
        }
        self.values[i]
    }

    /// The argument `arg` with parameters replaced (see [`substitute`]).
    pub fn replace(&self, bytes: &[u8], arg: Argument) -> (r: Argument)
        requires
            bytes@.len() <= u32::MAX,
        ensures
            r == substitute(bytes@, self@, arg),
    {
        let n = if self.idents.len() <= self.values.len() {
            self.idents.len()
        } else {
            self.values.len()
        };
        let n = if self.special_values.len() == 0 || n <= self.special_values.len() {
            n
        } else {
            self.special_values.len()
        };
        match self.find(bytes, read_arg(bytes, arg), n) {
            Some(i) => self.value(i),
            None => arg,
        }
    }

    /// Whether an argument among `values` names one of the parameters.
    fn forwarded_by(&self, bytes: &[u8], values: &Vec<Argument>) -> (r: bool)
        requires
            bytes@.len() <= u32::MAX,
        ensures
            r == forwards_params(bytes@, self@, values@),
    {
        let mut i: usize = 0;
        while i < self.idents.len()
            invariant
                i <= self.idents@.len(),
                bytes@.len() <= u32::MAX,
                forall|i2: int, j: int|
                    0 <= i2 < i && 0 <= j < values@.len() ==> ident_text(bytes@, self@.idents[i2])
                        != arg_text(bytes@, values@[j]),
            decreases self.idents@.len() - i,
        {
            let param = read_word(bytes, self.idents[i].start);
            let mut j: usize = 0;
            while j < values.len()
                invariant
                    i < self.idents@.len(),
                    j <= values@.len(),
                    param@ == ident_text(bytes@, self@.idents[i as int]),
                    forall|j2: int|
                        0 <= j2 < j ==> param@ != arg_text(bytes@, values@[j2]),
                decreases values@.len() - j,
            {
                if bytes_eq(param, read_arg(bytes, values[j])) {
                    assert(ident_text(bytes@, self@.idents[i as int]) == arg_text(
                        bytes@,
                        values@[j as int],
                    ));
                    return true;
                }
                j = j + 1;
            }
            i = i + 1;
        }
        false
    }

    /// The parameters of a template with parameter names `idents`, called
    /// with arguments `values` in the scope of `self` (see [`scope`]).
    pub fn scope(&self, bytes: &[u8], idents: &Vec<IdentOffset>, values: &Vec<Argument>) -> (r:
        Parameters)
        requires
            bytes@.len() <= u32::MAX,
        ensures
            r@ == scope(bytes@, self@, idents@, values@),
    {
        let mut special_values: Vec<Option<Argument>> = Vec::new();
        if self.forwarded_by(bytes, values) {
            let n = if self.idents.len() <= self.values.len() {
                self.idents.len()
            } else {
                self.values.len()
            };
            let mut j: usize = 0;
            while j < values.len()
                invariant
                    j <= values@.len(),
                    bytes@.len() <= u32::MAX,
                    n == min(self@.idents.len() as int, self@.values.len() as int),
                    special_values@ =~= values@.take(j as int).map_values(
                        |v: Argument| special_of(bytes@, self@, v),
                    ),
                decreases values@.len() - j,
            {
                let special = match self.find(bytes, read_arg(bytes, values[j]), n) {
                    Some(k) => Some(self.value(k)),
                    None => None,
                };
                special_values.push(special);
                assert(values@.take(j + 1) =~= values@.take(j as int).push(values@[j as int]));
                j = j + 1;
            }
            assert(values@.take(values@.len() as int) =~= values@);
        }
        let mut ids: Vec<IdentOffset> = Vec::new();
        let mut k: usize = 0;
        while k < idents.len()
            invariant
                k <= idents@.len(),
                ids@ =~= idents@.take(k as int),
            decreases idents@.len() - k,
        {
            ids.push(idents[k]);
            assert(idents@.take(k + 1) =~= idents@.take(k as int).push(idents@[k as int]));
            k = k + 1;
        }
        assert(idents@.take(idents@.len() as int) =~= idents@);
        let mut vals: Vec<Argument> = Vec::new();
        let mut k: usize = 0;
        while k < values.len()
            invariant
                k <= values@.len(),
                vals@ =~= values@.take(k as int),
            decreases values@.len() - k,
        {
            vals.push(values[k]);
            assert(values@.take(k + 1) =~= values@.take(k as int).push(values@[k as int]));
            k = k + 1;
        }
        assert(values@.take(values@.len() as int) =~= values@);
        Parameters { idents: ids, values: vals, special_values }
    }
}

/// The texts of `args`, parameters replaced, separated by `, `.
pub open spec fn joined_texts(s: Seq<u8>, p: SpecParams, args: Seq<Argument>) -> Seq<u8>
    decreases args.len(),
{
    if args.len() == 0 {
        Seq::empty()
    } else if args.len() == 1 {
        arg_text(s, substitute(s, p, args[0]))
    } else {
        joined_texts(s, p, args.drop_last()) + seq![0x2cu8, 0x20u8] + arg_text(
            s,
            substitute(s, p, args.last()),
        )
    }
}

/// The arguments of a method call as shown in messages.
pub open spec fn arguments_text(s: Seq<u8>, p: SpecParams, args: Seq<Argument>) -> Seq<u8> {
    if args.len() == 0 {
        Seq::empty()
    } else {
        seq![0x28u8] + joined_texts(s, p, args) + seq![0x29u8]
    }
}

/// The arguments of a method call, with template parameters replaced.
pub struct Arguments<'i, 'a> {
    pub input: &'i [u8],
    pub method_args: &'a Vec<Argument>,
    pub parameters: &'a Parameters,
}

impl<'i, 'a> Arguments<'i, 'a> {
    pub fn new(input: &'i [u8], method_args: &'a Vec<Argument>, parameters: &'a Parameters) -> (r:
        Self)
        ensures
            r.input == input,
            r.method_args == method_args,
            r.parameters == parameters,
    {
        Arguments { input, method_args, parameters }
    }

    /// Number of arguments.
    pub fn len(&self) -> (r: usize)
        ensures
            r == self.method_args@.len(),
    {
        self.method_args.len()
    }

    /// The span from the start of the first argument to the end of the
    /// last one, `None` without arguments.
    pub fn span(&self) -> (r: Option<Span>)
        ensures
            self.method_args@.len() == 0 ==> r is None,
            self.method_args@.len() > 0 ==> r == Some(
                (self.method_args@[0].start, self.method_args@.last().end),
            ),
    {
        let n = self.method_args.len();
        if n == 0 {
            None
        } else {
            Some((self.method_args[0].start, self.method_args[n - 1].end))
        }
    }

    /// The arguments as shown in messages: nothing without arguments, else
    /// their texts, parameters replaced, separated by `, ` within
    /// parentheses.
    pub fn to_text(&self) -> (r: Vec<u8>)
        requires
            self.input@.len() <= u32::MAX,
        ensures
            r@ == arguments_text(self.input@, self.parameters@, self.method_args@),
    {
        let mut out: Vec<u8> = Vec::new();
        let n = self.method_args.len();
        if n == 0 {
            return out;
        }
        out.push(0x28);
        let ghost s = self.input@;
        let ghost p = self.parameters@;
        let ghost args = self.method_args@;
        let mut i: usize = 0;
        while i < n
            invariant
                n == args.len(),
                n > 0,
                i <= n,
                s == self.input@,
                p == self.parameters@,
                args == self.method_args@,
                s.len() <= u32::MAX,
                out@ == seq![0x28u8] + joined_texts(s, p, args.take(i as int)),
            decreases n - i,
        {
            let ghost before = out@;
            if i > 0 {
                out.push(0x2c);
                out.push(0x20);
            }
            let text = read_arg(self.input, self.parameters.replace(self.input, self.method_args[i]));
            let mut k: usize = 0;
            while k < text.len()
                invariant
                    k <= text@.len(),
                    out@ == before + (if i > 0 {
                        seq![0x2cu8, 0x20u8]
                    } else {
                        Seq::empty()
                    }) + text@.take(k as int),
                decreases text@.len() - k,
            {
                out.push(text[k]);
                assert(text@.take(k + 1) =~= text@.take(k as int).push(text@[k as int]));
                k = k + 1;
            }
            proof {
                assert(text@.take(text@.len() as int) =~= text@);
                assert(args.take(i + 1).drop_last() =~= args.take(i as int));
                assert(args.take(i + 1).last() == args[i as int]);
                assert(out@ =~= seq![0x28u8] + joined_texts(s, p, args.take(i + 1)));
            }
            i = i + 1;
        }
        proof {
            assert(args.take(n as int) =~= args);
        }
        out.push(0x29);
        out
    }

    /// The text of argument `index`, parameters replaced.
    pub fn get(&self, index: usize) -> (r: Option<&'i [u8]>)
        requires
            self.input@.len() <= u32::MAX,
        ensures
            index < self.method_args@.len() ==> (r matches Some(text) && text@ == arg_text(
                self.input@,
                substitute(self.input@, self.parameters@, self.method_args@[index as int]),
            )),
            index >= self.method_args@.len() ==> r is None,
    {
        if index >= self.method_args.len() {
            return None;
        }
        let arg = self.parameters.replace(self.input, self.method_args[index]);
        Some(read_arg(self.input, arg))
    }
}

// ---------------------------------------------------------------------------
// Operations of an interpreter
// ---------------------------------------------------------------------------

/// A span of the input: start and end offsets.
pub type Span = (u32, u32);

/// What an interpreter is asked to do. Names are given by their span in the
/// input; the text of a name is the identifier or string literal at the
/// start of its span.
pub enum Op {
    /// `use name as alias`.
    Import { name: Span, alias: Option<Span> },
    /// The template `name` is declared, it is function number `index`.
    RegisterFn { name: Span, index: usize },
    /// `code(name)`.
    Code(Span),
    /// The current entity is named.
    SetName(Span),
    /// The method `name` is called on the current entity, with the text of
    /// `arguments` as arguments.
    Method { name: Span, arguments: Vec<Argument> },
    /// Children of the current entity follow.
    StartChildren,
    /// The children of the current entity are done.
    CompleteChildren,
    /// The current entity has no children.
    SpawnLeaf,
    /// No template is declared with the name of the template call at the
    /// span; the call is skipped.
    MissingTemplate(Span),
}

/// Mathematical model of [`Op`].
pub enum SpecOp {
    Import { name: Span, alias: Option<Span> },
    RegisterFn { name: Span, index: int },
    Code(Span),
    SetName(Span),
    Method { name: Span, arguments: Seq<Argument> },
    StartChildren,
    CompleteChildren,
    SpawnLeaf,
    MissingTemplate(Span),
}

pub open spec fn op_view(op: Op) -> SpecOp {
    match op {
        Op::Import { name, alias } => SpecOp::Import { name, alias },
        Op::RegisterFn { name, index } => SpecOp::RegisterFn { name, index: index as int },
        Op::Code(n) => SpecOp::Code(n),
        Op::SetName(n) => SpecOp::SetName(n),
        Op::Method { name, arguments } => SpecOp::Method { name, arguments: arguments@ },
        Op::StartChildren => SpecOp::StartChildren,
        Op::CompleteChildren => SpecOp::CompleteChildren,
        Op::SpawnLeaf => SpecOp::SpawnLeaf,
        Op::MissingTemplate(n) => SpecOp::MissingTemplate(n),
    }
}

pub open spec fn ops_view(ops: Seq<Op>) -> Seq<SpecOp> {
    ops.map_values(|op: Op| op_view(op))
}

pub proof fn lemma_ops_view_push(ops: Seq<Op>, op: Op)
    ensures
        ops_view(ops.push(op)) == ops_view(ops).push(op_view(op)),
{
    assert(ops_view(ops.push(op)) =~= ops_view(ops).push(op_view(op)));
}

// ---------------------------------------------------------------------------
// Specification of the interpretation
// ---------------------------------------------------------------------------

/// A template being expanded: its parameters, and the methods and children
/// given at its call site.
pub struct SpecFrame {
    pub params: SpecParams,
    pub methods: Seq<SpecMethod>,
    pub children: Seq<SpecNode>,
}

/// Concatenation of operation lists that may be missing.
pub open spec fn cat(a: Option<Seq<SpecOp>>, b: Option<Seq<SpecOp>>) -> Option<Seq<SpecOp>> {
    match (a, b) {
        (Some(x), Some(y)) => Some(x + y),
        _ => None,
    }
}

/// A method call, arguments substituted with `p`.
pub open spec fn method_op(s: Seq<u8>, m: SpecMethod, p: SpecParams) -> SpecOp {
    SpecOp::Method {
        name: span_at(s, m.name.start as int),
        arguments: m.arguments.map_values(|a: Argument| substitute(s, p, a)),
    }
}

pub open spec fn methods_ops(s: Seq<u8>, ms: Seq<SpecMethod>, p: SpecParams) -> Seq<SpecOp> {
    ms.map_values(|m: SpecMethod| method_op(s, m, p))
}

/// Naming the entity, when it has a name.
pub open spec fn name_ops(s: Seq<u8>, name: OptNameOffset) -> Seq<SpecOp> {
    if name.start == u32::MAX {
        Seq::empty()
    } else {
        seq![SpecOp::SetName(span_at(s, name.start as int))]
    }
}

/// The parameters of the caller of frame `i`: frame `i - 1`, none for the
/// outermost frame.
pub open spec fn parent_params(chain: Seq<SpecFrame>, i: int) -> SpecParams {
    if i > 0 {
        chain[i - 1].params
    } else {
        empty_params()
    }
}

/// The template extra methods of frames `i`, `i - 1`, ..., `0`, each
/// substituted with the parameters of the frame's caller.
pub open spec fn trailing_methods(s: Seq<u8>, chain: Seq<SpecFrame>, i: int) -> Seq<SpecOp>
    decreases i + 1,
{
    if i < 0 {
        Seq::empty()
    } else {
        methods_ops(s, chain[i].methods, parent_params(chain, i)) + trailing_methods(s, chain, i - 1)
    }
}

/// Whether no frame has extra children.
pub open spec fn no_trailing_children(chain: Seq<SpecFrame>) -> bool {
    forall|i: int| 0 <= i < chain.len() ==> (#[trigger] chain[i]).children.len() == 0
}

/// The name of a template call `name!`, without the `!`.
pub open spec fn template_name(word: Seq<u8>) -> Seq<u8> {
    if word.len() > 0 {
        word.drop_last()
    } else {
        word
    }
}

/// The last of the first `n` functions named `name`.
pub open spec fn lookup(s: Seq<u8>, fns: Seq<SpecFunction>, name: Seq<u8>, n: int) -> Option<int>
    decreases n,
{
    if n <= 0 {
        None
    } else if ident_text(s, fns[n - 1].name) == name {
        Some(n - 1)
    } else {
        lookup(s, fns, name, n - 1)
    }
}

/// A statement outside of a template body, in the scope of parameters `p`.
/// `None` when `fuel` is not enough to interpret it.
pub open spec fn i_node(s: Seq<u8>, fns: Seq<SpecFunction>, p: SpecParams, n: SpecNode, fuel: nat) -> Option<
    Seq<SpecOp>,
>
    decreases fuel, 0int,
{
    if fuel == 0 {
        None
    } else {
        match n {
            SpecNode::Code(c) => Some(seq![SpecOp::Code(span_at(s, c.start as int))]),
            SpecNode::Statement(st) => i_spawn(s, fns, p, Seq::empty(), st, (fuel - 1) as nat),
            SpecNode::Template(t) => i_template(s, fns, p, Seq::empty(), t, (fuel - 1) as nat),
        }
    }
}

/// Statements outside of a template body, in order.
pub open spec fn i_nodes(s: Seq<u8>, fns: Seq<SpecFunction>, p: SpecParams, ns: Seq<SpecNode>, fuel: nat) -> Option<
    Seq<SpecOp>,
>
    decreases fuel, ns.len(),
{
    if ns.len() == 0 {
        Some(Seq::empty())
    } else if fuel == 0 {
        None
    } else {
        cat(i_nodes(s, fns, p, ns.drop_last(), fuel), i_node(s, fns, p, ns.last(), (fuel - 1) as nat))
    }
}

/// The root statement of the body of the template of the innermost frame of
/// `chain`.
pub open spec fn i_root(s: Seq<u8>, fns: Seq<SpecFunction>, chain: Seq<SpecFrame>, n: SpecNode, fuel: nat) -> Option<
    Seq<SpecOp>,
>
    decreases fuel, 0int,
{
    if fuel == 0 || chain.len() == 0 {
        None
    } else {
        let p = chain.last().params;
        match n {
            SpecNode::Code(c) => Some(seq![SpecOp::Code(span_at(s, c.start as int))]),
            SpecNode::Statement(st) => i_spawn(s, fns, p, chain, st, (fuel - 1) as nat),
            SpecNode::Template(t) => i_template(s, fns, p, chain, t, (fuel - 1) as nat),
        }
    }
}

/// A template call, in the scope of parameters `p`, within the templates of
/// `chain`: the body of the template, as a new innermost frame.
pub open spec fn i_template(
    s: Seq<u8>,
    fns: Seq<SpecFunction>,
    p: SpecParams,
    chain: Seq<SpecFrame>,
    t: SpecTemplate,
    fuel: nat,
) -> Option<Seq<SpecOp>>
    decreases fuel, 0int,
{
    if fuel == 0 {
        None
    } else {
        let name = template_name(word_at(s, t.name.start as int));
        match lookup(s, fns, name, fns.len() as int) {
            None => Some(seq![SpecOp::MissingTemplate(span_at(s, t.name.start as int))]),
            Some(k) => {
                let frame = SpecFrame {
                    params: scope(s, p, fns[k].arguments, t.arguments),
                    methods: t.methods,
                    children: t.children,
                };
                i_root(s, fns, chain.push(frame), fns[k].body, (fuel - 1) as nat)
            },
        }
    }
}

/// An entity, its own methods and children in the scope of `p`, with the
/// extras of the templates of `chain`.
pub open spec fn i_spawn(
    s: Seq<u8>,
    fns: Seq<SpecFunction>,
    p: SpecParams,
    chain: Seq<SpecFrame>,
    st: SpecStatement,
    fuel: nat,
) -> Option<Seq<SpecOp>>
    decreases fuel, 0int,
{
    if fuel == 0 {
        None
    } else {
        let head = name_ops(s, st.name) + methods_ops(s, st.methods, p) + trailing_methods(
            s,
            chain,
            chain.len() - 1,
        );
        if st.children.len() == 0 && no_trailing_children(chain) {
            Some(head.push(SpecOp::SpawnLeaf))
        } else {
            cat(
                cat(
                    Some(head.push(SpecOp::StartChildren)),
                    cat(
                        i_nodes(s, fns, p, st.children, (fuel - 1) as nat),
                        i_trailing(s, fns, chain, chain.len() - 1, (fuel - 1) as nat),
                    ),
                ),
                Some(seq![SpecOp::CompleteChildren]),
            )
        }
    }
}

/// The extra children of frames `i`, `i - 1`, ..., `0`, each in the scope
/// of the frame's caller.
pub open spec fn i_trailing(s: Seq<u8>, fns: Seq<SpecFunction>, chain: Seq<SpecFrame>, i: int, fuel: nat) -> Option<
    Seq<SpecOp>,
>
    decreases fuel, i + 1,
{
    if i < 0 {
        Some(Seq::empty())
    } else if fuel == 0 {
        None
    } else {
        cat(
            i_nodes(s, fns, parent_params(chain, i), chain[i].children, (fuel - 1) as nat),
            i_trailing(s, fns, chain, i - 1, fuel),
        )
    }
}

/// The imports and function declarations of a file.
pub open spec fn header_ops(s: Seq<u8>, f: SpecChirpFile) -> Seq<SpecOp> {
    f.imports.map_values(
        |i: SpecImport|
            SpecOp::Import {
                name: span_at(s, i.name.start as int),
                alias: if i.alias.start == u32::MAX {
                    None
                } else {
                    Some(span_at(s, i.alias.start as int))
                },
            },
    ) + Seq::new(
        f.functions.len(),
        |k: int| SpecOp::RegisterFn { name: span_at(s, f.functions[k].name.start as int), index: k },
    )
}

/// The interpretation of the whole file `f`, `None` when `fuel` is not
/// enough (templates calling themselves forever never end).
pub open spec fn i_file(s: Seq<u8>, f: SpecChirpFile, fuel: nat) -> Option<Seq<SpecOp>> {
    cat(Some(header_ops(s, f)), i_node(s, f.functions, empty_params(), f.root, fuel))
}

/// Whether interpreting `f` ends: its template calls do not expand forever.
pub open spec fn terminates(s: Seq<u8>, f: SpecChirpFile) -> bool {
    exists|fuel: nat| #[trigger] i_file(s, f, fuel) is Some
}

/// The interpretation of `f`, when it ends.
pub open spec fn interpretation(s: Seq<u8>, f: SpecChirpFile) -> Seq<SpecOp> {
    i_file(s, f, choose|fuel: nat| #[trigger] i_file(s, f, fuel) is Some)->0
}

// ---------------------------------------------------------------------------
// The interpreter
// ---------------------------------------------------------------------------

/// A template being expanded (see [`SpecFrame`]).
pub struct Frame<'a> {
    pub params: Parameters,
    pub methods: &'a Vec<Method>,
    pub children: &'a Vec<Node>,
}

pub open spec fn frame_view(f: Frame) -> SpecFrame {
    SpecFrame {
        params: f.params@,
        methods: methods_view(f.methods@),
        children: nodes_view(f.children@),
    }
}

pub open spec fn chain_view(c: Seq<Frame>) -> Seq<SpecFrame> {
    c.map_values(|f: Frame| frame_view(f))
}

pub open spec fn fns_view(fs: Seq<Function>) -> Seq<SpecFunction> {
    fs.map_values(|f: Function| function_view(f))
}

proof fn lemma_i_nodes_prefix(
    s: Seq<u8>,
    fns: Seq<SpecFunction>,
    p: SpecParams,
    ns: Seq<SpecNode>,
    fuel: nat,
    k: int,
)
    requires
        0 <= k <= ns.len(),
        i_nodes(s, fns, p, ns, fuel) is Some,
    ensures
        i_nodes(s, fns, p, ns.take(k), fuel) is Some,
    decreases ns.len() - k,
{
    if k < ns.len() {
        lemma_i_nodes_prefix(s, fns, p, ns, fuel, k + 1);
        assert(ns.take(k + 1).drop_last() =~= ns.take(k));
    } else {
        assert(ns.take(k) =~= ns);
    }
}

/// Append the calls of methods `ms`, arguments substituted with `p`.
fn emit_methods(out: &mut Vec<Op>, bytes: &[u8], ms: &Vec<Method>, p: &Parameters)
    requires
        bytes@.len() <= u32::MAX,
    ensures
        ops_view(final(out)@) == ops_view(old(out)@) + methods_ops(bytes@, methods_view(ms@), p@),
{
    let ghost base = ops_view(out@);
    let mut i: usize = 0;
    while i < ms.len()
        invariant
            i <= ms@.len(),
            bytes@.len() <= u32::MAX,
            ops_view(out@) == base + methods_ops(bytes@, methods_view(ms@.take(i as int)), p@),
        decreases ms@.len() - i,
    {
        let m = &ms[i];
        let mut arguments: Vec<Argument> = Vec::new();
        let mut j: usize = 0;
        while j < m.arguments.len()
            invariant
                j <= m.arguments@.len(),
                bytes@.len() <= u32::MAX,
                arguments@ =~= m.arguments@.take(j as int).map_values(
                    |a: Argument| substitute(bytes@, p@, a),
                ),
            decreases m.arguments@.len() - j,
        {
            arguments.push(p.replace(bytes, m.arguments[j]));
            assert(m.arguments@.take(j + 1) =~= m.arguments@.take(j as int).push(
                m.arguments@[j as int],
            ));
            j = j + 1;
        }
        assert(m.arguments@.take(m.arguments@.len() as int) =~= m.arguments@);
        let op = Op::Method { name: read_span(bytes, m.name.start), arguments };
        proof {
            lemma_ops_view_push(out@, op);
            assert(ms@.take(i + 1) =~= ms@.take(i as int).push(ms@[i as int]));
            assert(methods_ops(bytes@, methods_view(ms@.take(i + 1)), p@) =~= methods_ops(
                bytes@,
                methods_view(ms@.take(i as int)),
                p@,
            ).push(op_view(op)));
        }
        out.push(op);
        i = i + 1;
    }
    assert(ms@.take(ms@.len() as int) =~= ms@);
}

/// Append the extra methods of the templates of `chain`.
fn emit_trailing_methods(out: &mut Vec<Op>, bytes: &[u8], chain: &Vec<Frame>)
    requires
        bytes@.len() <= u32::MAX,
    ensures
        ops_view(final(out)@) == ops_view(old(out)@) + trailing_methods(
            bytes@,
            chain_view(chain@),
            chain@.len() - 1,
        ),
{
    let ghost cv = chain_view(chain@);
    let ghost base = ops_view(out@);
    let empty = Parameters::empty();
    let mut i: usize = chain.len();
    while i > 0
        invariant
            i <= chain@.len(),
            bytes@.len() <= u32::MAX,
            cv == chain_view(chain@),
            empty@ == empty_params(),
            ops_view(out@) + trailing_methods(bytes@, cv, i - 1) == base + trailing_methods(
                bytes@,
                cv,
                chain@.len() - 1,
            ),
        decreases i,
    {
        i = i - 1;
        let parent = if i > 0 {
            &chain[i - 1].params
        } else {
            &empty
        };
        let ghost before = ops_view(out@);
        emit_methods(out, bytes, chain[i].methods, parent);
        proof {
            assert(parent@ == parent_params(cv, i as int));
            assert(before + trailing_methods(bytes@, cv, i as int) =~= ops_view(out@)
                + trailing_methods(bytes@, cv, i - 1));
        }
    }
    assert(ops_view(out@) + trailing_methods(bytes@, cv, -1) =~= ops_view(out@));
}

/// The templates declared in a file, by name: what a template call
/// expands to. A `bevy::utils::HashMap` from the name's bytes to the index
/// of the function.
#[verifier::external_body]
pub struct Templates {
    map: bevy::utils::HashMap<Vec<u8>, usize>,
}

/// The entries of a [`Templates`] table.
pub uninterp spec fn template_entries(t: Templates) -> Map<Seq<u8>, usize>;

/// A table with no entry.
pub open spec fn no_templates() -> Map<Seq<u8>, usize> {
    Map::empty()
}

/// `HashMap::default`: an empty table.
#[verifier::external_body]
fn templates_new() -> (r: Templates)
    ensures
        template_entries(r) == no_templates(),
{
    Templates { map: bevy::utils::HashMap::default() }
}

/// `HashMap::insert`: `name` now maps to `index`, replacing what it mapped
/// to before.
#[verifier::external_body]
fn templates_insert(t: &mut Templates, name: &[u8], index: usize)
    ensures
        template_entries(*final(t)) == template_entries(*old(t)).insert(name@, index),
{
    t.map.insert(name.to_vec(), index);
}

/// `HashMap::get`: what `name` maps to, if anything.
#[verifier::external_body]
fn templates_get(t: &Templates, name: &[u8]) -> (r: Option<usize>)
    ensures
        template_entries(*t).dom().contains(name@) ==> r == Some(template_entries(*t)[name@]),
        !template_entries(*t).dom().contains(name@) ==> r is None,
{
    t.map.get(name).copied()
}

/// The table of the first `n` functions of `fns`, registered in order: a
/// later function replaces an earlier one of the same name.
pub open spec fn fn_table(s: Seq<u8>, fns: Seq<SpecFunction>, n: int) -> Map<Seq<u8>, usize>
    decreases n,
{
    if n <= 0 {
        Map::empty()
    } else {
        fn_table(s, fns, n - 1).insert(ident_text(s, fns[n - 1].name), (n - 1) as usize)
    }
}

/// The table maps a name to the last of the functions with that name.
pub proof fn lemma_fn_table(s: Seq<u8>, fns: Seq<SpecFunction>, name: Seq<u8>, n: int)
    requires
        0 <= n <= fns.len(),
        n <= usize::MAX,
    ensures
        fn_table(s, fns, n).dom().contains(name) <==> lookup(s, fns, name, n) is Some,
        lookup(s, fns, name, n) matches Some(k) ==> 0 <= k < n && fn_table(s, fns, n)[name] == k,
    decreases n,
{
    if n > 0 {
        lemma_fn_table(s, fns, name, n - 1);
    }
}

/// Build the table of the functions `fns`.
fn build_templates(bytes: &[u8], fns: &Vec<Function>) -> (r: Templates)
    requires
        bytes@.len() <= u32::MAX,
    ensures
        template_entries(r) == fn_table(bytes@, fns_view(fns@), fns@.len() as int),
{
    let mut table = templates_new();
    let mut k: usize = 0;
    while k < fns.len()
        invariant
            k <= fns@.len(),
            bytes@.len() <= u32::MAX,
            template_entries(table) == fn_table(bytes@, fns_view(fns@), k as int),
        decreases fns@.len() - k,
    {
        let name = read_word(bytes, fns[k].name.start);
        templates_insert(&mut table, name, k);
        proof {
            assert(fns_view(fns@)[k as int] == function_view(fns@[k as int]));
        }
        k = k + 1;
    }
    table
}

/// The name of the template that the call `word` (`name!`) calls: `word`
/// without its last byte.
pub fn template_call_name(word: &[u8]) -> (r: &[u8])
    ensures
        r@ == template_name(word@),
{
    if word.len() > 0 {
        let r = &word[0..word.len() - 1];
        assert(r@ =~= word@.drop_last());
        r
    } else {
        word
    }
}

/// Interpret a statement outside of a template body (see [`i_node`]);
/// `false` when `fuel` is not enough.
fn exec_node<'a>(
    out: &mut Vec<Op>,
    bytes: &[u8],
    fns: &'a Vec<Function>,
    table: &Templates,
    p: &Parameters,
    n: &'a Node,
    fuel: u64,
) -> (done: bool)
    requires
        bytes@.len() <= u32::MAX,
        template_entries(*table) == fn_table(bytes@, fns_view(fns@), fns@.len() as int),
    ensures
        done == i_node(bytes@, fns_view(fns@), p@, node_view(*n), fuel as nat) is Some,
        done ==> ops_view(final(out)@) == ops_view(old(out)@) + i_node(
            bytes@,
            fns_view(fns@),
            p@,
            node_view(*n),
            fuel as nat,
        )->0,
    decreases fuel,
{
    if fuel == 0 {
        return false;
    }
    match n {
        Node::Code(c) => {
            let op = Op::Code(read_span(bytes, c.start));
            proof {
                lemma_ops_view_push(out@, op);
            }
            out.push(op);
            true
        },
        Node::Statement(st) => {
            let chain: Vec<Frame<'a>> = Vec::new();
            proof {
                assert(chain_view(chain@) =~= Seq::empty());
            }
            exec_spawn(out, bytes, fns, table, p, &chain, st, fuel - 1)
        },
        Node::Template(t) => {
            let mut chain: Vec<Frame<'a>> = Vec::new();
            proof {
                assert(chain_view(chain@) =~= Seq::empty());
            }
            exec_template(out, bytes, fns, table, p, &mut chain, t, fuel - 1)
        },
    }
}

/// Interpret statements outside of a template body (see [`i_nodes`]);
/// `false` when `fuel` is not enough.
fn exec_nodes<'a>(
    out: &mut Vec<Op>,
    bytes: &[u8],
    fns: &'a Vec<Function>,
    table: &Templates,
    p: &Parameters,
    ns: &'a Vec<Node>,
    fuel: u64,
) -> (done: bool)
    requires
        bytes@.len() <= u32::MAX,
        template_entries(*table) == fn_table(bytes@, fns_view(fns@), fns@.len() as int),
    ensures
        done == i_nodes(bytes@, fns_view(fns@), p@, nodes_view(ns@), fuel as nat) is Some,
        done ==> ops_view(final(out)@) == ops_view(old(out)@) + i_nodes(
            bytes@,
            fns_view(fns@),
            p@,
            nodes_view(ns@),
            fuel as nat,
        )->0,
    decreases fuel,
{
    let ghost sv = nodes_view(ns@);
    let ghost fv = fns_view(fns@);
    let ghost base = ops_view(out@);
    proof {
        lemma_nodes_view_index(ns@);
        assert(sv.take(0) =~= Seq::empty());
    }
    if ns.len() == 0 {
        return true;
    }
    if fuel == 0 {
        return false;
    }
    let mut k: usize = 0;
    while k < ns.len()
        invariant
            k <= ns@.len(),
            fuel > 0,
            bytes@.len() <= u32::MAX,
            sv == nodes_view(ns@),
            fv == fns_view(fns@),
            sv.len() == ns@.len(),
            forall|i: int| 0 <= i < ns@.len() ==> #[trigger] sv[i] == node_view(ns@[i]),
            template_entries(*table) == fn_table(bytes@, fns_view(fns@), fns@.len() as int),
            i_nodes(bytes@, fv, p@, sv.take(k as int), fuel as nat) is Some,
            ops_view(out@) == base + i_nodes(bytes@, fv, p@, sv.take(k as int), fuel as nat)->0,
        decreases ns@.len() - k,
    {
        proof {
            assert(sv.take(k + 1).drop_last() =~= sv.take(k as int));
            assert(sv.take(k + 1).last() == sv[k as int]);
        }
        let done = exec_node(out, bytes, fns, table, p, &ns[k], fuel - 1);
        if !done {
            proof {
                if i_nodes(bytes@, fv, p@, sv, fuel as nat) is Some {
                    lemma_i_nodes_prefix(bytes@, fv, p@, sv, fuel as nat, k + 1);
                }
            }
            return false;
        }
        proof {
            assert(ops_view(out@) =~= base + i_nodes(bytes@, fv, p@, sv.take(k + 1), fuel as nat)->0);
        }
        k = k + 1;
    }
    assert(sv.take(ns@.len() as int) =~= sv);
    true
}

/// Interpret the root statement of a template body, the template being the
/// innermost frame of `chain` (see [`i_root`]); `false` when `fuel` is not
/// enough.
fn exec_root<'a>(
    out: &mut Vec<Op>,
    bytes: &[u8],
    fns: &'a Vec<Function>,
    table: &Templates,
    chain: &mut Vec<Frame<'a>>,
    n: &'a Node,
    fuel: u64,
) -> (done: bool)
    requires
        bytes@.len() <= u32::MAX,
        template_entries(*table) == fn_table(bytes@, fns_view(fns@), fns@.len() as int),
        old(chain)@.len() > 0,
    ensures
        final(chain)@ == old(chain)@,
        done == i_root(bytes@, fns_view(fns@), chain_view(old(chain)@), node_view(*n), fuel as nat) is Some,
        done ==> ops_view(final(out)@) == ops_view(old(out)@) + i_root(
            bytes@,
            fns_view(fns@),
            chain_view(old(chain)@),
            node_view(*n),
            fuel as nat,
        )->0,
    decreases fuel,
{
    if fuel == 0 {
        return false;
    }
    match n {
        Node::Code(c) => {
            let op = Op::Code(read_span(bytes, c.start));
            proof {
                lemma_ops_view_push(out@, op);
            }
            out.push(op);
            true
        },
        Node::Statement(st) => {
            let last = chain.len() - 1;
            exec_spawn(out, bytes, fns, table, &chain[last].params, &*chain, st, fuel - 1)
        },
        Node::Template(t) => {
            let empty = Parameters::empty();
            exec_template(out, bytes, fns, table, &empty, chain, t, fuel - 1)
        },
    }
}

/// Interpret a template call, in the scope of the innermost frame of
/// `chain`, or of `file_params` outside of templates (see [`i_template`]);
/// `false` when `fuel` is not enough.
fn exec_template<'a>(
    out: &mut Vec<Op>,
    bytes: &[u8],
    fns: &'a Vec<Function>,
    table: &Templates,
    file_params: &Parameters,
    chain: &mut Vec<Frame<'a>>,
    t: &'a Template,
    fuel: u64,
) -> (done: bool)
    requires
        bytes@.len() <= u32::MAX,
        template_entries(*table) == fn_table(bytes@, fns_view(fns@), fns@.len() as int),
    ensures
        final(chain)@ == old(chain)@,
        done == i_template(
            bytes@,
            fns_view(fns@),
            if old(chain)@.len() == 0 {
                file_params@
            } else {
                old(chain)@.last().params@
            },
            chain_view(old(chain)@),
            template_view(*t),
            fuel as nat,
        ) is Some,
        done ==> ops_view(final(out)@) == ops_view(old(out)@) + i_template(
            bytes@,
            fns_view(fns@),
            if old(chain)@.len() == 0 {
                file_params@
            } else {
                old(chain)@.last().params@
            },
            chain_view(old(chain)@),
            template_view(*t),
            fuel as nat,
        )->0,
    decreases fuel,
{
    if fuel == 0 {
        return false;
    }
    let ghost old_chain = chain@;
    let word = read_word(bytes, t.name.start);
    let name = template_call_name(word);
    let nfns = fns.len();
    proof {
        lemma_fn_table(bytes@, fns_view(fns@), name@, nfns as int);
    }
    match templates_get(table, name) {
        None => {
            let op = Op::MissingTemplate(read_span(bytes, t.name.start));
            proof {
                lemma_ops_view_push(out@, op);
            }
            out.push(op);
            true
        },
        Some(k) => {
            let params = {
                let p = if chain.len() == 0 {
                    file_params
                } else {
                    &chain[chain.len() - 1].params
                };
                p.scope(bytes, &fns[k].arguments, &t.arguments)
            };
            let frame = Frame { params, methods: &t.methods, children: &t.children };
            chain.push(frame);
            proof {
                assert(chain_view(chain@) =~= chain_view(old_chain).push(frame_view(frame)));
                assert(fns_view(fns@)[k as int] == function_view(fns@[k as int]));
            }
            let done = exec_root(out, bytes, fns, table, chain, &fns[k].body, fuel - 1);
            chain.pop();
            proof {
                assert(chain@ =~= old_chain);
            }
            done
        },
    }
}

/// Interpret an entity (see [`i_spawn`]); `false` when `fuel` is not
/// enough.
fn exec_spawn<'a>(
    out: &mut Vec<Op>,
    bytes: &[u8],
    fns: &'a Vec<Function>,
    table: &Templates,
    p: &Parameters,
    chain: &Vec<Frame<'a>>,
    st: &'a Statement,
    fuel: u64,
) -> (done: bool)
    requires
        bytes@.len() <= u32::MAX,
        template_entries(*table) == fn_table(bytes@, fns_view(fns@), fns@.len() as int),
    ensures
        done == i_spawn(bytes@, fns_view(fns@), p@, chain_view(chain@), statement_view(*st), fuel as nat) is Some,
        done ==> ops_view(final(out)@) == ops_view(old(out)@) + i_spawn(
            bytes@,
            fns_view(fns@),
            p@,
            chain_view(chain@),
            statement_view(*st),
            fuel as nat,
        )->0,
    decreases fuel,
{
    if fuel == 0 {
        return false;
    }
    let ghost base = ops_view(out@);
    let ghost cv = chain_view(chain@);
    let ghost sv = statement_view(*st);
    if st.name.start != u32::MAX {
        let op = Op::SetName(read_span(bytes, st.name.start));
        proof {
            lemma_ops_view_push(out@, op);
        }
        out.push(op);
    }
    proof {
        assert(ops_view(out@) =~= base + name_ops(bytes@, st.name));
    }
    emit_methods(out, bytes, &st.methods, p);
    emit_trailing_methods(out, bytes, chain);
    let ghost head = name_ops(bytes@, sv.name) + methods_ops(bytes@, sv.methods, p@)
        + trailing_methods(bytes@, cv, cv.len() - 1);
    proof {
        assert(ops_view(out@) =~= base + head);
    }
    let mut no_children = st.children.len() == 0;
    let mut i: usize = 0;
    while i < chain.len()
        invariant
            i <= chain@.len(),
            cv == chain_view(chain@),
            no_children == (st.children@.len() == 0 && forall|j: int|
                0 <= j < i ==> (#[trigger] cv[j]).children.len() == 0),
        decreases chain@.len() - i,
    {
        proof {
            lemma_nodes_view_index(chain@[i as int].children@);
            assert(cv[i as int] == frame_view(chain@[i as int]));
        }
        no_children = no_children && chain[i].children.len() == 0;
        i = i + 1;
    }
    proof {
        lemma_nodes_view_index(st.children@);
    }
    if no_children {
        let op = Op::SpawnLeaf;
        proof {
            lemma_ops_view_push(out@, op);
        }
        out.push(op);
        true
    } else {
        let op = Op::StartChildren;
        proof {
            lemma_ops_view_push(out@, op);
        }
        out.push(op);
        if !exec_nodes(out, bytes, fns, table, p, &st.children, fuel - 1) {
            return false;
        }
        if !exec_trailing(out, bytes, fns, table, chain, fuel - 1) {
            return false;
        }
        let op = Op::CompleteChildren;
        proof {
            lemma_ops_view_push(out@, op);
        }
        out.push(op);
        proof {
            assert(ops_view(out@) =~= base + i_spawn(bytes@, fns_view(fns@), p@, cv, sv, fuel as nat)->0);
        }
        true
    }
}

/// Interpret the extra children of the templates of `chain` (see
/// [`i_trailing`]); `false` when `fuel` is not enough.
fn exec_trailing<'a>(
    out: &mut Vec<Op>,
    bytes: &[u8],
    fns: &'a Vec<Function>,
    table: &Templates,
    chain: &Vec<Frame<'a>>,
    fuel: u64,
) -> (done: bool)
    requires
        bytes@.len() <= u32::MAX,
        template_entries(*table) == fn_table(bytes@, fns_view(fns@), fns@.len() as int),
    ensures
        done == i_trailing(bytes@, fns_view(fns@), chain_view(chain@), chain@.len() - 1, fuel as nat) is Some,
        done ==> ops_view(final(out)@) == ops_view(old(out)@) + i_trailing(
            bytes@,
            fns_view(fns@),
            chain_view(chain@),
            chain@.len() - 1,
            fuel as nat,
        )->0,
    decreases fuel,
{
    let ghost cv = chain_view(chain@);
    let ghost fv = fns_view(fns@);
    let ghost base = ops_view(out@);
    let ghost top = chain@.len() - 1;
    if chain.len() == 0 {
        assert(ops_view(out@) =~= base + Seq::<SpecOp>::empty());
        return true;
    }
    if fuel == 0 {
        return false;
    }
    let empty = Parameters::empty();
    let mut i: usize = chain.len();
    while i > 0
        invariant
            i <= chain@.len(),
            fuel > 0,
            top == chain@.len() - 1,
            bytes@.len() <= u32::MAX,
            template_entries(*table) == fn_table(bytes@, fns_view(fns@), fns@.len() as int),
            cv == chain_view(chain@),
            fv == fns_view(fns@),
            empty@ == empty_params(),
            i_trailing(bytes@, fv, cv, top, fuel as nat) is Some ==> i_trailing(bytes@, fv, cv, i - 1, fuel as nat) is Some,
            i_trailing(bytes@, fv, cv, i - 1, fuel as nat) is Some ==> i_trailing(bytes@, fv, cv, top, fuel as nat) is Some
                && ops_view(out@) + i_trailing(bytes@, fv, cv, i - 1, fuel as nat)->0 == base + i_trailing(
                bytes@,
                fv,
                cv,
                top,
                fuel as nat,
            )->0,
        decreases i,
    {
        i = i - 1;
        let parent = if i > 0 {
            &chain[i - 1].params
        } else {
            &empty
        };
        proof {
            assert(parent@ == parent_params(cv, i as int));
        }
        let ghost before = ops_view(out@);
        if !exec_nodes(out, bytes, fns, table, parent, chain[i].children, fuel - 1) {
            return false;
        }
        proof {
            if i_trailing(bytes@, fv, cv, i - 1, fuel as nat) is Some {
                assert(before + i_trailing(bytes@, fv, cv, i as int, fuel as nat)->0 =~= ops_view(out@)
                    + i_trailing(bytes@, fv, cv, i - 1, fuel as nat)->0);
            }
        }
    }
    assert(ops_view(out@) + i_trailing(bytes@, fv, cv, -1, fuel as nat)->0 =~= ops_view(out@));
    true
}

/// The operations that interpret the chirp file `file`, parsed from
/// `bytes`, when their expansion ends within `fuel` nested steps (see
/// [`i_file`]); `None` when it does not.
pub fn interpret_within(bytes: &[u8], file: &ChirpFile, fuel: u64) -> (r: Option<Vec<Op>>)
    requires
        bytes@.len() <= u32::MAX,
    ensures
        r is Some <==> i_file(bytes@, chirp_file_view(*file), fuel as nat) is Some,
        r matches Some(ops) ==> terminates(bytes@, chirp_file_view(*file)) && ops_view(ops@)
            == interpretation(bytes@, chirp_file_view(*file)),
{
    let ghost f = chirp_file_view(*file);
    let mut out: Vec<Op> = Vec::new();
    let mut i: usize = 0;
    while i < file.imports.len()
        invariant
            i <= file.imports@.len(),
            bytes@.len() <= u32::MAX,
            f == chirp_file_view(*file),
            ops_view(out@) =~= header_ops(bytes@, f).take(i as int),
        decreases file.imports@.len() - i,
    {
        let import = &file.imports[i];
        let alias = if import.alias.start == u32::MAX {
            None
        } else {
            Some(read_span(bytes, import.alias.start))
        };
        let op = Op::Import { name: read_span(bytes, import.name.start), alias };
        proof {
            lemma_ops_view_push(out@, op);
        }
        out.push(op);
        i = i + 1;
    }
    let mut k: usize = 0;
    while k < file.functions.len()
        invariant
            k <= file.functions@.len(),
            bytes@.len() <= u32::MAX,
            f == chirp_file_view(*file),
            ops_view(out@) =~= header_ops(bytes@, f).take(file.imports@.len() + k as int),
        decreases file.functions@.len() - k,
    {
        let op = Op::RegisterFn { name: read_span(bytes, file.functions[k].name.start), index: k };
        proof {
            lemma_ops_view_push(out@, op);
        }
        out.push(op);
        k = k + 1;
    }
    proof {
        assert(header_ops(bytes@, f).take(file.imports@.len() + file.functions@.len() as int)
            =~= header_ops(bytes@, f));
        assert(f.functions =~= fns_view(file.functions@));
    }
    let table = build_templates(bytes, &file.functions);
    let empty = Parameters::empty();
    if exec_node(&mut out, bytes, &file.functions, &table, &empty, &file.root, fuel) {
        proof {
            lemma_interpretation_any_fuel(bytes@, f, fuel as nat);
        }
        Some(out)
    } else {
        None
    }
}

/// The operations that interpret the chirp file `file`, parsed from
/// `bytes` (see [`interpretation`]). `None` only when the expansion of its
/// templates takes more than `u64::MAX` nested steps: a template that calls
/// itself forever never ends.
pub fn interpret(bytes: &[u8], file: &ChirpFile) -> (r: Option<Vec<Op>>)
    requires
        bytes@.len() <= u32::MAX,
    ensures
        r is Some <==> i_file(bytes@, chirp_file_view(*file), u64::MAX as nat) is Some,
        r matches Some(ops) ==> terminates(bytes@, chirp_file_view(*file)) && ops_view(ops@)
            == interpretation(bytes@, chirp_file_view(*file)),
{
    interpret_within(bytes, file, u64::MAX)
}

// ---------------------------------------------------------------------------
// Laws: children are always completed
// ---------------------------------------------------------------------------

/// The nesting depth of children after `ops`, from depth `d`: each
/// [`SpecOp::StartChildren`] goes one deeper, each
/// [`SpecOp::CompleteChildren`] one shallower. `None` when some completion
/// has no matching start.
pub open spec fn nesting(ops: Seq<SpecOp>, d: int) -> Option<int>
    decreases ops.len(),
{
    if ops.len() == 0 {
        Some(d)
    } else {
        let d2 = match ops[0] {
            SpecOp::StartChildren => d + 1,
            SpecOp::CompleteChildren => d - 1,
            _ => d,
        };
        if d2 < 0 {
            None
        } else {
            nesting(ops.skip(1), d2)
        }
    }
}

/// Whether `ops` neither starts nor completes children.
pub open spec fn flat(ops: Seq<SpecOp>) -> bool {
    forall|i: int|
        0 <= i < ops.len() ==> !(#[trigger] ops[i] is StartChildren) && !(ops[i] is CompleteChildren)
}

pub proof fn lemma_nesting_cat(a: Seq<SpecOp>, b: Seq<SpecOp>, d: int)
    ensures
        nesting(a + b, d) == match nesting(a, d) {
            Some(d1) => nesting(b, d1),
            None => None,
        },
    decreases a.len(),
{
    if a.len() == 0 {
        assert(a + b =~= b);
    } else {
        let d2 = match a[0] {
            SpecOp::StartChildren => d + 1,
            SpecOp::CompleteChildren => d - 1,
            _ => d,
        };
        assert((a + b)[0] == a[0]);
        assert((a + b).skip(1) =~= a.skip(1) + b);
        if d2 >= 0 {
            lemma_nesting_cat(a.skip(1), b, d2);
        }
    }
}

pub proof fn lemma_nesting_flat(ops: Seq<SpecOp>, d: int)
    requires
        flat(ops),
        d >= 0,
    ensures
        nesting(ops, d) == Some(d),
    decreases ops.len(),
{
    if ops.len() > 0 {
        assert(!(ops[0] is StartChildren) && !(ops[0] is CompleteChildren));
        assert forall|i: int| 0 <= i < ops.skip(1).len() implies !(#[trigger] ops.skip(
            1,
        )[i] is StartChildren) && !(ops.skip(1)[i] is CompleteChildren) by {
            assert(ops.skip(1)[i] == ops[i + 1]);
        }
        lemma_nesting_flat(ops.skip(1), d);
    }
}

proof fn lemma_trailing_methods_flat(s: Seq<u8>, chain: Seq<SpecFrame>, i: int)
    ensures
        flat(trailing_methods(s, chain, i)),
    decreases i + 1,
{
    if i >= 0 {
        lemma_trailing_methods_flat(s, chain, i - 1);
        let m = methods_ops(s, chain[i].methods, parent_params(chain, i));
        let t = trailing_methods(s, chain, i - 1);
        assert forall|k: int| 0 <= k < (m + t).len() implies !(#[trigger] (m + t)[k] is StartChildren)
            && !((m + t)[k] is CompleteChildren) by {
            if k < m.len() {
                assert((m + t)[k] == m[k]);
            } else {
                assert((m + t)[k] == t[k - m.len()]);
            }
        }
    }
}

proof fn lemma_head_flat(s: Seq<u8>, p: SpecParams, chain: Seq<SpecFrame>, st: SpecStatement)
    ensures
        flat(
            name_ops(s, st.name) + methods_ops(s, st.methods, p) + trailing_methods(
                s,
                chain,
                chain.len() - 1,
            ),
        ),
{
    lemma_trailing_methods_flat(s, chain, chain.len() - 1);
    let a = name_ops(s, st.name);
    let b = methods_ops(s, st.methods, p);
    let c = trailing_methods(s, chain, chain.len() - 1);
    assert forall|k: int| 0 <= k < (a + b + c).len() implies !(#[trigger] (a + b + c)[k] is StartChildren)
        && !((a + b + c)[k] is CompleteChildren) by {
        if k < a.len() {
            assert((a + b + c)[k] == a[k]);
        } else if k < a.len() + b.len() {
            assert((a + b + c)[k] == b[k - a.len()]);
        } else {
            assert((a + b + c)[k] == c[k - a.len() - b.len()]);
        }
    }
}

/// Interpreting a statement completes every children list it starts.
pub proof fn lemma_node_balanced(
    s: Seq<u8>,
    fns: Seq<SpecFunction>,
    p: SpecParams,
    n: SpecNode,
    fuel: nat,
    d: int,
)
    requires
        i_node(s, fns, p, n, fuel) is Some,
        d >= 0,
    ensures
        nesting(i_node(s, fns, p, n, fuel)->0, d) == Some(d),
    decreases fuel, 0int,
{
    match n {
        SpecNode::Code(c) => {
            lemma_nesting_flat(seq![SpecOp::Code(span_at(s, c.start as int))], d);
        },
        SpecNode::Statement(st) => lemma_spawn_balanced(
            s,
            fns,
            p,
            Seq::empty(),
            st,
            (fuel - 1) as nat,
            d,
        ),
        SpecNode::Template(t) => lemma_template_balanced(
            s,
            fns,
            p,
            Seq::empty(),
            t,
            (fuel - 1) as nat,
            d,
        ),
    }
}

proof fn lemma_nodes_balanced(
    s: Seq<u8>,
    fns: Seq<SpecFunction>,
    p: SpecParams,
    ns: Seq<SpecNode>,
    fuel: nat,
    d: int,
)
    requires
        i_nodes(s, fns, p, ns, fuel) is Some,
        d >= 0,
    ensures
        nesting(i_nodes(s, fns, p, ns, fuel)->0, d) == Some(d),
    decreases fuel, ns.len(),
{
    if ns.len() > 0 {
        lemma_nodes_balanced(s, fns, p, ns.drop_last(), fuel, d);
        lemma_node_balanced(s, fns, p, ns.last(), (fuel - 1) as nat, d);
        lemma_nesting_cat(
            i_nodes(s, fns, p, ns.drop_last(), fuel)->0,
            i_node(s, fns, p, ns.last(), (fuel - 1) as nat)->0,
            d,
        );
    }
}

proof fn lemma_root_balanced(
    s: Seq<u8>,
    fns: Seq<SpecFunction>,
    chain: Seq<SpecFrame>,
    n: SpecNode,
    fuel: nat,
    d: int,
)
    requires
        i_root(s, fns, chain, n, fuel) is Some,
        d >= 0,
    ensures
        nesting(i_root(s, fns, chain, n, fuel)->0, d) == Some(d),
    decreases fuel, 0int,
{
    let p = chain.last().params;
    match n {
        SpecNode::Code(c) => {
            lemma_nesting_flat(seq![SpecOp::Code(span_at(s, c.start as int))], d);
        },
        SpecNode::Statement(st) => lemma_spawn_balanced(s, fns, p, chain, st, (fuel - 1) as nat, d),
        SpecNode::Template(t) => lemma_template_balanced(
            s,
            fns,
            p,
            chain,
            t,
            (fuel - 1) as nat,
            d,
        ),
    }
}

proof fn lemma_template_balanced(
    s: Seq<u8>,
    fns: Seq<SpecFunction>,
    p: SpecParams,
    chain: Seq<SpecFrame>,
    t: SpecTemplate,
    fuel: nat,
    d: int,
)
    requires
        i_template(s, fns, p, chain, t, fuel) is Some,
        d >= 0,
    ensures
        nesting(i_template(s, fns, p, chain, t, fuel)->0, d) == Some(d),
    decreases fuel, 0int,
{
    let name = template_name(word_at(s, t.name.start as int));
    match lookup(s, fns, name, fns.len() as int) {
        None => {
            lemma_nesting_flat(seq![SpecOp::MissingTemplate(span_at(s, t.name.start as int))], d);
        },
        Some(k) => {
            let frame = SpecFrame {
                params: scope(s, p, fns[k].arguments, t.arguments),
                methods: t.methods,
                children: t.children,
            };
            lemma_root_balanced(s, fns, chain.push(frame), fns[k].body, (fuel - 1) as nat, d);
        },
    }
}

proof fn lemma_spawn_balanced(
    s: Seq<u8>,
    fns: Seq<SpecFunction>,
    p: SpecParams,
    chain: Seq<SpecFrame>,
    st: SpecStatement,
    fuel: nat,
    d: int,
)
    requires
        i_spawn(s, fns, p, chain, st, fuel) is Some,
        d >= 0,
    ensures
        nesting(i_spawn(s, fns, p, chain, st, fuel)->0, d) == Some(d),
    decreases fuel, 0int,
{
    let head = name_ops(s, st.name) + methods_ops(s, st.methods, p) + trailing_methods(
        s,
        chain,
        chain.len() - 1,
    );
    lemma_head_flat(s, p, chain, st);
    lemma_nesting_flat(head, d);
    if st.children.len() == 0 && no_trailing_children(chain) {
        lemma_nesting_flat(seq![SpecOp::SpawnLeaf], d);
        assert(head.push(SpecOp::SpawnLeaf) =~= head + seq![SpecOp::SpawnLeaf]);
        lemma_nesting_cat(head, seq![SpecOp::SpawnLeaf], d);
    } else {
        let kids = i_nodes(s, fns, p, st.children, (fuel - 1) as nat)->0;
        let extra = i_trailing(s, fns, chain, chain.len() - 1, (fuel - 1) as nat)->0;
        lemma_nodes_balanced(s, fns, p, st.children, (fuel - 1) as nat, d + 1);
        lemma_trailing_balanced(s, fns, chain, chain.len() - 1, (fuel - 1) as nat, d + 1);
        let opening = head.push(SpecOp::StartChildren);
        assert(opening =~= head + seq![SpecOp::StartChildren]);
        lemma_nesting_cat(head, seq![SpecOp::StartChildren], d);
        assert(nesting(seq![SpecOp::StartChildren].skip(1), d + 1) == Some(d + 1));
        lemma_nesting_cat(kids, extra, d + 1);
        lemma_nesting_cat(opening, kids + extra, d);
        assert(nesting(seq![SpecOp::CompleteChildren].skip(1), d) == Some(d));
        lemma_nesting_cat(opening + (kids + extra), seq![SpecOp::CompleteChildren], d);
    }
}

proof fn lemma_trailing_balanced(
    s: Seq<u8>,
    fns: Seq<SpecFunction>,
    chain: Seq<SpecFrame>,
    i: int,
    fuel: nat,
    d: int,
)
    requires
        i_trailing(s, fns, chain, i, fuel) is Some,
        d >= 0,
    ensures
        nesting(i_trailing(s, fns, chain, i, fuel)->0, d) == Some(d),
    decreases fuel, i + 1,
{
    if i >= 0 {
        lemma_nodes_balanced(
            s,
            fns,
            parent_params(chain, i),
            chain[i].children,
            (fuel - 1) as nat,
            d,
        );
        lemma_trailing_balanced(s, fns, chain, i - 1, fuel, d);
        lemma_nesting_cat(
            i_nodes(s, fns, parent_params(chain, i), chain[i].children, (fuel - 1) as nat)->0,
            i_trailing(s, fns, chain, i - 1, fuel)->0,
            d,
        );
    }
}

/// Every children list started while interpreting a file is completed, and
/// none is completed without being started: the interpretation is balanced.
pub proof fn lemma_interpretation_balanced(s: Seq<u8>, f: SpecChirpFile)
    requires
        terminates(s, f),
    ensures
        nesting(interpretation(s, f), 0) == Some(0int),
{
    let fuel = choose|fuel: nat| #[trigger] i_file(s, f, fuel) is Some;
    let header = header_ops(s, f);
    assert forall|k: int| 0 <= k < header.len() implies !(#[trigger] header[k] is StartChildren)
        && !(header[k] is CompleteChildren) by {
        if k < f.imports.len() {
        } else {
        }
    }
    lemma_nesting_flat(header, 0);
    lemma_node_balanced(s, f.functions, empty_params(), f.root, fuel, 0);
    lemma_nesting_cat(header, i_node(s, f.functions, empty_params(), f.root, fuel)->0, 0);
}

// ---------------------------------------------------------------------------
// Laws: fuel
// ---------------------------------------------------------------------------

proof fn lemma_node_fuel(
    s: Seq<u8>,
    fns: Seq<SpecFunction>,
    p: SpecParams,
    n: SpecNode,
    f1: nat,
    f2: nat,
)
    requires
        i_node(s, fns, p, n, f1) is Some,
        f1 <= f2,
    ensures
        i_node(s, fns, p, n, f2) == i_node(s, fns, p, n, f1),
    decreases f1, 0int,
{
    match n {
        SpecNode::Code(_) => {},
        SpecNode::Statement(st) => lemma_spawn_fuel(
            s,
            fns,
            p,
            Seq::empty(),
            st,
            (f1 - 1) as nat,
            (f2 - 1) as nat,
        ),
        SpecNode::Template(t) => lemma_template_fuel(
            s,
            fns,
            p,
            Seq::empty(),
            t,
            (f1 - 1) as nat,
            (f2 - 1) as nat,
        ),
    }
}

proof fn lemma_nodes_fuel(
    s: Seq<u8>,
    fns: Seq<SpecFunction>,
    p: SpecParams,
    ns: Seq<SpecNode>,
    f1: nat,
    f2: nat,
)
    requires
        i_nodes(s, fns, p, ns, f1) is Some,
        f1 <= f2,
    ensures
        i_nodes(s, fns, p, ns, f2) == i_nodes(s, fns, p, ns, f1),
    decreases f1, ns.len(),
{
    if ns.len() > 0 {
        lemma_nodes_fuel(s, fns, p, ns.drop_last(), f1, f2);
        lemma_node_fuel(s, fns, p, ns.last(), (f1 - 1) as nat, (f2 - 1) as nat);
    }
}

proof fn lemma_root_fuel(
    s: Seq<u8>,
    fns: Seq<SpecFunction>,
    chain: Seq<SpecFrame>,
    n: SpecNode,
    f1: nat,
    f2: nat,
)
    requires
        i_root(s, fns, chain, n, f1) is Some,
        f1 <= f2,
    ensures
        i_root(s, fns, chain, n, f2) == i_root(s, fns, chain, n, f1),
    decreases f1, 0int,
{
    let p = chain.last().params;
    match n {
        SpecNode::Code(_) => {},
        SpecNode::Statement(st) => lemma_spawn_fuel(
            s,
            fns,
            p,
            chain,
            st,
            (f1 - 1) as nat,
            (f2 - 1) as nat,
        ),
        SpecNode::Template(t) => lemma_template_fuel(
            s,
            fns,
            p,
            chain,
            t,
            (f1 - 1) as nat,
            (f2 - 1) as nat,
        ),
    }
}

proof fn lemma_template_fuel(
    s: Seq<u8>,
    fns: Seq<SpecFunction>,
    p: SpecParams,
    chain: Seq<SpecFrame>,
    t: SpecTemplate,
    f1: nat,
    f2: nat,
)
    requires
        i_template(s, fns, p, chain, t, f1) is Some,
        f1 <= f2,
    ensures
        i_template(s, fns, p, chain, t, f2) == i_template(s, fns, p, chain, t, f1),
    decreases f1, 0int,
{
    let name = template_name(word_at(s, t.name.start as int));
    match lookup(s, fns, name, fns.len() as int) {
        None => {},
        Some(k) => {
            let frame = SpecFrame {
                params: scope(s, p, fns[k].arguments, t.arguments),
                methods: t.methods,
                children: t.children,
            };
            lemma_root_fuel(s, fns, chain.push(frame), fns[k].body, (f1 - 1) as nat, (f2 - 1) as nat);
        },
    }
}

proof fn lemma_spawn_fuel(
    s: Seq<u8>,
    fns: Seq<SpecFunction>,
    p: SpecParams,
    chain: Seq<SpecFrame>,
    st: SpecStatement,
    f1: nat,
    f2: nat,
)
    requires
        i_spawn(s, fns, p, chain, st, f1) is Some,
        f1 <= f2,
    ensures
        i_spawn(s, fns, p, chain, st, f2) == i_spawn(s, fns, p, chain, st, f1),
    decreases f1, 0int,
{
    if !(st.children.len() == 0 && no_trailing_children(chain)) {
        lemma_nodes_fuel(s, fns, p, st.children, (f1 - 1) as nat, (f2 - 1) as nat);
        lemma_trailing_fuel(s, fns, chain, chain.len() - 1, (f1 - 1) as nat, (f2 - 1) as nat);
    }
}

proof fn lemma_trailing_fuel(
    s: Seq<u8>,
    fns: Seq<SpecFunction>,
    chain: Seq<SpecFrame>,
    i: int,
    f1: nat,
    f2: nat,
)
    requires
        i_trailing(s, fns, chain, i, f1) is Some,
        f1 <= f2,
    ensures
        i_trailing(s, fns, chain, i, f2) == i_trailing(s, fns, chain, i, f1),
    decreases f1, i + 1,
{
    if i >= 0 {
        lemma_nodes_fuel(
            s,
            fns,
            parent_params(chain, i),
            chain[i].children,
            (f1 - 1) as nat,
            (f2 - 1) as nat,
        );
        lemma_trailing_fuel(s, fns, chain, i - 1, f1, f2);
    }
}

/// More fuel changes nothing: once a file's interpretation ends with some
/// fuel, it ends with the same operations with any larger fuel.
pub proof fn lemma_file_fuel(s: Seq<u8>, f: SpecChirpFile, f1: nat, f2: nat)
    requires
        i_file(s, f, f1) is Some,
        f1 <= f2,
    ensures
        i_file(s, f, f2) == i_file(s, f, f1),
{
    lemma_node_fuel(s, f.functions, empty_params(), f.root, f1, f2);
}

/// The interpretation is the result of any fuel that is enough.
pub proof fn lemma_interpretation_any_fuel(s: Seq<u8>, f: SpecChirpFile, fuel: nat)
    requires
        i_file(s, f, fuel) is Some,
    ensures
        terminates(s, f),
        interpretation(s, f) == i_file(s, f, fuel)->0,
{
    let chosen = choose|fuel: nat| #[trigger] i_file(s, f, fuel) is Some;
    assert(i_file(s, f, chosen) is Some);
    if chosen <= fuel {
        lemma_file_fuel(s, f, chosen, fuel);
    } else {
        lemma_file_fuel(s, f, fuel, chosen);
    }
}

// ---------------------------------------------------------------------------
// Laws: parameter substitution
// ---------------------------------------------------------------------------

/// Outside of templates (no parameters), arguments are passed as written.
pub proof fn lemma_substitute_no_params(s: Seq<u8>, a: Argument)
    ensures
        substitute(s, empty_params(), a) == a,
{
    assert(pairs_len(empty_params()) == 0);
}

proof fn lemma_find_param_found(s: Seq<u8>, p: SpecParams, t: Seq<u8>, i: int, n: int)
    ensures
        find_param(s, p, t, i, n) matches Some(k) ==> i <= k < n && ident_text(s, p.idents[k]) == t,
        find_param(s, p, t, i, n) is None ==> forall|k: int|
            i <= k < n ==> ident_text(s, #[trigger] p.idents[k]) != t,
    decreases n - i,
{
    if i < n {
        lemma_find_param_found(s, p, t, i + 1, n);
    }
}

/// Within a template, an argument is replaced by the value of the first
/// parameter its text names, and kept as it is when it names none.
pub proof fn lemma_substitute(s: Seq<u8>, p: SpecParams, a: Argument)
    ensures
        (exists|k: int|
            0 <= k < pairs_len(p) && ident_text(s, #[trigger] p.idents[k]) == arg_text(s, a))
            ==> (exists|k: int|
            0 <= k < pairs_len(p) && ident_text(s, #[trigger] p.idents[k]) == arg_text(s, a)
                && substitute(s, p, a) == value_at(p, k) && forall|j: int|
                0 <= j < k ==> ident_text(s, #[trigger] p.idents[j]) != arg_text(s, a)),
        (forall|k: int|
            0 <= k < pairs_len(p) ==> ident_text(s, #[trigger] p.idents[k]) != arg_text(s, a))
            ==> substitute(s, p, a) == a,
{
    let t = arg_text(s, a);
    let n = pairs_len(p);
    lemma_find_param_found(s, p, t, 0, n);
    match find_param(s, p, t, 0, n) {
        Some(k) => {
            lemma_first_found(s, p, t, 0, n);
        },
        None => {},
    }
}

proof fn lemma_first_found(s: Seq<u8>, p: SpecParams, t: Seq<u8>, i: int, n: int)
    ensures
        find_param(s, p, t, i, n) matches Some(k) ==> forall|j: int|
            i <= j < k ==> ident_text(s, #[trigger] p.idents[j]) != t,
    decreases n - i,
{
    if i < n && ident_text(s, p.idents[i]) != t {
        lemma_first_found(s, p, t, i + 1, n);
    }
}

// ---------------------------------------------------------------------------
// Laws: template extras are read in the scope of the call site
// ---------------------------------------------------------------------------

/// The methods given at template calls never depend on the parameters that
/// the innermost expanded template binds: two chains of calls that differ
/// only in those bindings add the same extra methods. (A template's
/// parameters are for its own body, not for what its caller wrote.)
pub proof fn lemma_extras_ignore_callee_params(s: Seq<u8>, c1: Seq<SpecFrame>, c2: Seq<SpecFrame>, i: int)
    requires
        c1.len() == c2.len(),
        -1 <= i < c1.len(),
        forall|j: int| 0 <= j < c1.len() ==> (#[trigger] c1[j]).methods == c2[j].methods,
        forall|j: int| 0 <= j < c1.len() - 1 ==> (#[trigger] c1[j]).params == c2[j].params,
    ensures
        trailing_methods(s, c1, i) == trailing_methods(s, c2, i),
    decreases i + 1,
{
    if i >= 0 {
        lemma_extras_ignore_callee_params(s, c1, c2, i - 1);
        if i > 0 {
            assert(c1[i - 1].params == c2[i - 1].params);
        }
        assert(c1[i].methods == c2[i].methods);
    }
}

/// A template called outside of any template body, whose body is a single
/// entity: the methods written at the call site appear among the
/// operations of the call, in order, with their arguments exactly as
/// written (no parameter, of the called template or any other, is
/// substituted into them). The result is where they start.
pub proof fn lemma_call_extras_as_written(
    s: Seq<u8>,
    fns: Seq<SpecFunction>,
    p: SpecParams,
    t: SpecTemplate,
    fuel: nat,
) -> (j: int)
    requires
        i_template(s, fns, p, Seq::empty(), t, fuel) is Some,
        lookup(s, fns, template_name(word_at(s, t.name.start as int)), fns.len() as int) matches Some(
            k,
        ) && fns[k].body is Statement,
    ensures
        ({
            let ops = i_template(s, fns, p, Seq::empty(), t, fuel)->0;
            &&& 0 <= j
            &&& j + t.methods.len() <= ops.len()
            &&& forall|i: int|
                0 <= i < t.methods.len() ==> #[trigger] ops[j + i] == SpecOp::Method {
                    name: span_at(s, t.methods[i].name.start as int),
                    arguments: t.methods[i].arguments,
                }
        }),
{
    let k = lookup(s, fns, template_name(word_at(s, t.name.start as int)), fns.len() as int)->0;
    let frame = SpecFrame {
        params: scope(s, p, fns[k].arguments, t.arguments),
        methods: t.methods,
        children: t.children,
    };
    let chain = Seq::<SpecFrame>::empty().push(frame);
    let st = fns[k].body->Statement_0;
    let fp = frame.params;
    let f2 = (fuel - 2) as nat;
    assert(i_template(s, fns, p, Seq::empty(), t, fuel) == i_root(s, fns, chain, fns[k].body, (fuel - 1) as nat));
    assert(chain.last() == frame);
    assert(i_root(s, fns, chain, fns[k].body, (fuel - 1) as nat) == i_spawn(s, fns, fp, chain, st, f2));
    let extras = methods_ops(s, t.methods, empty_params());
    assert(parent_params(chain, 0) == empty_params());
    assert(trailing_methods(s, chain, -1) == Seq::<SpecOp>::empty());
    assert(trailing_methods(s, chain, 0) =~= extras);
    let head = name_ops(s, st.name) + methods_ops(s, st.methods, fp) + extras;
    let ops = i_spawn(s, fns, fp, chain, st, f2)->0;
    let j: int = (name_ops(s, st.name).len() + st.methods.len()) as int;
    assert forall|x: int| 0 <= x < head.len() implies ops[x] == head[x] by {
        if st.children.len() == 0 && no_trailing_children(chain) {
            assert(ops == head.push(SpecOp::SpawnLeaf));
        } else {
            let kids = i_nodes(s, fns, fp, st.children, (f2 - 1) as nat)->0;
            let extra = i_trailing(s, fns, chain, chain.len() - 1, (f2 - 1) as nat)->0;
            assert(ops == head.push(SpecOp::StartChildren) + (kids + extra) + seq![
                SpecOp::CompleteChildren,
            ]);
        }
    }
    assert forall|i: int| 0 <= i < t.methods.len() implies #[trigger] ops[j + i] == SpecOp::Method {
        name: span_at(s, t.methods[i].name.start as int),
        arguments: t.methods[i].arguments,
    } by {
        assert(ops[j + i] == head[j + i]);
        assert(head[j + i] == extras[i]);
        let m = t.methods[i];
        let subst = m.arguments.map_values(|arg: Argument| substitute(s, empty_params(), arg));
        assert forall|a: int| 0 <= a < m.arguments.len() implies subst[a] == #[trigger] m.arguments[a] by {
            lemma_substitute_no_params(s, m.arguments[a]);
        }
        assert(subst =~= m.arguments);
    }
    j
}

/// The extra methods given at the call of frame `i` come first among the
/// trailing methods of frame `i`, in order, and each of their arguments is
/// read in the scope of the call site: at the outermost call (`i == 0`) it
/// is kept as written; within the template of frame `i - 1` (the caller), an
/// argument that names a parameter of the caller becomes the value of the
/// first such parameter, and one that names none is kept as written.
pub proof fn lemma_extras_read_in_caller_scope(
    s: Seq<u8>,
    chain: Seq<SpecFrame>,
    i: int,
    m: int,
    a: int,
)
    requires
        0 <= i < chain.len(),
        0 <= m < chain[i].methods.len(),
        0 <= a < chain[i].methods[m].arguments.len(),
    ensures
        chain[i].methods.len() <= trailing_methods(s, chain, i).len(),
        ({
            let written = chain[i].methods[m];
            let arg = written.arguments[a];
            let caller = chain[i - 1].params;
            trailing_methods(s, chain, i)[m] matches SpecOp::Method { name, arguments } && name
                == span_at(s, written.name.start as int) && arguments.len() == written.arguments.len()
                && (i == 0 ==> arguments[a] == arg) && (i > 0 && (forall|k: int|
                0 <= k < pairs_len(caller) ==> ident_text(s, #[trigger] caller.idents[k]) != arg_text(
                    s,
                    arg,
                )) ==> arguments[a] == arg) && (i > 0 ==> forall|k: int|
                0 <= k < pairs_len(caller) && ident_text(s, #[trigger] caller.idents[k]) == arg_text(
                    s,
                    arg,
                ) && (forall|j: int|
                    0 <= j < k ==> ident_text(s, #[trigger] caller.idents[j]) != arg_text(s, arg))
                    ==> arguments[a] == value_at(caller, k))
        }),
{
    let written = chain[i].methods[m];
    let arg = written.arguments[a];
    let head = methods_ops(s, chain[i].methods, parent_params(chain, i));
    assert(trailing_methods(s, chain, i) == head + trailing_methods(s, chain, i - 1));
    assert(trailing_methods(s, chain, i)[m] == head[m]);
    assert(head[m] == method_op(s, written, parent_params(chain, i)));
    if i == 0 {
        lemma_substitute_no_params(s, arg);
    } else {
        let caller = chain[i - 1].params;
        lemma_substitute(s, caller, arg);
        assert forall|k: int|
            0 <= k < pairs_len(caller) && ident_text(s, #[trigger] caller.idents[k]) == arg_text(s, arg)
                && (forall|j: int| 0 <= j < k ==> ident_text(s, #[trigger] caller.idents[j]) != arg_text(s, arg))
            implies substitute(s, caller, arg) == value_at(caller, k) by {
            let k2 = choose|k2: int|
                0 <= k2 < pairs_len(caller) && ident_text(s, #[trigger] caller.idents[k2]) == arg_text(s, arg)
                    && substitute(s, caller, arg) == value_at(caller, k2) && forall|j: int|
                    0 <= j < k2 ==> ident_text(s, #[trigger] caller.idents[j]) != arg_text(s, arg);
            if k2 < k {
                assert(ident_text(s, caller.idents[k2]) != arg_text(s, arg));
            } else if k < k2 {
                assert(ident_text(s, caller.idents[k]) != arg_text(s, arg));
            }
        }
    }
}

} // verus!

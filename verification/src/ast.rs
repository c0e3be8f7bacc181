//! The AST parsed by the chirp grammar.
//!
//! Nodes do not hold text: they hold offsets into the parsed input, the text
//! is read back from the input when needed.
use vstd::prelude::*;

use crate::lex::{self, lex, Token, TokenType};
use crate::stream::Input;

verus! {

/// An argument to a method or template: the text between `start` and `end`.
#[derive(Clone, Copy, Debug, PartialEq, Eq, Structural)]
pub struct Argument {
    pub start: u32,
    pub end: u32,
}

/// Offset of an identifier in the input.
#[derive(Clone, Copy, Debug, PartialEq, Eq, Structural)]
pub struct IdentOffset {
    pub start: u32,
}

/// Offset in the input of an entity name, may be an identifier or string
/// literal, and is optional: `u32::MAX` stands for no name.
#[derive(Clone, Copy, Debug, PartialEq, Eq, Structural)]
pub struct OptNameOffset {
    pub start: u32,
}

/// Offset of an optional identifier, `u32::MAX` stands for none.
#[derive(Clone, Copy, Debug, PartialEq, Eq, Structural)]
pub struct OptIdentOffset {
    pub start: u32,
}

/// A method: `name(arguments)`.
pub struct Method {
    pub name: IdentOffset,
    pub arguments: Vec<Argument>,
}

/// A template call: `name!(arguments)(methods){children}`.
pub struct Template {
    pub name: IdentOffset,
    pub arguments: Vec<Argument>,
    pub methods: Vec<Method>,
    pub children: Vec<Node>,
}

/// An entity: `Name(methods){children}`.
pub struct Statement {
    pub name: OptNameOffset,
    pub methods: Vec<Method>,
    pub children: Vec<Node>,
}

/// `use name as alias`.
pub struct Import {
    pub name: IdentOffset,
    pub alias: OptIdentOffset,
}

/// `fn name(arguments) { body }`.
pub struct Function {
    pub name: IdentOffset,
    pub arguments: Vec<IdentOffset>,
    pub body: Node,
}

/// A statement of a chirp file.
pub enum Node {
    Template(Template),
    Statement(Statement),
    Code(IdentOffset),
}

/// A whole chirp file.
pub struct ChirpFile {
    pub imports: Vec<Import>,
    pub functions: Vec<Function>,
    pub root: Node,
}

// ---------------------------------------------------------------------------
// Mathematical model of the AST
// ---------------------------------------------------------------------------

pub struct SpecMethod {
    pub name: IdentOffset,
    pub arguments: Seq<Argument>,
}

pub struct SpecTemplate {
    pub name: IdentOffset,
    pub arguments: Seq<Argument>,
    pub methods: Seq<SpecMethod>,
    pub children: Seq<SpecNode>,
}

pub struct SpecStatement {
    pub name: OptNameOffset,
    pub methods: Seq<SpecMethod>,
    pub children: Seq<SpecNode>,
}

pub struct SpecImport {
    pub name: IdentOffset,
    pub alias: OptIdentOffset,
}

pub struct SpecFunction {
    pub name: IdentOffset,
    pub arguments: Seq<IdentOffset>,
    pub body: SpecNode,
}

pub enum SpecNode {
    Template(SpecTemplate),
    Statement(SpecStatement),
    Code(IdentOffset),
}

pub struct SpecChirpFile {
    pub imports: Seq<SpecImport>,
    pub functions: Seq<SpecFunction>,
    pub root: SpecNode,
}

pub open spec fn method_view(m: Method) -> SpecMethod {
    SpecMethod { name: m.name, arguments: m.arguments@ }
}

pub open spec fn methods_view(ms: Seq<Method>) -> Seq<SpecMethod> {
    ms.map_values(|m: Method| method_view(m))
}

pub open spec fn node_view(n: Node) -> SpecNode
    decreases n, 2int,
{
    match n {
        Node::Template(t) => SpecNode::Template(template_view(t)),
        Node::Statement(st) => SpecNode::Statement(statement_view(st)),
        Node::Code(c) => SpecNode::Code(c),
    }
}

pub open spec fn template_view(t: Template) -> SpecTemplate
    decreases t, 1int,
{
    SpecTemplate {
        name: t.name,
        arguments: t.arguments@,
        methods: methods_view(t.methods@),
        children: nodes_view(t.children@),
    }
}

pub open spec fn statement_view(st: Statement) -> SpecStatement
    decreases st, 1int,
{
    SpecStatement {
        name: st.name,
        methods: methods_view(st.methods@),
        children: nodes_view(st.children@),
    }
}

pub open spec fn nodes_view(ns: Seq<Node>) -> Seq<SpecNode>
    decreases ns, 0int,
{
    if ns.len() == 0 {
        Seq::empty()
    } else {
        nodes_view(ns.drop_last()).push(node_view(ns.last()))
    }
}

pub open spec fn import_view(i: Import) -> SpecImport {
    SpecImport { name: i.name, alias: i.alias }
}

pub open spec fn function_view(f: Function) -> SpecFunction {
    SpecFunction { name: f.name, arguments: f.arguments@, body: node_view(f.body) }
}

pub open spec fn chirp_file_view(f: ChirpFile) -> SpecChirpFile {
    SpecChirpFile {
        imports: f.imports@.map_values(|i: Import| import_view(i)),
        functions: f.functions@.map_values(|f: Function| function_view(f)),
        root: node_view(f.root),
    }
}

pub proof fn lemma_nodes_view_push(ns: Seq<Node>, n: Node)
    ensures
        nodes_view(ns.push(n)) == nodes_view(ns).push(node_view(n)),
{
    assert(ns.push(n).drop_last() =~= ns);
}

/// The view of a list of nodes is the list of their views.
pub proof fn lemma_nodes_view_index(ns: Seq<Node>)
    ensures
        nodes_view(ns).len() == ns.len(),
        forall|i: int| 0 <= i < ns.len() ==> #[trigger] nodes_view(ns)[i] == node_view(ns[i]),
    decreases ns.len(),
{
    if ns.len() > 0 {
        lemma_nodes_view_index(ns.drop_last());
    }
}

pub proof fn lemma_nodes_view_len(ns: Seq<Node>)
    ensures
        nodes_view(ns).len() == ns.len(),
    decreases ns.len(),
{
    if ns.len() > 0 {
        lemma_nodes_view_len(ns.drop_last());
    }
}

// ---------------------------------------------------------------------------
// Constructors and readers
// ---------------------------------------------------------------------------

impl Argument {
    /// The argument starting at `start`, `len` bytes long.
    pub fn new(start: u32, len: usize) -> (r: Self)
        requires
            start + len <= u32::MAX,
        ensures
            r.start == start,
            r.end == start + len,
    {
        Argument { start, end: start + len as u32 }
    }

    /// The text of the argument, offsets taken from the position of `input`.
    pub fn read<'i>(self, input: &Input<'i>) -> (r: &'i [u8])
        requires
            input.wf(),
            self.start <= self.end,
            input.offset() + self.end <= input.src().len(),
        ensures
            r@ == input.src().subrange(
                input.offset() + self.start,
                input.offset() + self.end,
            ),
    {
        proof {
            input.lemma_wf();
        }
        let (start, end) = (self.start as usize, self.end as usize);
        let rest = input.input_u8();
        &rest[start..end]
    }
}

impl Method {
    pub fn new(parts: (IdentOffset, Vec<Argument>)) -> (r: Self)
        ensures
            r.name == parts.0,
            r.arguments@ == parts.1@,
    {
        let (name, arguments) = parts;
        Method { name, arguments }
    }
}

impl Template {
    pub fn new(parts: (IdentOffset, Vec<Argument>, Vec<Method>, Vec<Node>)) -> (r: Self)
        ensures
            r.name == parts.0,
            r.arguments@ == parts.1@,
            r.methods@ == parts.2@,
            r.children@ == parts.3@,
    {
        let (name, arguments, methods, children) = parts;
        Template { name, arguments, methods, children }
    }
}

impl Statement {
    /// A statement with methods and children.
    pub fn both(parts: (OptNameOffset, Vec<Method>, Vec<Node>)) -> (r: Self)
        ensures
            r.name == parts.0,
            r.methods@ == parts.1@,
            r.children@ == parts.2@,
    {
        let (name, methods, children) = parts;
        Statement { name, methods, children }
    }

    /// A statement with children only.
    pub fn children(parts: (OptNameOffset, Vec<Node>)) -> (r: Self)
        ensures
            r.name == parts.0,
            r.methods@.len() == 0,
            r.children@ == parts.1@,
    {
        let (name, children) = parts;
        Statement { name, methods: Vec::new(), children }
    }
}

impl Import {
    pub fn new(parts: (IdentOffset, Option<IdentOffset>)) -> (r: Self)
        ensures
            r.name == parts.0,
            r.alias == OptIdentOffset::spec_from(parts.1),
    {
        let (name, alias) = parts;
        Import { name, alias: OptIdentOffset::from_ident(alias) }
    }
}

impl Function {
    pub fn new(parts: (IdentOffset, Vec<IdentOffset>, Node)) -> (r: Self)
        ensures
            r.name == parts.0,
            r.arguments@ == parts.1@,
            r.body == parts.2,
    {
        let (name, arguments, body) = parts;
        Function { name, arguments, body }
    }
}

impl ChirpFile {
    pub fn new(parts: (Vec<Import>, Vec<Function>, Node)) -> (r: Self)
        ensures
            r.imports@ == parts.0@,
            r.functions@ == parts.1@,
            r.root == parts.2,
    {
        let (imports, functions, root) = parts;
        ChirpFile { imports, functions, root }
    }
}

/// Whether an identifier token starts at `start`.
pub open spec fn ident_at(s: Seq<u8>, start: int) -> bool {
    lex(s, start).0 matches Some((ty, st)) && ty == TokenType::Ident
}

/// Whether an identifier or string literal token starts at `start`.
pub open spec fn name_at(s: Seq<u8>, start: int) -> bool {
    lex(s, start).0 matches Some((ty, st)) && (ty == TokenType::Ident || ty == TokenType::String)
}

impl OptNameOffset {
    /// The name at `offset`.
    pub fn new(offset: u32) -> (r: Self)
        ensures
            r.start == offset,
    {
        OptNameOffset { start: offset }
    }

    /// No name.
    pub fn empty() -> (r: Self)
        ensures
            r.start == u32::MAX,
    {
        OptNameOffset { start: u32::MAX }
    }

    pub open spec fn spec_from(value: Option<u32>) -> Self {
        OptNameOffset {
            start: match value {
                Some(v) => v,
                None => u32::MAX,
            },
        }
    }

    /// The name at the offset, if any.
    pub fn from_offset(value: Option<u32>) -> (r: Self)
        ensures
            r == Self::spec_from(value),
    {
        match value {
            Some(v) => Self::new(v),
            None => Self::empty(),
        }
    }

    /// The name and its span, read from `input`.
    pub fn get_with_span<'i>(self, input: &Input<'i>) -> (r: Option<(&'i [u8], (u32, u32))>)
        requires
            input.wf(),
            self.start != u32::MAX ==> self.start <= input.src().len() && name_at(
                input.src(),
                self.start as int,
            ),
        ensures
            self.start == u32::MAX ==> r is None,
            self.start != u32::MAX ==> (r matches Some((name, span)) && (name@, span)
                == ident_spanned(input.src(), self.start)),
    {
        if self.start == u32::MAX {
            return None;
        }
        let mut at = input.starting_at(self.start);
        proof {
            input.lemma_wf();
            lex::lemma_lex_bounds(input.src(), self.start as int);
        }
        let next_token = at.next_token();
        match next_token {
            Some(Token::Ident(ident)) | Some(Token::String(ident)) => {
                let end = self.start + ident.len() as u32;
                Some((ident, (self.start, end)))
            },
            _ => {
                proof {
                    assert(false);
                }
                None
            },
        }
    }
}

/// The identifier lexed at offset `start` of `s`, and its span.
pub open spec fn ident_spanned(s: Seq<u8>, start: u32) -> (Seq<u8>, (u32, u32)) {
    let (t, e) = lex(s, start as int);
    let name = s.subrange(lex::tok_start(t), e);
    (name, (start, (start + name.len()) as u32))
}

impl IdentOffset {
    pub fn new(start: u32) -> (r: Self)
        ensures
            r.start == start,
    {
        IdentOffset { start }
    }

    /// The identifier and its span, read from `input`.
    pub fn read_spanned<'i>(self, input: &Input<'i>) -> (r: (&'i [u8], (u32, u32)))
        requires
            input.wf(),
            self.start <= input.src().len(),
            ident_at(input.src(), self.start as int),
        ensures
            (r.0@, r.1) == ident_spanned(input.src(), self.start),
    {
        let mut at = input.starting_at(self.start);
        proof {
            input.lemma_wf();
            lex::lemma_lex_bounds(input.src(), self.start as int);
        }
        match at.next_token() {
            Some(Token::Ident(ident)) => {
                let end = self.start + ident.len() as u32;
                (ident, (self.start, end))
            },
            _ => {
                proof {
                    assert(false);
                }
                (&[], (0, 0))
            },
        }
    }

    /// The identifier, read from `input`.
    pub fn read<'i>(self, input: &Input<'i>) -> (r: &'i [u8])
        requires
            input.wf(),
            self.start <= input.src().len(),
            ident_at(input.src(), self.start as int),
        ensures
            ({
                let (t, e) = lex(input.src(), self.start as int);
                r@ == input.src().subrange(lex::tok_start(t), e)
            }),
    {
        self.read_spanned(input).0
    }
}

impl OptIdentOffset {
    pub fn new(start: u32) -> (r: Self)
        ensures
            r.start == start,
    {
        OptIdentOffset { start }
    }

    pub fn empty() -> (r: Self)
        ensures
            r.start == u32::MAX,
    {
        OptIdentOffset { start: u32::MAX }
    }

    pub open spec fn spec_from(value: Option<IdentOffset>) -> Self {
        OptIdentOffset {
            start: match value {
                Some(v) => v.start,
                None => u32::MAX,
            },
        }
    }

    /// The offset of the identifier, if any.
    pub fn from_ident(value: Option<IdentOffset>) -> (r: Self)
        ensures
            r == Self::spec_from(value),
    {
        match value {
            Some(v) => Self::new(v.start),
            None => Self::empty(),
        }
    }

    /// The identifier and its span, read from `input`, if any.
    pub fn read_spanned<'i>(self, input: &Input<'i>) -> (r: Option<(&'i [u8], (u32, u32))>)
        requires
            input.wf(),
            self.start != u32::MAX ==> self.start <= input.src().len() && ident_at(
                input.src(),
                self.start as int,
            ),
        ensures
            self.start == u32::MAX ==> r is None,
            self.start != u32::MAX ==> (r matches Some((name, span)) && (name@, span)
                == ident_spanned(input.src(), self.start)),
    {
        if self.start == u32::MAX {
            return None;
        }
        Some(IdentOffset::new(self.start).read_spanned(input))
    }
}

} // verus!

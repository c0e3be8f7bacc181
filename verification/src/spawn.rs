//! Decisions of the interpreter that spawns entities: where each entity is
//! spawned, how the chain of parent entities evolves, which method names
//! are accepted, and how errors are reported.
//!
//! Entities are identified by `u64` ids.
use vstd::prelude::*;
use vstd::string::{StrSliceExecFns, StringExecFns, StringSliceAdditionalSpecFns};

use crate::grammar::{self, Error};
use crate::interpret::{SpecOp, Span};
use crate::parse_dsl::str_from_utf8;

verus! {

// ---------------------------------------------------------------------------
// Errors
// ---------------------------------------------------------------------------

/// How a method of the DSL failed.
#[derive(Debug, Clone, Copy, PartialEq, Eq, Structural)]
pub struct DslFailure {
    /// The method does not exist.
    pub missing_method: bool,
    /// Offset of the error within the method's arguments, if known.
    pub offset: Option<u32>,
}

/// An error occuring while interpreting a chirp file.
pub enum InterpError {
    /// `code(name)` names no registered function.
    CodeNotPresent(String),
    /// A method of the DSL failed.
    DslError(DslFailure),
    /// The file is not valid chirp.
    ParseError(Error),
    /// A method name is not valid UTF-8.
    BadUtf8MethodName,
    /// A method argument is not valid UTF-8.
    BadUtf8Argument,
    /// A method name starts with an uppercase letter.
    UppercaseMethod(String),
    /// Imports are not supported.
    Import,
    /// A template call names no declared template.
    TemplateNotFound(Vec<u8>),
}

/// Shown with invalid UTF-8 errors.
pub open spec fn utf8_error_text() -> Seq<char> {
    "Chirp requires UTF8, your file is either corrupted or saved with the wrong encoding."@
}

pub open spec fn missing_method_suffix() -> Seq<char> {
    " doesn't contain a method with this name."@
}

pub open spec fn dsl_error_text() -> Seq<char> {
    "The error comes from the ParseDsl implementation."@
}

pub open spec fn uppercase_text() -> Seq<char> {
    "You probably forgot to close a parenthesis in the last method list."@
}

/// The help message shown with `e`, `dsl` being the name of the DSL type.
pub open spec fn help_text(e: InterpError, dsl: Seq<char>) -> Option<Seq<char>> {
    match e {
        InterpError::CodeNotPresent(_) | InterpError::TemplateNotFound(_) | InterpError::Import => {
            None
        },
        InterpError::DslError(f) => Some(
            if f.missing_method {
                dsl + missing_method_suffix()
            } else {
                dsl_error_text()
            },
        ),
        InterpError::ParseError(err) => Some(grammar::error_help_text(err)),
        InterpError::UppercaseMethod(_) => Some(uppercase_text()),
        InterpError::BadUtf8MethodName | InterpError::BadUtf8Argument => Some(utf8_error_text()),
    }
}

impl InterpError {
    /// Help on how to fix the error, `dsl` being the name of the DSL type.
    pub fn help_message(&self, dsl: &str) -> (r: Option<String>)
        ensures
            match r {
                Some(text) => help_text(*self, dsl@) == Some(text@),
                None => help_text(*self, dsl@) is None,
            },
    {
        match self {
            InterpError::CodeNotPresent(_) | InterpError::TemplateNotFound(_) | InterpError::Import => {
                None
            },
            InterpError::DslError(f) => Some(
                if f.missing_method {
                    String::from_str(dsl).concat(" doesn't contain a method with this name.")
                } else {
                    String::from_str("The error comes from the ParseDsl implementation.")
                },
            ),
            InterpError::ParseError(err) => Some(String::from_str(err.help())),
            InterpError::UppercaseMethod(_) => Some(
                String::from_str(
                    "You probably forgot to close a parenthesis in the last method list.",
                ),
            ),
            InterpError::BadUtf8MethodName | InterpError::BadUtf8Argument => Some(
                String::from_str(
                    "Chirp requires UTF8, your file is either corrupted or saved with the wrong encoding.",
                ),
            ),
        }
    }

    /// The offset of the error within the method arguments, for errors of
    /// the DSL that know it.
    pub fn dsl_offset(&self) -> (r: Option<u32>)
        ensures
            r == match *self {
                InterpError::DslError(f) => f.offset,
                _ => None,
            },
    {
        match self {
            InterpError::DslError(f) => f.offset,
            _ => None,
        }
    }
}

/// Where an error is reported, when it happened at `span`: at the offset
/// the DSL gives within the span, if any.
pub open spec fn error_span_of(e: InterpError, span: Span) -> Span {
    match e {
        InterpError::DslError(f) => match f.offset {
            Some(o) => ((span.0 + o) as u32, (span.0 + o) as u32),
            None => span,
        },
        _ => span,
    }
}

/// Where the error `error` that happened at `span` is reported.
pub fn error_span(error: &InterpError, span: Span) -> (r: Span)
    requires
        match *error {
            InterpError::DslError(f) => f.offset matches Some(o) ==> span.0 + o <= u32::MAX,
            _ => true,
        },
    ensures
        r == error_span_of(*error, span),
{
    let (mut start, mut end) = span;
    if let Some(offset) = error.dsl_offset() {
        start = start + offset;
        end = start;
    }
    (start, end)
}

/// Where the error of a method call is reported: at the method name `name`
/// when the method does not exist, else at its arguments, or at its name
/// when it has none.
pub fn method_error_span(name: Span, arguments: Option<Span>, missing_method: bool) -> (r: Span)
    ensures
        r == (if missing_method {
            name
        } else {
            match arguments {
                Some(a) => a,
                None => name,
            }
        }),
{
    if missing_method {
        name
    } else {
        match arguments {
            Some(a) => a,
            None => name,
        }
    }
}

// ---------------------------------------------------------------------------
// Method names
// ---------------------------------------------------------------------------

/// Whether `char::is_uppercase` holds of `c`.
pub uninterp spec fn uppercase(c: char) -> bool;

/// `char::is_uppercase`: whether `c` has the Unicode `Uppercase` property.
/// The result is named, not stated: it is a table lookup on `c` alone.
#[verifier::external_body]
fn is_uppercase(c: char) -> (r: bool)
    ensures
        r == uppercase(c),
{
    c.is_uppercase()
}

/// Whether `name` is accepted as a method name: valid UTF-8 that does not
/// start with an uppercase letter.
pub open spec fn name_accepted(name: Seq<u8>) -> bool {
    vstd::utf8::valid_utf8(name) && !(vstd::utf8::decode_utf8(name).len() > 0 && uppercase(
        vstd::utf8::decode_utf8(name)[0],
    ))
}

/// Check that the method name `name` is valid UTF-8 and does not start with
/// an uppercase letter (a method list that is not closed makes the next
/// entity name look like a method).
pub fn check_method_name<'a>(name: &'a [u8]) -> (r: Result<&'a str, InterpError>)
    ensures
        match r {
            Ok(s) => name_accepted(name@) && s.spec_bytes() == name@,
            Err(InterpError::BadUtf8MethodName) => !vstd::utf8::valid_utf8(name@),
            Err(InterpError::UppercaseMethod(n)) => vstd::utf8::valid_utf8(name@) && !name_accepted(
                name@,
            ) && n@ == vstd::utf8::decode_utf8(name@),
            Err(_) => false,
        },
{
    let s = match str_from_utf8(name) {
        Some(s) => s,
        None => return Err(InterpError::BadUtf8MethodName),
    };
    let starts_uppercase = s.unicode_len() > 0 && is_uppercase(s.get_char(0));
    name_verdict(s, starts_uppercase)
}

/// Accept the method name `name` unless it starts with an uppercase letter,
/// as `starts_uppercase` tells.
pub fn name_verdict<'a>(name: &'a str, starts_uppercase: bool) -> (r: Result<&'a str, InterpError>)
    ensures
        match r {
            Ok(s) => !starts_uppercase && s == name,
            Err(InterpError::UppercaseMethod(n)) => starts_uppercase && n@ == name@,
            Err(_) => false,
        },
{
    if starts_uppercase {
        Err(InterpError::UppercaseMethod(String::from_str(name)))
    } else {
        Ok(name)
    }
}

// ---------------------------------------------------------------------------
// The chain of parent entities
// ---------------------------------------------------------------------------

/// The chain of parent entities: a `smallvec::SmallVec` holding up to two
/// entities without allocating.
#[verifier::external_body]
pub struct Chain {
    items: smallvec::SmallVec<[u64; 2]>,
}

/// The entities a [`Chain`] holds, in order.
pub uninterp spec fn chain_items(v: Chain) -> Seq<u64>;

/// `SmallVec::new`: an empty vector.
#[verifier::external_body]
fn chain_new() -> (r: Chain)
    ensures
        chain_items(r) == Seq::<u64>::empty(),
{
    Chain { items: smallvec::SmallVec::new() }
}

/// `SmallVec::len`: the number of items.
#[verifier::external_body]
fn chain_len(v: &Chain) -> (r: usize)
    ensures
        r == chain_items(*v).len(),
{
    v.items.len()
}

/// `SmallVec::push`: `x` added after the items. It panics only when the
/// capacity overflows, which the length bound rules out.
#[verifier::external_body]
fn chain_push(v: &mut Chain, x: u64)
    requires
        chain_items(*old(v)).len() < usize::MAX / 4,
    ensures
        chain_items(*final(v)) == chain_items(*old(v)).push(x),
{
    v.items.push(x)
}

/// `SmallVec::pop`: the last item removed and returned, `None` when there
/// is none.
#[verifier::external_body]
fn chain_pop(v: &mut Chain) -> (r: Option<u64>)
    ensures
        chain_items(*old(v)).len() == 0 ==> r is None && chain_items(*final(v)) == chain_items(
            *old(v),
        ),
        chain_items(*old(v)).len() > 0 ==> r == Some(chain_items(*old(v)).last()) && chain_items(
            *final(v),
        ) == chain_items(*old(v)).drop_last(),
{
    v.items.pop()
}

/// The last item of a `SmallVec` (through its slice), `None` when there is
/// none.
#[verifier::external_body]
fn chain_last(v: &Chain) -> (r: Option<u64>)
    ensures
        chain_items(*v).len() == 0 ==> r is None,
        chain_items(*v).len() > 0 ==> r == Some(chain_items(*v).last()),
{
    v.items.last().copied()
}

/// Where the entities of a chirp file are spawned: `root_entity` is the
/// entity children are currently added to, `parent_chain` the entities
/// left to go back to.
pub struct Parents {
    pub root_entity: u64,
    pub parent_chain: Chain,
}

/// Mathematical model of [`Parents`].
pub struct SpecParents {
    pub root: u64,
    pub chain: Seq<u64>,
}

impl View for Parents {
    type V = SpecParents;

    open spec fn view(&self) -> SpecParents {
        SpecParents { root: self.root_entity, chain: chain_items(self.parent_chain) }
    }
}

/// Where an entity is spawned.
#[derive(Debug, Clone, Copy, PartialEq, Eq, Structural)]
pub enum SpawnAt {
    /// The entity is the given entity itself (the root of the scene).
    Root(u64),
    /// A new entity, child of the given entity.
    ChildOf(u64),
}

/// Where the next entity is spawned: the root of the scene at first, a new
/// child of the current parent afterward.
pub open spec fn spec_spawn_at(p: SpecParents) -> SpawnAt {
    if p.chain.len() == 0 {
        SpawnAt::Root(p.root)
    } else {
        SpawnAt::ChildOf(p.root)
    }
}

/// The parents after the entity `inserted` (or no entity, if it could not
/// be spawned) got children.
pub open spec fn spec_start_children(p: SpecParents, inserted: Option<u64>) -> SpecParents {
    let inserted = match inserted {
        Some(e) => e,
        None => p.root,
    };
    if p.chain.len() == 0 {
        SpecParents { root: inserted, chain: seq![inserted] }
    } else if p.chain.last() == p.root {
        SpecParents { root: inserted, chain: p.chain }
    } else {
        SpecParents { root: inserted, chain: p.chain.push(p.root) }
    }
}

/// The parents after the children of the current parent are done.
pub open spec fn spec_complete_children(p: SpecParents) -> SpecParents
    recommends
        p.chain.len() > 0,
{
    let entity = p.chain.last();
    let rest = p.chain.drop_last();
    SpecParents {
        root: entity,
        chain: if rest.len() == 0 {
            seq![entity]
        } else {
            rest
        },
    }
}

impl Parents {
    /// Nothing spawned yet, the scene's root entity is `root_entity`.
    pub fn new(root_entity: u64) -> (r: Self)
        ensures
            r@.root == root_entity,
            r@.chain.len() == 0,
    {
        Parents { root_entity, parent_chain: chain_new() }
    }

    /// How many entities the chain of parents holds.
    pub fn depth(&self) -> (r: usize)
        ensures
            r == self@.chain.len(),
    {
        chain_len(&self.parent_chain)
    }

    /// Where the next entity is spawned.
    pub fn spawn_at(&self) -> (r: SpawnAt)
        ensures
            r == spec_spawn_at(self@),
    {
        match chain_last(&self.parent_chain) {
            None => SpawnAt::Root(self.root_entity),
            Some(_) => SpawnAt::ChildOf(self.root_entity),
        }
    }

    /// The entity `inserted` (or none, if it could not be spawned) gets
    /// children. The chain of parents must have room for one more.
    pub fn start_children(&mut self, inserted: Option<u64>)
        requires
            old(self)@.chain.len() < usize::MAX / 4,
        ensures
            final(self)@ == spec_start_children(old(self)@, inserted),
    {
        let inserted = match inserted {
            Some(e) => e,
            None => self.root_entity,
        };
        match chain_last(&self.parent_chain) {
            None => {
                chain_push(&mut self.parent_chain, inserted);
                self.root_entity = inserted;
                assert(chain_items(self.parent_chain) =~= seq![inserted]);
            },
            Some(entity) => if entity == self.root_entity {
                self.root_entity = inserted;
            } else {
                let previous = self.root_entity;
                self.root_entity = inserted;
                chain_push(&mut self.parent_chain, previous);
            },
        }
    }

    /// The children of the current parent are done. There must have been
    /// children started before.
    pub fn complete_children(&mut self)
        requires
            old(self)@.chain.len() > 0,
        ensures
            final(self)@ == spec_complete_children(old(self)@),
    {
        let entity = match chain_pop(&mut self.parent_chain) {
            Some(entity) => entity,
            None => {
                proof {
                    assert(false);
                }
                return ;
            },
        };
        if chain_len(&self.parent_chain) == 0 {
            chain_push(&mut self.parent_chain, entity);
            assert(chain_items(self.parent_chain) =~= seq![entity]);
        }
        self.root_entity = entity;
    }
}

/// The parents after replaying the operations `ops`, from `p`, when the
/// entity spawned for operation `k` is `inserted[k]`. `None` when some
/// operation completes children while no parent is left.
pub open spec fn replay(ops: Seq<SpecOp>, p: SpecParents, inserted: Seq<Option<u64>>) -> Option<
    SpecParents,
>
    decreases ops.len(),
{
    if ops.len() == 0 {
        Some(p)
    } else {
        match ops[0] {
            SpecOp::StartChildren => replay(
                ops.skip(1),
                spec_start_children(p, inserted[0]),
                inserted.skip(1),
            ),
            SpecOp::CompleteChildren => if p.chain.len() == 0 {
                None
            } else {
                replay(ops.skip(1), spec_complete_children(p), inserted.skip(1))
            },
            _ => replay(ops.skip(1), p, inserted.skip(1)),
        }
    }
}

proof fn lemma_replay_nested(ops: Seq<SpecOp>, p: SpecParents, inserted: Seq<Option<u64>>, d: int)
    requires
        crate::interpret::nesting(ops, d) is Some,
        d >= 0,
        p.chain.len() > 0 || d == 0,
    ensures
        replay(ops, p, inserted) is Some,
    decreases ops.len(),
{
    if ops.len() > 0 {
        match ops[0] {
            SpecOp::StartChildren => lemma_replay_nested(
                ops.skip(1),
                spec_start_children(p, inserted[0]),
                inserted.skip(1),
                d + 1,
            ),
            SpecOp::CompleteChildren => lemma_replay_nested(
                ops.skip(1),
                spec_complete_children(p),
                inserted.skip(1),
                d - 1,
            ),
            _ => lemma_replay_nested(ops.skip(1), p, inserted.skip(1), d),
        }
    }
}

/// Spawning the entities of a chirp file never runs out of parents: when
/// the interpreter completes children, there is always a parent to go
/// back to, whatever entities got spawned.
pub proof fn lemma_interpretation_replays(
    s: Seq<u8>,
    f: crate::ast::SpecChirpFile,
    root: u64,
    inserted: Seq<Option<u64>>,
)
    requires
        crate::interpret::terminates(s, f),
    ensures
        replay(
            crate::interpret::interpretation(s, f),
            SpecParents { root, chain: Seq::empty() },
            inserted,
        ) is Some,
{
    crate::interpret::lemma_interpretation_balanced(s, f);
    lemma_replay_nested(
        crate::interpret::interpretation(s, f),
        SpecParents { root, chain: Seq::empty() },
        inserted,
        0,
    );
}

/// Once an entity starts having children, the entities that follow are
/// spawned as its children, until its children are complete.
pub proof fn lemma_children_of_inserted(p: SpecParents, inserted: u64)
    ensures
        spec_spawn_at(spec_start_children(p, Some(inserted))) == SpawnAt::ChildOf(inserted),
        spec_start_children(p, Some(inserted)).chain.len() > 0,
{
}

/// Completing the children of a nested entity goes back to the parent that
/// was current when its children started.
pub proof fn lemma_complete_restores(p: SpecParents, inserted: u64)
    requires
        p.chain.len() > 0,
        p.chain.last() != p.root,
    ensures
        spec_complete_children(spec_start_children(p, Some(inserted))).root == p.root,
        spec_complete_children(spec_start_children(p, Some(inserted))).chain == p.chain,
{
    assert(p.chain.push(p.root).drop_last() =~= p.chain);
}

} // verus!

//! [`Input`]: a position in a chirp file, read token by token.
use vstd::prelude::*;

use crate::lex::{self, lex, lexed, skip_spaces, Token};

verus! {

/// Convert an offset into the input to `usize`.
pub fn as_usize(x: u32) -> (r: usize)
    ensures
        r == x,
{
    x as usize
}

/// Convert a length of the input to `u32`. Inputs are at most `u32::MAX`
/// bytes long.
pub fn as_u32(x: usize) -> (r: u32)
    requires
        x <= u32::MAX,
    ensures
        r == x,
{
    x as u32
}

/// A saved position of an [`Input`], to go back to it with [`Input::reset`].
#[derive(Debug, Clone, Copy)]
pub struct StateCheckpoint {
    pub(crate) end: u32,
    pub(crate) start: u32,
}

impl StateCheckpoint {
    /// The saved position.
    pub closed spec fn pos(&self) -> int {
        self.start as int
    }

    /// The saved length of the input.
    pub closed spec fn len(&self) -> int {
        self.end as int
    }

    /// The saved position.
    pub fn start(self) -> (r: u32)
        ensures
            r == self.pos(),
    {
        self.start
    }
}

/// The chirp input being parsed, and the current position in it.
#[derive(Clone, Copy)]
pub struct Input<'i, S = ()> {
    /// The whole input.
    pub(crate) initial: &'i [u8],
    /// The current position in `initial`.
    pub(crate) start: u32,
    /// The length of `initial`.
    pub(crate) end: u32,
    /// User-provided state.
    pub state: S,
}

impl<'i, S> Input<'i, S> {
    /// The whole input.
    pub closed spec fn src(&self) -> Seq<u8> {
        self.initial@
    }

    /// The current position.
    pub closed spec fn offset(&self) -> int {
        self.start as int
    }

    /// The user-provided state.
    pub closed spec fn user_state(&self) -> S {
        self.state
    }

    /// Well formed: the position is within the input, whose length fits
    /// in a `u32`.
    pub closed spec fn wf(&self) -> bool {
        &&& self.end == self.initial@.len()
        &&& self.start <= self.end
    }

    /// What well formed implies.
    pub proof fn lemma_wf(&self)
        requires
            self.wf(),
        ensures
            0 <= self.offset() <= self.src().len() <= u32::MAX,
    {
    }

    /// Start reading `input` from its first byte.
    pub fn new(input: &'i [u8], state: S) -> (r: Self)
        requires
            input@.len() <= u32::MAX,
        ensures
            r.wf(),
            r.src() == input@,
            r.offset() == 0,
            r.user_state() == state,
    {
        let end = as_u32(input.len());
        Input { initial: input, start: 0, end, state }
    }

    /// The current position.
    pub fn get_location(&self) -> (r: usize)
        ensures
            r == self.offset(),
    {
        as_usize(self.start)
    }

    /// The `subslice_len` bytes following the current position.
    pub fn subslice(&self, subslice_len: usize) -> (r: &'i [u8])
        requires
            self.wf(),
            self.offset() + subslice_len <= self.src().len(),
        ensures
            r@ == self.src().subrange(self.offset(), self.offset() + subslice_len),
    {
        let offset = as_usize(self.start);
        &self.initial[offset..offset + subslice_len]
    }

    /// The input from the current position on.
    pub fn input_u8(&self) -> (r: &'i [u8])
        requires
            self.wf(),
        ensures
            r@ == self.src().subrange(self.offset(), self.src().len() as int),
    {
        let offset = as_usize(self.start);
        let len = as_usize(self.end);
        &self.initial[offset..len]
    }

    /// Whether no token is left.
    pub fn is_empty(&self) -> (r: bool)
        requires
            self.wf(),
        ensures
            r == (lex(self.src(), self.offset()).0 is None),
    {
        let (token, _) = lex::after_space(self.initial, as_usize(self.start));
        token.is_none()
    }

    /// The current position.
    pub fn current_offset(&self) -> (r: u32)
        ensures
            r == self.offset(),
    {
        self.start
    }

    /// The position after the spaces and comments that follow the current
    /// position: where the next token starts, unless they diverge (see
    /// [`lex::skip_diverges`]).
    pub fn next_start(&self) -> (r: u32)
        requires
            self.wf(),
        ensures
            r == skip_spaces(self.src(), self.offset()),
    {
        proof {
            lex::lemma_skip_spaces_bounds(self.src(), self.offset());
        }
        let p = lex::consume_spaces_from(self.initial, as_usize(self.start));
        as_u32(p)
    }

    /// The same input, at position `start`.
    pub fn starting_at(&self, start: u32) -> (r: Self) where S: Clone
        requires
            self.wf(),
            start <= self.src().len(),
        ensures
            r.wf(),
            r.src() == self.src(),
            r.offset() == start,
            cloned(self.user_state(), r.user_state()),
    {
        Input { initial: self.initial, start, end: self.end, state: self.state.clone() }
    }

    /// Number of bytes left.
    pub fn eof_offset(&self) -> (r: usize)
        requires
            self.wf(),
        ensures
            r == self.src().len() - self.offset(),
    {
        as_usize(self.end - self.start)
    }

    /// Read the next token, advancing the position past it.
    pub fn next_token(&mut self) -> (r: Option<Token<'i>>)
        requires
            old(self).wf(),
        ensures
            final(self).wf(),
            final(self).src() == old(self).src(),
            final(self).user_state() == old(self).user_state(),
            lexed(old(self).src(), old(self).offset(), (r, final(self).offset() as usize)),
    {
        proof {
            lex::lemma_lex_bounds(self.src(), self.offset());
        }
        let (token, end) = lex::after_space(self.initial, as_usize(self.start));
        self.start = as_u32(end);
        token
    }

    /// The `offset` bytes following the current position, without leading
    /// spaces, advancing the position past them.
    pub fn next_slice(&mut self, offset: usize) -> (r: &'i [u8])
        requires
            old(self).wf(),
            old(self).offset() + offset <= old(self).src().len(),
        ensures
            final(self).wf(),
            final(self).src() == old(self).src(),
            final(self).user_state() == old(self).user_state(),
            final(self).offset() == old(self).offset() + offset,
            ({
                let sub = old(self).src().subrange(old(self).offset(), old(self).offset() + offset);
                r@ == sub.subrange(skip_spaces(sub, 0), sub.len() as int)
            }),
    {
        let mut slice = self.subslice(offset);
        lex::consume_spaces(&mut slice);
        self.start = self.start + as_u32(offset);
        slice
    }

    /// Save the current position.
    pub fn checkpoint(&self) -> (r: StateCheckpoint)
        requires
            self.wf(),
        ensures
            r.pos() == self.offset(),
            r.len() == self.src().len(),
            r.pos() <= r.len(),
    {
        StateCheckpoint { end: self.end, start: self.start }
    }

    /// Go back to a position saved with [`Self::checkpoint`].
    pub fn reset(&mut self, checkpoint: StateCheckpoint)
        requires
            old(self).wf(),
            checkpoint.len() == old(self).src().len(),
            checkpoint.pos() <= checkpoint.len(),
        ensures
            final(self).wf(),
            final(self).src() == old(self).src(),
            final(self).user_state() == old(self).user_state(),
            final(self).offset() == checkpoint.pos(),
    {
        self.start = checkpoint.start;
        self.end = checkpoint.end;
    }

    /// Going back to a checkpoint undoes any reading: `read` is where
    /// reading from `self` led (reading keeps the text and the state), and
    /// `back` is `read` reset to the checkpoint `c` taken on `self`. Then
    /// `back` is at `self`'s place again, with the same text and state, and
    /// the same bytes left to read.
    pub proof fn lemma_reset_restores(&self, c: StateCheckpoint, read: Self, back: Self)
        requires
            self.wf(),
            c.pos() == self.offset(),
            c.len() == self.src().len(),
            read.wf(),
            read.src() == self.src(),
            read.user_state() == self.user_state(),
            back.wf(),
            back.src() == read.src(),
            back.user_state() == read.user_state(),
            back.offset() == c.pos(),
        ensures
            back.src() == self.src(),
            back.offset() == self.offset(),
            back.user_state() == self.user_state(),
            back.src().subrange(back.offset(), back.src().len() as int) == self.src().subrange(
                self.offset(),
                self.src().len() as int,
            ),
            back.src().len() - back.offset() == self.src().len() - self.offset(),
    {
    }

    /// Bytes between the checkpoint `initial` and the current position.
    pub fn offset_from(&self, initial: &StateCheckpoint) -> (r: usize)
        requires
            initial.pos() <= self.offset(),
        ensures
            r == self.offset() - initial.pos(),
    {
        as_usize(self.start - initial.start)
    }

    /// Iterate over the tokens following the current position.
    pub fn iter_offsets(&self) -> (r: TokenIter<'i>)
        requires
            self.wf(),
        ensures
            r.stream.wf(),
            r.stream.offset() == 0,
            r.stream.src() == self.src().subrange(self.offset(), self.src().len() as int),
    {
        let offset = as_usize(self.start);
        let len = as_usize(self.end);
        let rest = &self.initial[offset..len];
        TokenIter { stream: Input { initial: rest, start: 0, end: self.end - self.start, state: () } }
    }

    /// Offset, from the current position, of the start of the `tokens`th
    /// next token.
    pub fn offset_at(&self, tokens: usize) -> (r: Option<usize>)
        requires
            self.wf(),
        ensures
            ({
                let rest = self.src().subrange(self.offset(), self.src().len() as int);
                match r {
                    Some(o) => nth_token_start(rest, 0, tokens as nat) == Some(o as int),
                    None => nth_token_start(rest, 0, tokens as nat) is None,
                }
            }),
    {
        let mut iter = self.iter_offsets();
        let ghost rest = iter.stream.src();
        assert(rest == self.src().subrange(self.offset(), self.src().len() as int));
        let mut n: usize = 0;
        loop
            invariant
                iter.stream.wf(),
                iter.stream.src() == rest,
                n <= tokens,
                rest == self.src().subrange(self.offset(), self.src().len() as int),
                nth_token_start(rest, 0, tokens as nat) == nth_token_start(
                    rest,
                    iter.stream.offset(),
                    (tokens - n) as nat,
                ),
            decreases iter.stream.src().len() - iter.stream.offset(),
        {
            let before = iter.stream.start;
            let ghost k = (tokens - n) as nat;
            proof {
                assert(nth_token_start(rest, before as int, k) == match lex(rest, before as int) {
                    (None, _) => None,
                    (Some((_, st)), e) => if k == 0 {
                        Some(st)
                    } else if e <= before || before < 0 || e > rest.len() {
                        None
                    } else {
                        nth_token_start(rest, e, (k - 1) as nat)
                    },
                });
                lex::lemma_lex_bounds(rest, before as int);
            }
            match iter.next() {
                None => {
                    proof {
                        assert(lex(rest, before as int).0 is None);
                        assert(nth_token_start(rest, before as int, k) is None);
                    }
                    return None;
                },
                Some((offset, _)) => {
                    if n == tokens {
                        proof {
                            let st = lex::tok_start(lex(rest, before as int).0);
                            assert(offset == st);
                            assert(nth_token_start(rest, before as int, k) == Some(st));
                        }
                        return Some(offset);
                    }
                    if iter.stream.start <= before {
                        return None;
                    }
                    n = n + 1;
                },
            }
        }
    }
}

/// Start of the `n`th token lexed from `p` in `s`.
pub open spec fn nth_token_start(s: Seq<u8>, p: int, n: nat) -> Option<int>
    decreases s.len() - p,
{
    match lex(s, p) {
        (None, _) => None,
        (Some((_, st)), e) => if n == 0 {
            Some(st)
        } else if e <= p || p < 0 || e > s.len() {
            None
        } else {
            nth_token_start(s, e, (n - 1) as nat)
        },
    }
}

impl<S> Input<'_, S> {
    /// The position, as offset from the start of the input.
    pub fn location(&self) -> (r: usize)
        ensures
            r == self.offset(),
    {
        self.get_location()
    }
}

/// Iterate over tokens together with the offset of their start.
pub struct TokenIter<'i> {
    pub stream: Input<'i, ()>,
}

impl<'i> TokenIter<'i> {
    /// The next token and the offset of its first byte.
    pub fn next(&mut self) -> (r: Option<(usize, Token<'i>)>)
        requires
            old(self).stream.wf(),
        ensures
            final(self).stream.wf(),
            final(self).stream.src() == old(self).stream.src(),
            ({
                let (t, e) = lex(old(self).stream.src(), old(self).stream.offset());
                &&& final(self).stream.offset() == e
                &&& match r {
                    None => t is None,
                    Some((offset, tok)) => t matches Some((ty, st)) && offset == st && lex::token_type(tok)
                        == ty,
                }
            }),
    {
        let token = self.stream.next_token();
        match token {
            None => None,
            Some(token) => {
                proof {
                    lex::lemma_lex_bounds(old(self).stream.src(), old(self).stream.offset());
                }
                let offset = self.stream.start;
                let token_start_offset = offset - token.len();
                Some((as_usize(token_start_offset), token))
            },
        }
    }
}

} // verus!

//! Quick splitting of a method's argument text into a fixed number of
//! arguments, on top level commas.
//!
//! An argument is balanced text: text where `(`, `[` and `{` are closed by
//! the matching `)`, `]` and `}`, and where a backslash escapes one of
//! `()[]{},\`. Arguments are separated by a comma and optional ASCII
//! spaces.
use vstd::prelude::*;
use vstd::string::StringSliceAdditionalSpecFns;

use crate::lex::{ascii_edge, lemma_edge_slice_utf8};

verus! {

/// Error returned by the `argN` functions.
#[derive(Debug, Clone, Copy, PartialEq, Eq, Structural)]
pub enum ArgError {
    /// Expected the first count of arguments, got the second.
    CountMismatch(u32, usize),
    /// An argument is not balanced text.
    ArgParse,
}

/// Whether `b` ends a run of text: at the top level `([{},\`, within
/// delimiters `()[]{}\`.
pub open spec fn is_term(b: u8, top: bool) -> bool {
    if top {
        b == 0x28 || b == 0x5b || b == 0x7b || b == 0x7d || b == 0x2c || b == 0x5c
    } else {
        b == 0x28 || b == 0x29 || b == 0x5b || b == 0x5d || b == 0x7b || b == 0x7d || b == 0x5c
    }
}

/// Whether a backslash may escape `b`: one of `()[]{},\`.
pub open spec fn escapable(b: u8) -> bool {
    b == 0x28 || b == 0x29 || b == 0x5b || b == 0x5d || b == 0x7b || b == 0x7d || b == 0x2c || b
        == 0x5c
}

/// The closing delimiter of an opening one.
pub open spec fn closer(c: u8) -> u8 {
    if c == 0x28 {
        0x29
    } else if c == 0x5b {
        0x5d
    } else {
        0x7d
    }
}

pub open spec fn is_open(c: u8) -> bool {
    c == 0x28 || c == 0x5b || c == 0x7b
}

/// A run of text from `p` up to a term byte (see [`is_term`]) or the end,
/// backslash escapes included: whether it is well formed, and where it
/// ends (or where the bad escape is). `top` tells the terms of the top level
/// from those within delimiters.
pub open spec fn sp_escaped(s: Seq<u8>, p: int, top: bool) -> (bool, int)
    decreases s.len() - p,
{
    if p < 0 || p >= s.len() {
        (true, p)
    } else if !is_term(s[p], top) {
        sp_escaped(s, p + 1, top)
    } else if s[p] == 0x5c {
        if p + 1 < s.len() && escapable(s[p + 1]) {
            sp_escaped(s, p + 2, top)
        } else {
            (false, p + 1)
        }
    } else {
        (true, p)
    }
}

pub proof fn lemma_escaped_bounds(s: Seq<u8>, p: int, top: bool)
    requires
        0 <= p <= s.len(),
    ensures
        p <= sp_escaped(s, p, top).1 <= s.len(),
    decreases s.len() - p,
{
    if p < s.len() {
        if !is_term(s[p], top) {
            lemma_escaped_bounds(s, p + 1, top);
        } else if s[p] == 0x5c && p + 1 < s.len() && escapable(s[p + 1]) {
            lemma_escaped_bounds(s, p + 2, top);
        }
    }
}

/// A delimited group starting at `p`: whether it is well formed, and where
/// it ends (or where it failed).
pub open spec fn sp_scoped(s: Seq<u8>, p: int) -> (bool, int)
    decreases s.len() - p, 0int,
{
    if p < 0 || p >= s.len() {
        (false, p)
    } else if !is_open(s[p]) {
        (false, p + 1)
    } else {
        let (ok, q) = sp_escaped(s, p + 1, false);
        if !ok {
            (false, q)
        } else {
            proof {
                lemma_escaped_bounds(s, p + 1, false);
            }
            let q2 = sp_rep(s, q, false);
            if 0 <= q2 < s.len() && s[q2] == closer(s[p]) {
                (true, q2 + 1)
            } else {
                (false, q2)
            }
        }
    }
}

/// Delimited groups each followed by a run of text, as many as parse from
/// `q`: where they end.
pub open spec fn sp_rep(s: Seq<u8>, q: int, top: bool) -> int
    decreases s.len() - q, 1int,
{
    let (ok, q1) = sp_scoped(s, q);
    if !ok {
        q
    } else {
        let (ok2, q2) = sp_escaped(s, q1, top);
        if !ok2 || q2 <= q || q2 > s.len() {
            q
        } else {
            sp_rep(s, q2, top)
        }
    }
}

proof fn lemma_scoped_bounds(s: Seq<u8>, p: int)
    requires
        0 <= p <= s.len(),
    ensures
        p <= sp_scoped(s, p).1 <= s.len(),
        sp_scoped(s, p).0 ==> p < sp_scoped(s, p).1,
    decreases s.len() - p, 0int,
{
    if p < s.len() && is_open(s[p]) {
        lemma_escaped_bounds(s, p + 1, false);
        let (ok, q) = sp_escaped(s, p + 1, false);
        if ok {
            lemma_rep_bounds(s, q, false);
        }
    }
}

proof fn lemma_rep_bounds(s: Seq<u8>, q: int, top: bool)
    requires
        0 <= q <= s.len(),
    ensures
        q <= sp_rep(s, q, top) <= s.len(),
    decreases s.len() - q, 1int,
{
    lemma_scoped_bounds(s, q);
    let (ok, q1) = sp_scoped(s, q);
    if ok {
        lemma_escaped_bounds(s, q1, top);
        let (ok2, q2) = sp_escaped(s, q1, top);
        if ok2 && q < q2 <= s.len() {
            lemma_rep_bounds(s, q2, top);
        }
    }
}

/// Balanced text from `p`: whether it is well formed, and where it ends.
pub open spec fn sp_balanced(s: Seq<u8>, p: int) -> (bool, int) {
    let (ok, q) = sp_escaped(s, p, true);
    if !ok {
        (false, q)
    } else {
        (true, sp_rep(s, q, true))
    }
}

proof fn lemma_balanced_bounds(s: Seq<u8>, p: int)
    requires
        0 <= p <= s.len(),
    ensures
        p <= sp_balanced(s, p).1 <= s.len(),
{
    lemma_escaped_bounds(s, p, true);
    let (ok, q) = sp_escaped(s, p, true);
    if ok {
        lemma_rep_bounds(s, q, true);
    }
}

/// `p` with the ASCII spaces (` `, `\t`, `\r`, `\n`) that follow skipped.
pub open spec fn skip_multispace(s: Seq<u8>, p: int) -> int
    decreases s.len() - p,
{
    if 0 <= p < s.len() && (s[p] == 0x20 || s[p] == 0x09 || s[p] == 0x0d || s[p] == 0x0a) {
        skip_multispace(s, p + 1)
    } else {
        p
    }
}

proof fn lemma_skip_multispace(s: Seq<u8>, p: int)
    requires
        0 <= p <= s.len(),
    ensures
        p <= skip_multispace(s, p) <= s.len(),
    decreases s.len() - p,
{
    if p < s.len() && (s[p] == 0x20 || s[p] == 0x09 || s[p] == 0x0d || s[p] == 0x0a) {
        lemma_skip_multispace(s, p + 1);
    }
}

/// The next argument from `p`: `None` at the end of the text, else the
/// span of the argument (or a failure), and where reading stopped. The
/// first argument is read as is, the following ones after a comma.
pub open spec fn sp_step(s: Seq<u8>, p: int, first: bool) -> (Option<Result<(int, int), ()>>, int) {
    if p < 0 || p >= s.len() {
        (None, p)
    } else if first {
        let (ok, q) = sp_balanced(s, p);
        (
            Some(
                if ok {
                    Ok((p, q))
                } else {
                    Err(())
                },
            ),
            q,
        )
    } else if s[p] != 0x2c {
        (Some(Err(())), p)
    } else {
        let p2 = skip_multispace(s, p + 1);
        let (ok, q) = sp_balanced(s, p2);
        (
            Some(
                if ok {
                    Ok((p2, q))
                } else {
                    Err(())
                },
            ),
            q,
        )
    }
}

proof fn lemma_step_bounds(s: Seq<u8>, p: int, first: bool)
    requires
        0 <= p <= s.len(),
    ensures
        p <= sp_step(s, p, first).1 <= s.len(),
        sp_step(s, p, first).0 is None <==> p == s.len(),
        (!first && sp_step(s, p, first).0 matches Some(Ok(_))) ==> p < sp_step(s, p, first).1,
{
    if p < s.len() {
        if first {
            lemma_balanced_bounds(s, p);
        } else if s[p] == 0x2c {
            lemma_skip_multispace(s, p + 1);
            lemma_balanced_bounds(s, skip_multispace(s, p + 1));
        }
    }
}

/// How many arguments are left from `p`, `None` when reading them never
/// ends (a failure that reads nothing repeats forever).
pub open spec fn sp_count(s: Seq<u8>, p: int, first: bool) -> Option<int>
    decreases s.len() - p, if first {
        1int
    } else {
        0int
    },
{
    let (item, q) = sp_step(s, p, first);
    match item {
        None => Some(0),
        Some(_) => if q < p || q > s.len() || (q == p && !first) {
            None
        } else {
            match sp_count(s, q, false) {
                Some(c) => Some(c + 1),
                None => None,
            }
        },
    }
}

/// The spans of the first `n - k` arguments from `p` appended to `acc`,
/// `k` arguments being read already; then the check that no argument is
/// left. `None` when counting the arguments left never ends.
pub open spec fn sp_take(s: Seq<u8>, p: int, k: int, n: int, acc: Seq<(int, int)>) -> Option<
    Result<Seq<(int, int)>, ArgError>,
>
    decreases n - k,
{
    let (item, q) = sp_step(s, p, k == 0);
    if k >= n {
        match item {
            None => Some(Ok(acc)),
            Some(_) => match sp_count(s, q, false) {
                Some(c) => Some(Err(ArgError::CountMismatch(n as u32, (n + 1 + c) as usize))),
                None => None,
            },
        }
    } else {
        match item {
            None => Some(Err(ArgError::CountMismatch(n as u32, k as usize))),
            Some(Err(_)) => Some(Err(ArgError::ArgParse)),
            Some(Ok(span)) => sp_take(s, q, k + 1, n, acc.push(span)),
        }
    }
}

/// The spans of the `n` arguments of `s`, or the error; `None` when the
/// arguments are never done being read.
pub open spec fn sp_args(s: Seq<u8>, n: int) -> Option<Result<Seq<(int, int)>, ArgError>> {
    if s.len() == 0 {
        Some(
            if n == 0 {
                Ok(Seq::empty())
            } else {
                Err(ArgError::CountMismatch(n as u32, 0))
            },
        )
    } else if n == 0 {
        match sp_count(s, 0, true) {
            Some(c) => Some(Err(ArgError::CountMismatch(0, c as usize))),
            None => None,
        }
    } else {
        sp_take(s, 0, 0, n, Seq::empty())
    }
}

// ---------------------------------------------------------------------------
// Arguments are cut at ASCII bytes, so they are valid UTF-8
// ---------------------------------------------------------------------------

proof fn lemma_escaped_edge(s: Seq<u8>, p: int, top: bool)
    requires
        0 <= p <= s.len(),
    ensures
        sp_escaped(s, p, top).0 ==> ascii_edge(s, sp_escaped(s, p, top).1),
    decreases s.len() - p,
{
    if p < s.len() {
        if !is_term(s[p], top) {
            lemma_escaped_edge(s, p + 1, top);
        } else if s[p] == 0x5c && p + 1 < s.len() && escapable(s[p + 1]) {
            lemma_escaped_edge(s, p + 2, top);
        }
    }
}

proof fn lemma_rep_edge(s: Seq<u8>, q: int, top: bool)
    requires
        0 <= q <= s.len(),
        ascii_edge(s, q),
    ensures
        ascii_edge(s, sp_rep(s, q, top)),
    decreases s.len() - q,
{
    lemma_scoped_bounds(s, q);
    let (ok, q1) = sp_scoped(s, q);
    if ok {
        lemma_escaped_bounds(s, q1, top);
        let (ok2, q2) = sp_escaped(s, q1, top);
        if ok2 && q < q2 <= s.len() {
            lemma_escaped_edge(s, q1, top);
            lemma_rep_edge(s, q2, top);
        }
    }
}

proof fn lemma_balanced_edge(s: Seq<u8>, p: int)
    requires
        0 <= p <= s.len(),
    ensures
        sp_balanced(s, p).0 ==> ascii_edge(s, sp_balanced(s, p).1),
{
    lemma_escaped_bounds(s, p, true);
    lemma_escaped_edge(s, p, true);
    let (ok, q) = sp_escaped(s, p, true);
    if ok {
        lemma_rep_edge(s, q, true);
    }
}

proof fn lemma_multispace_edge(s: Seq<u8>, p: int)
    requires
        0 < p <= s.len(),
        s[p - 1] < 0x80,
    ensures
        ascii_edge(s, skip_multispace(s, p)),
    decreases s.len() - p,
{
    if p < s.len() && (s[p] == 0x20 || s[p] == 0x09 || s[p] == 0x0d || s[p] == 0x0a) {
        lemma_multispace_edge(s, p + 1);
    }
}

/// Both ends of every argument span are next to ASCII bytes.
proof fn lemma_take_edges(s: Seq<u8>, p: int, k: int, n: int, acc: Seq<(int, int)>)
    requires
        0 <= p <= s.len(),
        0 <= k,
        k == 0 ==> p == 0,
        forall|j: int|
            0 <= j < acc.len() ==> ascii_edge(s, (#[trigger] acc[j]).0) && ascii_edge(s, acc[j].1),
    ensures
        sp_take(s, p, k, n, acc) matches Some(Ok(spans)) ==> forall|j: int|
            0 <= j < spans.len() ==> ascii_edge(s, (#[trigger] spans[j]).0) && ascii_edge(
                s,
                spans[j].1,
            ),
    decreases n - k,
{
    lemma_step_bounds(s, p, k == 0);
    let (item, q) = sp_step(s, p, k == 0);
    if k < n {
        if let Some(Ok(span)) = item {
            if k == 0 {
                lemma_balanced_edge(s, p);
            } else {
                lemma_skip_multispace(s, p + 1);
                lemma_multispace_edge(s, p + 1);
                lemma_balanced_edge(s, skip_multispace(s, p + 1));
            }
            assert forall|j: int| 0 <= j < acc.push(span).len() implies ascii_edge(
                s,
                (#[trigger] acc.push(span)[j]).0,
            ) && ascii_edge(s, acc.push(span)[j].1) by {
                if j < acc.len() {
                    assert(acc.push(span)[j] == acc[j]);
                }
            }
            lemma_take_edges(s, q, k + 1, n, acc.push(span));
        }
    }
}

// ---------------------------------------------------------------------------
// Reading arguments
// ---------------------------------------------------------------------------

fn term(b: u8, top: bool) -> (r: bool)
    ensures
        r == is_term(b, top),
{
    if top {
        b == 0x28 || b == 0x5b || b == 0x7b || b == 0x7d || b == 0x2c || b == 0x5c
    } else {
        b == 0x28 || b == 0x29 || b == 0x5b || b == 0x5d || b == 0x7b || b == 0x7d || b == 0x5c
    }
}

fn can_escape(b: u8) -> (r: bool)
    ensures
        r == escapable(b),
{
    b == 0x28 || b == 0x29 || b == 0x5b || b == 0x5d || b == 0x7b || b == 0x7d || b == 0x2c || b
        == 0x5c
}

/// A run of text (see [`sp_escaped`]).
fn escaped(s: &[u8], start: usize, top: bool) -> (r: (bool, usize))
    requires
        start <= s@.len(),
    ensures
        (r.0, r.1 as int) == sp_escaped(s@, start as int, top),
{
    let mut p = start;
    loop
        invariant
            p <= s@.len(),
            sp_escaped(s@, p as int, top) == sp_escaped(s@, start as int, top),
        decreases s@.len() - p,
    {
        if p >= s.len() {
            return (true, p);
        }
        if !term(s[p], top) {
            p = p + 1;
        } else if s[p] == 0x5c {
            if s.len() - p > 1 && can_escape(s[p + 1]) {
                p = p + 2;
            } else {
                return (false, p + 1);
            }
        } else {
            return (true, p);
        }
    }
}

/// A delimited group (see [`sp_scoped`]).
fn scoped(s: &[u8], p: usize) -> (r: (bool, usize))
    requires
        p <= s@.len(),
    ensures
        (r.0, r.1 as int) == sp_scoped(s@, p as int),
    decreases s@.len() - p, 0int,
{
    if p >= s.len() {
        return (false, p);
    }
    let open = s[p];
    if !(open == 0x28 || open == 0x5b || open == 0x7b) {
        return (false, p + 1);
    }
    let (ok, q) = escaped(s, p + 1, false);
    if !ok {
        return (false, q);
    }
    proof {
        lemma_escaped_bounds(s@, p + 1, false);
    }
    let q2 = rep(s, q, false);
    proof {
        lemma_rep_bounds(s@, q as int, false);
    }
    let close = if open == 0x28 {
        0x29
    } else if open == 0x5b {
        0x5d
    } else {
        0x7d
    };
    if q2 < s.len() && s[q2] == close {
        (true, q2 + 1)
    } else {
        (false, q2)
    }
}

/// Delimited groups followed by text (see [`sp_rep`]).
fn rep(s: &[u8], start: usize, top: bool) -> (r: usize)
    requires
        start <= s@.len(),
    ensures
        r == sp_rep(s@, start as int, top),
    decreases s@.len() - start, 1int,
{
    let mut q = start;
    loop
        invariant
            q <= s@.len(),
            start <= q,
            sp_rep(s@, q as int, top) == sp_rep(s@, start as int, top),
        decreases s@.len() - q,
    {
        let (ok, q1) = scoped(s, q);
        if !ok {
            return q;
        }
        proof {
            lemma_scoped_bounds(s@, q as int);
        }
        let (ok2, q2) = escaped(s, q1, top);
        if !ok2 || q2 <= q {
            return q;
        }
        proof {
            lemma_escaped_bounds(s@, q1 as int, top);
        }
        q = q2;
    }
}

/// Balanced text (see [`sp_balanced`]).
fn balanced(s: &[u8], p: usize) -> (r: (bool, usize))
    requires
        p <= s@.len(),
    ensures
        (r.0, r.1 as int) == sp_balanced(s@, p as int),
{
    let (ok, q) = escaped(s, p, true);
    if !ok {
        return (false, q);
    }
    proof {
        lemma_escaped_bounds(s@, p as int, true);
    }
    (true, rep(s, q, true))
}

/// The next argument (see [`sp_step`]).
fn step(s: &[u8], p: usize, first: bool) -> (r: (Option<Result<(usize, usize), ()>>, usize))
    requires
        p <= s@.len(),
    ensures
        r.1 == sp_step(s@, p as int, first).1,
        match r.0 {
            None => sp_step(s@, p as int, first).0 is None,
            Some(Ok((a, b))) => sp_step(s@, p as int, first).0 == Some(
                Ok::<(int, int), ()>((a as int, b as int)),
            ),
            Some(Err(_)) => sp_step(s@, p as int, first).0 == Some(Err::<(int, int), ()>(())),
        },
{
    if p >= s.len() {
        return (None, p);
    }
    let start = if first {
        p
    } else {
        if s[p] != 0x2c {
            return (Some(Err(())), p);
        }
        let mut p2 = p + 1;
        while p2 < s.len() && (s[p2] == 0x20 || s[p2] == 0x09 || s[p2] == 0x0d || s[p2] == 0x0a)
            invariant
                p < p2 <= s@.len(),
                skip_multispace(s@, p2 as int) == skip_multispace(s@, p + 1),
            decreases s@.len() - p2,
        {
            p2 = p2 + 1;
        }
        p2
    };
    let (ok, q) = balanced(s, start);
    if ok {
        (Some(Ok((start, q))), q)
    } else {
        (Some(Err(())), q)
    }
}

/// How many arguments are left (see [`sp_count`]).
fn count(s: &[u8], start: usize, first_arg: bool) -> (r: usize)
    requires
        start <= s@.len(),
        s@.len() < usize::MAX,
        sp_count(s@, start as int, first_arg) is Some,
    ensures
        r == sp_count(s@, start as int, first_arg)->0,
{
    let mut p = start;
    let mut first = first_arg;
    let mut n: usize = 0;
    loop
        invariant
            p <= s@.len(),
            n <= p + 1,
            s@.len() < usize::MAX,
            sp_count(s@, p as int, first) is Some,
            sp_count(s@, start as int, first_arg)->0 == n + sp_count(s@, p as int, first)->0,
            first ==> n == 0,
        decreases s@.len() - p, if first {
            1int
        } else {
            0int
        },
    {
        proof {
            lemma_step_bounds(s@, p as int, first);
        }
        let (item, q) = step(s, p, first);
        match item {
            None => return n,
            Some(_) => {},
        }
        n = n + 1;
        p = q;
        first = false;
    }
}

/// The spans of the `n` arguments of `s` (see [`sp_args`]).
fn take_args(s: &[u8], n: u32) -> (r: Result<Vec<(usize, usize)>, ArgError>)
    requires
        s@.len() > 0,
        s@.len() + 3 <= usize::MAX,
        n > 0,
        sp_args(s@, n as int) is Some,
    ensures
        match r {
            Ok(v) => sp_args(s@, n as int) == Some(
                Ok::<Seq<(int, int)>, ArgError>(v@.map_values(|x: (usize, usize)| (x.0 as int, x.1 as int))),
            ),
            Err(e) => sp_args(s@, n as int) == Some(Err::<Seq<(int, int)>, ArgError>(e)),
        },
{
    let mut acc: Vec<(usize, usize)> = Vec::new();
    let mut p: usize = 0;
    let mut k: u32 = 0;
    assert(acc@.map_values(|x: (usize, usize)| (x.0 as int, x.1 as int)) =~= Seq::empty());
    while k < n
        invariant
            k <= n,
            p <= s@.len(),
            k <= p + 1,
            s@.len() + 3 <= usize::MAX,
            sp_args(s@, n as int) == sp_take(
                s@,
                p as int,
                k as int,
                n as int,
                acc@.map_values(|x: (usize, usize)| (x.0 as int, x.1 as int)),
            ),
        decreases n - k,
    {
        proof {
            lemma_step_bounds(s@, p as int, k == 0);
        }
        let (item, q) = step(s, p, k == 0);
        match item {
            None => return Err(ArgError::CountMismatch(n, k as usize)),
            Some(Err(_)) => return Err(ArgError::ArgParse),
            Some(Ok(span)) => {
                let ghost before = acc@;
                acc.push(span);
                assert(acc@.map_values(|x: (usize, usize)| (x.0 as int, x.1 as int)) =~= before.map_values(
                    |x: (usize, usize)| (x.0 as int, x.1 as int),
                ).push((span.0 as int, span.1 as int)));
            },
        }
        p = q;
        k = k + 1;
    }
    proof {
        lemma_step_bounds(s@, p as int, false);
    }
    let (item, q) = step(s, p, false);
    match item {
        None => Ok(acc),
        Some(_) => {
            proof {
                lemma_step_bounds(s@, p as int, false);
                lemma_count_bound(s@, q as int, false);
            }
            let rest = count(s, q, false);
            Err(ArgError::CountMismatch(n, n as usize + 1 + rest))
        },
    }
}

/// Each argument but the first reads at least a comma.
proof fn lemma_count_bound(s: Seq<u8>, p: int, first: bool)
    requires
        0 <= p <= s.len(),
    ensures
        sp_count(s, p, first) matches Some(c) ==> c <= s.len() - p + if first {
            1int
        } else {
            0int
        },
    decreases s.len() - p, if first {
        1int
    } else {
        0int
    },
{
    lemma_step_bounds(s, p, first);
    let (item, q) = sp_step(s, p, first);
    if item is Some && p <= q <= s.len() && !(q == p && !first) {
        lemma_count_bound(s, q, false);
    }
}

/// The spans of arguments lie within the text.
proof fn lemma_take_spans(s: Seq<u8>, p: int, k: int, n: int, acc: Seq<(int, int)>)
    requires
        0 <= p <= s.len(),
        forall|j: int| 0 <= j < acc.len() ==> 0 <= (#[trigger] acc[j]).0 <= acc[j].1 <= s.len(),
    ensures
        sp_take(s, p, k, n, acc) matches Some(Ok(spans)) ==> forall|j: int|
            0 <= j < spans.len() ==> 0 <= (#[trigger] spans[j]).0 <= spans[j].1 <= s.len(),
    decreases n - k,
{
    lemma_step_bounds(s, p, k == 0);
    let (item, q) = sp_step(s, p, k == 0);
    if k < n {
        if let Some(Ok(span)) = item {
            if k == 0 {
                lemma_balanced_bounds(s, p);
            } else {
                lemma_skip_multispace(s, p + 1);
                lemma_balanced_bounds(s, skip_multispace(s, p + 1));
            }
            assert forall|j: int| 0 <= j < acc.push(span).len() implies 0 <= (#[trigger] acc.push(
                span,
            )[j]).0 <= acc.push(span)[j].1 <= s.len() by {
                if j < acc.len() {
                    assert(acc.push(span)[j] == acc[j]);
                }
            }
            lemma_take_spans(s, q, k + 1, n, acc.push(span));
        }
    }
}

/// The `n` arguments of `input`, each as its text.
pub fn args<'a>(input: &'a str, n: u32) -> (r: Result<Vec<&'a str>, ArgError>)
    requires
        sp_args(input.spec_bytes(), n as int) is Some,
        input.spec_bytes().len() + 3 <= usize::MAX,
    ensures
        match r {
            Ok(v) => sp_args(input.spec_bytes(), n as int) matches Some(Ok(spans)) && v@.len()
                == spans.len() && forall|i: int|
                0 <= i < spans.len() ==> #[trigger] v@[i].spec_bytes() == input.spec_bytes().subrange(
                    spans[i].0,
                    spans[i].1,
                ),
            Err(e) => sp_args(input.spec_bytes(), n as int) == Some(
                Err::<Seq<(int, int)>, ArgError>(e),
            ),
        },
{
    let s = input.as_bytes();
    if s.len() == 0 {
        if n == 0 {
            return Ok(Vec::new());
        } else {
            return Err(ArgError::CountMismatch(n, 0));
        }
    }
    if n == 0 {
        return Err(ArgError::CountMismatch(0, count(s, 0, true)));
    }
    match take_args(s, n) {
        Err(e) => Err(e),
        Ok(spans) => {
            proof {
                vstd::utf8::encode_utf8_valid_utf8(input@);
                lemma_take_edges(s@, 0, 0, n as int, Seq::empty());
                lemma_take_spans(s@, 0, 0, n as int, Seq::empty());
                let sp = spans@.map_values(|x: (usize, usize)| (x.0 as int, x.1 as int));
                assert(sp_take(s@, 0, 0, n as int, Seq::empty()) == Some(
                    Ok::<Seq<(int, int)>, ArgError>(sp),
                ));
                assert forall|j: int| #![trigger spans@[j]] 0 <= j < spans@.len() implies spans@[j].0
                    <= spans@[j].1 && spans@[j].1 <= s@.len() && ascii_edge(s@, spans@[j].0 as int)
                    && ascii_edge(s@, spans@[j].1 as int) by {
                    assert(sp[j] == (spans@[j].0 as int, spans@[j].1 as int));
                }
            }
            let mut out: Vec<&'a str> = Vec::new();
            let mut i: usize = 0;
            while i < spans.len()
                invariant
                    i <= spans@.len(),
                    s@ == input.spec_bytes(),
                    vstd::utf8::valid_utf8(s@),
                    sp_args(s@, n as int) matches Some(Ok(sp)) && sp == spans@.map_values(
                        |x: (usize, usize)| (x.0 as int, x.1 as int),
                    ),
                    out@.len() == i,
                    forall|j: int| 0 <= j < i ==> #[trigger] out@[j].spec_bytes() == s@.subrange(spans@[j].0 as int, spans@[j].1 as int),
                    forall|j: int|
                        #![trigger spans@[j]]
                        0 <= j < spans@.len() ==> spans@[j].0 <= spans@[j].1 && spans@[j].1 <= s@.len()
                            && ascii_edge(s@, spans@[j].0 as int) && ascii_edge(s@, spans@[j].1 as int),
                decreases spans@.len() - i,
            {
                let (a, b) = spans[i];
                proof {
                    lemma_edge_slice_utf8(s@, a as int, b as int);
                }
                let text = match crate::parse_dsl::str_from_utf8(&s[a..b]) {
                    Some(text) => text,
                    None => {
                        proof {
                            assert(false);
                        }
                        return Err(ArgError::ArgParse);
                    },
                };
                out.push(text);
                i = i + 1;
            }
            Ok(out)
        },
    }
}

/// Successfully read arguments are exactly as many as asked for.
pub proof fn lemma_args_count(s: Seq<u8>, n: int)
    requires
        n >= 0,
    ensures
        sp_args(s, n) matches Some(Ok(spans)) ==> spans.len() == n,
{
    if s.len() > 0 && n > 0 {
        lemma_take_len(s, 0, 0, n, Seq::empty());
    }
}

proof fn lemma_take_len(s: Seq<u8>, p: int, k: int, n: int, acc: Seq<(int, int)>)
    requires
        0 <= k <= n,
    ensures
        sp_take(s, p, k, n, acc) matches Some(Ok(spans)) ==> spans.len() == acc.len() + n - k,
    decreases n - k,
{
    let (item, q) = sp_step(s, p, k == 0);
    if k < n {
        if let Some(Ok(span)) = item {
            lemma_take_len(s, q, k + 1, n, acc.push(span));
        }
    }
}

/// What [`arg0`], [`arg1`], [`arg2`] and [`arg3`] return, as the text of
/// the arguments: the `n` arguments of `s`, or the error.
pub open spec fn arg_texts(s: Seq<u8>, n: int) -> Result<Seq<Seq<u8>>, ArgError> {
    match sp_args(s, n) {
        Some(Ok(spans)) => Ok(spans.map_values(|sp: (int, int)| s.subrange(sp.0, sp.1))),
        Some(Err(e)) => Err(e),
        None => Err(ArgError::ArgParse),
    }
}

/// Whether reading the arguments of `input` ends (it does not when a
/// malformed argument is followed by text that is not an argument).
pub open spec fn args_end(input: &str, n: int) -> bool {
    sp_args(input.spec_bytes(), n) is Some && input.spec_bytes().len() + 3 <= usize::MAX
}

/// No argument.
pub fn arg0(input: &str) -> (r: Result<(), ArgError>)
    requires
        args_end(input, 0),
    ensures
        match r {
            Ok(()) => arg_texts(input.spec_bytes(), 0) == Ok::<Seq<Seq<u8>>, ArgError>(Seq::empty()),
            Err(e) => arg_texts(input.spec_bytes(), 0) == Err::<Seq<Seq<u8>>, ArgError>(e),
        },
{
    proof {
        lemma_args_count(input.spec_bytes(), 0);
    }
    match args(input, 0) {
        Ok(v) => {
            assert(v@.len() == 0);
            proof {
                let spans = sp_args(input.spec_bytes(), 0)->0->Ok_0;
                assert(spans.map_values(|sp: (int, int)| input.spec_bytes().subrange(sp.0, sp.1))
                    =~= Seq::empty());
            }
            Ok(())
        },
        Err(e) => Err(e),
    }
}

/// One argument.
pub fn arg1<'a>(input: &'a str) -> (r: Result<&'a str, ArgError>)
    requires
        args_end(input, 1),
    ensures
        match r {
            Ok(a) => arg_texts(input.spec_bytes(), 1) == Ok::<Seq<Seq<u8>>, ArgError>(
                seq![a.spec_bytes()],
            ),
            Err(e) => arg_texts(input.spec_bytes(), 1) == Err::<Seq<Seq<u8>>, ArgError>(e),
        },
{
    proof {
        lemma_args_count(input.spec_bytes(), 1);
    }
    match args(input, 1) {
        Ok(v) => {
            let a = v[0];
            proof {
                let spans = sp_args(input.spec_bytes(), 1)->0->Ok_0;
                assert(spans.map_values(|sp: (int, int)| input.spec_bytes().subrange(sp.0, sp.1))
                    =~= seq![a.spec_bytes()]);
            }
            Ok(a)
        },
        Err(e) => Err(e),
    }
}

/// Two arguments.
pub fn arg2<'a>(input: &'a str) -> (r: Result<(&'a str, &'a str), ArgError>)
    requires
        args_end(input, 2),
    ensures
        match r {
            Ok((a, b)) => arg_texts(input.spec_bytes(), 2) == Ok::<Seq<Seq<u8>>, ArgError>(
                seq![a.spec_bytes(), b.spec_bytes()],
            ),
            Err(e) => arg_texts(input.spec_bytes(), 2) == Err::<Seq<Seq<u8>>, ArgError>(e),
        },
{
    proof {
        lemma_args_count(input.spec_bytes(), 2);
    }
    match args(input, 2) {
        Ok(v) => {
            let (a, b) = (v[0], v[1]);
            proof {
                let spans = sp_args(input.spec_bytes(), 2)->0->Ok_0;
                assert(spans.map_values(|sp: (int, int)| input.spec_bytes().subrange(sp.0, sp.1))
                    =~= seq![a.spec_bytes(), b.spec_bytes()]);
            }
            Ok((a, b))
        },
        Err(e) => Err(e),
    }
}

/// Three arguments.
pub fn arg3<'a>(input: &'a str) -> (r: Result<(&'a str, &'a str, &'a str), ArgError>)
    requires
        args_end(input, 3),
    ensures
        match r {
            Ok((a, b, c)) => arg_texts(input.spec_bytes(), 3) == Ok::<Seq<Seq<u8>>, ArgError>(
                seq![a.spec_bytes(), b.spec_bytes(), c.spec_bytes()],
            ),
            Err(e) => arg_texts(input.spec_bytes(), 3) == Err::<Seq<Seq<u8>>, ArgError>(e),
        },
{
    proof {
        lemma_args_count(input.spec_bytes(), 3);
    }
    match args(input, 3) {
        Ok(v) => {
            let (a, b, c) = (v[0], v[1], v[2]);
            proof {
                let spans = sp_args(input.spec_bytes(), 3)->0->Ok_0;
                assert(spans.map_values(|sp: (int, int)| input.spec_bytes().subrange(sp.0, sp.1))
                    =~= seq![a.spec_bytes(), b.spec_bytes(), c.spec_bytes()]);
            }
            Ok((a, b, c))
        },
        Err(e) => Err(e),
    }
}

/// Four arguments.
pub fn arg4<'a>(input: &'a str) -> (r: Result<(&'a str, &'a str, &'a str, &'a str), ArgError>)
    requires
        args_end(input, 4),
    ensures
        match r {
            Ok((a, b, c, d)) => arg_texts(input.spec_bytes(), 4) == Ok::<Seq<Seq<u8>>, ArgError>(
                seq![a.spec_bytes(), b.spec_bytes(), c.spec_bytes(), d.spec_bytes()],
            ),
            Err(e) => arg_texts(input.spec_bytes(), 4) == Err::<Seq<Seq<u8>>, ArgError>(e),
        },
{
    proof {
        lemma_args_count(input.spec_bytes(), 4);
    }
    match args(input, 4) {
        Ok(v) => {
            let (a, b, c, d) = (v[0], v[1], v[2], v[3]);
            proof {
                let spans = sp_args(input.spec_bytes(), 4)->0->Ok_0;
                assert(spans.map_values(|sp: (int, int)| input.spec_bytes().subrange(sp.0, sp.1))
                    =~= seq![a.spec_bytes(), b.spec_bytes(), c.spec_bytes(), d.spec_bytes()]);
            }
            Ok((a, b, c, d))
        },
        Err(e) => Err(e),
    }
}

/// Five arguments.
pub fn arg5<'a>(input: &'a str) -> (r: Result<(&'a str, &'a str, &'a str, &'a str, &'a str), ArgError>)
    requires
        args_end(input, 5),
    ensures
        match r {
            Ok((a, b, c, d, e)) => arg_texts(input.spec_bytes(), 5) == Ok::<Seq<Seq<u8>>, ArgError>(
                seq![a.spec_bytes(), b.spec_bytes(), c.spec_bytes(), d.spec_bytes(), e.spec_bytes()],
            ),
            Err(err) => arg_texts(input.spec_bytes(), 5) == Err::<Seq<Seq<u8>>, ArgError>(err),
        },
{
    proof {
        lemma_args_count(input.spec_bytes(), 5);
    }
    match args(input, 5) {
        Ok(v) => {
            let (a, b, c, d, e) = (v[0], v[1], v[2], v[3], v[4]);
            proof {
                let spans = sp_args(input.spec_bytes(), 5)->0->Ok_0;
                assert(spans.map_values(|sp: (int, int)| input.spec_bytes().subrange(sp.0, sp.1))
                    =~= seq![a.spec_bytes(), b.spec_bytes(), c.spec_bytes(), d.spec_bytes(), e.spec_bytes()]);
            }
            Ok((a, b, c, d, e))
        },
        Err(err) => Err(err),
    }
}

// ---------------------------------------------------------------------------
// Law: the ASCII spaces after a separating comma are not part of an argument
// ---------------------------------------------------------------------------

proof fn lemma_skip_multispace_stops(s: Seq<u8>, p: int)
    requires
        0 <= p <= s.len(),
    ensures
        skip_multispace(s, p) == s.len() || !(s[skip_multispace(s, p)] == 0x20 || s[skip_multispace(s, p)]
            == 0x09 || s[skip_multispace(s, p)] == 0x0d || s[skip_multispace(s, p)] == 0x0a),
    decreases s.len() - p,
{
    if p < s.len() && (s[p] == 0x20 || s[p] == 0x09 || s[p] == 0x0d || s[p] == 0x0a) {
        lemma_skip_multispace_stops(s, p + 1);
    }
}

proof fn lemma_take_no_leading_space(s: Seq<u8>, p: int, k: int, n: int, acc: Seq<(int, int)>)
    requires
        0 <= p <= s.len(),
        0 <= k,
        acc.len() == k,
        forall|j: int|
            1 <= j < acc.len() && (#[trigger] acc[j]).0 < acc[j].1 ==> 0 <= acc[j].0 < s.len() && !(
            s[acc[j].0] == 0x20 || s[acc[j].0] == 0x09 || s[acc[j].0] == 0x0d || s[acc[j].0] == 0x0a),
    ensures
        sp_take(s, p, k, n, acc) matches Some(Ok(spans)) ==> forall|j: int|
            1 <= j < spans.len() && (#[trigger] spans[j]).0 < spans[j].1 ==> 0 <= spans[j].0 < s.len()
                && !(s[spans[j].0] == 0x20 || s[spans[j].0] == 0x09 || s[spans[j].0] == 0x0d
                || s[spans[j].0] == 0x0a),
    decreases n - k,
{
    lemma_step_bounds(s, p, k == 0);
    let (item, q) = sp_step(s, p, k == 0);
    if k < n {
        if let Some(Ok(span)) = item {
            if k == 0 {
                lemma_balanced_bounds(s, p);
            } else {
                lemma_skip_multispace(s, p + 1);
                lemma_skip_multispace_stops(s, p + 1);
                lemma_balanced_bounds(s, skip_multispace(s, p + 1));
            }
            let acc2 = acc.push(span);
            assert forall|j: int|
                1 <= j < acc2.len() && (#[trigger] acc2[j]).0 < acc2[j].1 implies 0 <= acc2[j].0
                < s.len() && !(s[acc2[j].0] == 0x20 || s[acc2[j].0] == 0x09 || s[acc2[j].0] == 0x0d
                || s[acc2[j].0] == 0x0a) by {
                if j < acc.len() {
                    assert(acc2[j] == acc[j]);
                }
            }
            lemma_take_no_leading_space(s, q, k + 1, n, acc2);
        }
    }
}

/// After a separating comma, every ASCII space (` `, `\t`, `\r`, `\n`)
/// that follows is skipped: no argument but the first starts with one.
pub proof fn lemma_args_skip_spaces_after_comma(s: Seq<u8>, n: int)
    ensures
        arg_texts(s, n) matches Ok(texts) ==> forall|i: int|
            1 <= i < texts.len() && (#[trigger] texts[i]).len() > 0 ==> !(texts[i][0] == 0x20
                || texts[i][0] == 0x09 || texts[i][0] == 0x0d || texts[i][0] == 0x0a),
{
    if s.len() > 0 && n != 0 {
        lemma_take_no_leading_space(s, 0, 0, n, Seq::empty());
        lemma_take_spans(s, 0, 0, n, Seq::empty());
        if let Some(Ok(spans)) = sp_args(s, n) {
            let texts = spans.map_values(|sp: (int, int)| s.subrange(sp.0, sp.1));
            assert forall|i: int|
                1 <= i < texts.len() && (#[trigger] texts[i]).len() > 0 implies !(texts[i][0] == 0x20
                || texts[i][0] == 0x09 || texts[i][0] == 0x0d || texts[i][0] == 0x0a) by {
                assert(texts[i] == s.subrange(spans[i].0, spans[i].1));
                assert(texts[i][0] == s[spans[i].0]);
            }
        }
    }
}

} // verus!

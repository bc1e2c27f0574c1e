//! Statement lexer over the bytes of a dump file.
//!
//! The dump is line oriented. A line that starts with `--` is a complete
//! [`Statement::Comment`] (its trailing line feed stripped). Every other
//! line belongs to the query being accumulated; the query ends with the
//! first line whose last two bytes are `;` followed by a line feed
//! (terminator included), or at end of input (a trailing statement with no
//! terminator is still emitted). A comment line in the middle of an
//! accumulating query is malformed input and is reported as an error.
//!
//! The spec functions in this module define the token at any byte position
//! of the input; the executable [`StatementStream`] is proved to follow
//! them exactly, so every later pass (segmenting, batching, skipping) can
//! be related to one shared model of the token sequence.

use vstd::prelude::*;
use crate::bytes::copy_range;

verus! {

/// Line feed byte.
pub const LF: u8 = 10;
/// The comment prefix is two of these.
pub const DASH: u8 = 45;
/// Statement terminator byte, just before a line feed.
pub const SEMI: u8 = 59;

/// Position just past the line that starts at `p`: one past the first line
/// feed at or after `p`, or the end of the input if none remains.
pub open spec fn line_end(s: Seq<u8>, p: int) -> int
    decreases s.len() - p,
{
    if p < 0 || p >= s.len() {
        s.len() as int
    } else if s[p] == LF {
        p + 1
    } else {
        line_end(s, p + 1)
    }
}

pub proof fn lemma_line_end_bounds(s: Seq<u8>, p: int)
    requires
        0 <= p < s.len(),
    ensures
        p < line_end(s, p) <= s.len(),
    decreases s.len() - p,
{
    if s[p] == LF {
    } else if p + 1 < s.len() {
        lemma_line_end_bounds(s, p + 1);
    } else {
        assert(line_end(s, p + 1) == s.len());
    }
}

/// The line starting at `p` begins with the two-byte comment prefix.
pub open spec fn is_comment_at(s: Seq<u8>, p: int) -> bool {
    0 <= p && p + 2 <= s.len() && s[p] == DASH && s[p + 1] == DASH
}

/// The line `s[p .. e]` ends with a terminator: `;` then a line feed.
pub open spec fn line_terminated(s: Seq<u8>, p: int, e: int) -> bool {
    p + 2 <= e <= s.len() && 0 <= p && s[e - 2] == SEMI && s[e - 1] == LF
}

/// Continues scanning a query whose accumulated text is non-empty and whose
/// next unread line starts at `m`. Returns the position just past the query,
/// or `None` if a comment line interrupts the query (malformed input).
pub open spec fn query_cont(s: Seq<u8>, m: int) -> Option<int>
    decreases s.len() - m,
{
    if m >= s.len() {
        Some(m)
    } else if is_comment_at(s, m) {
        None
    } else {
        let e = line_end(s, m);
        if line_terminated(s, m, e) {
            Some(e)
        } else {
            proof {
                if 0 <= m {
                    lemma_line_end_bounds(s, m);
                }
            }
            query_cont(s, e)
        }
    }
}

/// Position just past the query that starts at `p` (a non-comment line),
/// or `None` if a comment line interrupts it.
pub open spec fn query_end(s: Seq<u8>, p: int) -> Option<int> {
    let e = line_end(s, p);
    if line_terminated(s, p, e) {
        Some(e)
    } else {
        query_cont(s, e)
    }
}

/// What the lexer finds at a position: end of input, a comment token, a
/// query token, or a comment line interrupting a query (malformed input).
#[derive(Clone, Copy, PartialEq, Eq, Structural, Debug)]
pub enum LexKind {
    End,
    Comment,
    Query,
    Stray,
}

pub open spec fn lex_kind(s: Seq<u8>, p: int) -> LexKind {
    if p < 0 || p >= s.len() {
        LexKind::End
    } else if is_comment_at(s, p) {
        LexKind::Comment
    } else if query_end(s, p) is Some {
        LexKind::Query
    } else {
        LexKind::Stray
    }
}

/// Position of the first byte after the token that starts at `p`.
pub open spec fn lex_next(s: Seq<u8>, p: int) -> int {
    match lex_kind(s, p) {
        LexKind::End => p,
        LexKind::Comment => line_end(s, p),
        LexKind::Query => match query_end(s, p) {
            Some(e) => e,
            None => p,
        },
        LexKind::Stray => p,
    }
}

/// Text of the comment token at `p`: the line without its trailing line feed.
pub open spec fn comment_text(s: Seq<u8>, p: int) -> Seq<u8> {
    let e = line_end(s, p);
    if p < e && s[e - 1] == LF {
        s.subrange(p, e - 1)
    } else {
        s.subrange(p, e)
    }
}

/// Text of the token at `p`: the comment line without its line feed, or the
/// full query text including its terminator.
pub open spec fn lex_text(s: Seq<u8>, p: int) -> Seq<u8> {
    match lex_kind(s, p) {
        LexKind::Comment => comment_text(s, p),
        LexKind::Query => s.subrange(p, lex_next(s, p)),
        _ => Seq::empty(),
    }
}

pub proof fn lemma_query_cont_bounds(s: Seq<u8>, m: int)
    requires
        0 <= m <= s.len(),
    ensures
        query_cont(s, m) matches Some(e) ==> m <= e <= s.len(),
    decreases s.len() - m,
{
    if m >= s.len() {
    } else if is_comment_at(s, m) {
    } else {
        lemma_line_end_bounds(s, m);
        let e = line_end(s, m);
        if line_terminated(s, m, e) {
        } else {
            lemma_query_cont_bounds(s, e);
        }
    }
}

/// A token that is not `End` or `Stray` advances the position.
pub proof fn lemma_lex_next_bounds(s: Seq<u8>, p: int)
    requires
        0 <= p <= s.len(),
    ensures
        lex_kind(s, p) == LexKind::Comment || lex_kind(s, p) == LexKind::Query
            ==> p < lex_next(s, p) <= s.len(),
{
    if p < s.len() {
        lemma_line_end_bounds(s, p);
        let e = line_end(s, p);
        if !is_comment_at(s, p) && !line_terminated(s, p, e) {
            lemma_query_cont_bounds(s, e);
        }
    }
}

/// Unconditional form of the bounds above, convenient inside the
/// termination proofs of spec functions that walk the token sequence.
pub proof fn lemma_step(s: Seq<u8>, p: int)
    ensures
        lex_kind(s, p) == LexKind::Comment || lex_kind(s, p) == LexKind::Query
            ==> 0 <= p < s.len() && p < lex_next(s, p) <= s.len(),
{
    if lex_kind(s, p) == LexKind::Comment || lex_kind(s, p) == LexKind::Query {
        assert(0 <= p < s.len());
        lemma_lex_next_bounds(s, p);
    }
}

/// From `m` to the end of the input every line is plain: no comment line
/// and no terminated line. This is the shape of a dump's trailing statement
/// when the file ends mid-statement.
pub open spec fn plain_tail(s: Seq<u8>, m: int) -> bool
    decreases s.len() - m,
{
    if m >= s.len() {
        true
    } else if is_comment_at(s, m) || line_terminated(s, m, line_end(s, m)) {
        false
    } else {
        proof {
            if 0 <= m {
                lemma_line_end_bounds(s, m);
            }
        }
        plain_tail(s, line_end(s, m))
    }
}

proof fn lemma_plain_cont(s: Seq<u8>, m: int)
    requires
        0 <= m <= s.len(),
        plain_tail(s, m),
    ensures
        query_cont(s, m) == Some(s.len() as int),
    decreases s.len() - m,
{
    if m < s.len() {
        lemma_line_end_bounds(s, m);
        lemma_plain_cont(s, line_end(s, m));
    }
}

/// A dump that ends mid-statement, with no trailing terminator, still
/// yields the trailing text as one complete query token: the token at the
/// start of a plain tail is a query that reaches the end of the input.
pub proof fn lemma_eof_flush(s: Seq<u8>, p: int)
    requires
        0 <= p < s.len(),
        plain_tail(s, p),
    ensures
        lex_kind(s, p) == LexKind::Query,
        lex_next(s, p) == s.len(),
        lex_text(s, p) == s.subrange(p, s.len() as int),
{
    lemma_line_end_bounds(s, p);
    lemma_plain_cont(s, line_end(s, p));
}

/// A token of the dump: a single comment line (without its line feed) or a
/// query statement (terminator included when present).
#[derive(Clone, PartialEq, Eq, Debug)]
pub enum Statement {
    Comment(Vec<u8>),
    Query(Vec<u8>),
}

/// The one way lexing can fail: a comment line appeared in the middle of a
/// multi-line statement, which the dump format forbids.
#[derive(Clone, Copy, PartialEq, Eq, Structural, Debug)]
pub enum LexError {
    CommentInsideQuery,
}

/// What one call of [`StatementStream::next_statement`] returns, given the
/// input `s`, the cursor `p` before the call and the cursor `p2` after it.
pub open spec fn lex_step_post(
    s: Seq<u8>,
    p: int,
    p2: int,
    r: Option<Result<(u64, Statement), LexError>>,
) -> bool {
    match lex_kind(s, p) {
        LexKind::End => r is None && p2 == p,
        LexKind::Comment => {
            &&& p2 == lex_next(s, p)
            &&& r matches Some(Ok((off, st))) && off == p && (st matches Statement::Comment(c)
                && c@ == lex_text(s, p))
        },
        LexKind::Query => {
            &&& p2 == lex_next(s, p)
            &&& r matches Some(Ok((off, st))) && off == p && (st matches Statement::Query(q)
                && q@ == lex_text(s, p))
        },
        LexKind::Stray => {
            &&& p2 == p
            &&& r matches Some(Err(e)) && e == LexError::CommentInsideQuery
        },
    }
}

/// Streams [`Statement`]s out of the bytes of a dump, reporting for each the
/// byte offset at which it starts. `new_at` opens the stream at a saved
/// offset, which is how a table segment is re-read.
pub struct StatementStream {
    input: Vec<u8>,
    pos: usize,
}

impl StatementStream {
    /// The full input this stream reads from.
    pub closed spec fn src(self) -> Seq<u8> {
        self.input@
    }

    /// The byte position of the next unread token.
    pub closed spec fn cursor(self) -> int {
        self.pos as int
    }

    pub open spec fn wf(self) -> bool {
        0 <= self.cursor() <= self.src().len() && self.src().len() <= usize::MAX
    }

    pub fn new(input: Vec<u8>) -> (r: Self)
        ensures
            r.src() == input@,
            r.cursor() == 0,
            r.wf(),
    {
        let n = input.len();
        assert(n <= usize::MAX);
        StatementStream { input, pos: 0 }
    }

    /// Opens the stream positioned at `offset`, as a worker does when it
    /// replays one table segment.
    pub fn new_at(input: Vec<u8>, offset: u64) -> (r: Self)
        requires
            offset <= input@.len(),
        ensures
            r.src() == input@,
            r.cursor() == offset,
            r.wf(),
    {
        let n = input.len();
        assert(offset <= n);
        StatementStream { input, pos: offset as usize }
    }

    /// The current read position, the offset of the next unread token.
    pub fn position(&self) -> (r: u64)
        ensures
            r == self.cursor(),
    {
        self.pos as u64
    }

    /// Hands the input bytes back when the stream is no longer needed.
    pub fn into_inner(self) -> (r: Vec<u8>)
        ensures
            r@ == self.src(),
    {
        self.input
    }

    /// Finds the position just past the line starting at `from`.
    fn find_line_end(&self, from: usize) -> (e: usize)
        requires
            from <= self.src().len(),
        ensures
            e == line_end(self.src(), from as int),
    {
        let mut i: usize = from;
        while i < self.input.len()
            invariant
                from <= i <= self.src().len(),
                line_end(self.src(), from as int) == line_end(self.src(), i as int),
            decreases self.src().len() - i,
        {
            if self.input[i] == LF {
                return i + 1;
            }
            i = i + 1;
        }
        i
    }

    /// Returns the next token and the byte offset where it starts, `None` at
    /// a clean end of input, or an error if a comment line interrupts a
    /// multi-line statement (the cursor then stays where it was).
    pub fn next_statement(&mut self) -> (r: Option<Result<(u64, Statement), LexError>>)
        requires
            old(self).wf(),
        ensures
            final(self).src() == old(self).src(),
            final(self).wf(),
            lex_step_post(old(self).src(), old(self).cursor(), final(self).cursor(), r),
    {
        let ghost s = self.input@;
        let ghost p0 = self.pos as int;
        if self.pos >= self.input.len() {
            return None;
        }
        proof {
            lemma_line_end_bounds(s, p0);
        }
        if self.pos + 1 < self.input.len() && self.input[self.pos] == DASH
            && self.input[self.pos + 1] == DASH {
            // A comment line is a complete token by itself.
            let e = self.find_line_end(self.pos);
            let text_end = if self.input[e - 1] == LF { e - 1 } else { e };
            let c = copy_range(&self.input, self.pos, text_end);
            let off = self.pos as u64;
            self.pos = e;
            return Some(Ok((off, Statement::Comment(c))));
        }
        assert(!is_comment_at(s, p0));
        // A query: accumulate whole lines until one ends with `;` + line feed,
        // or the input ends.
        let e1 = self.find_line_end(self.pos);
        let mut end: usize = e1;
        if e1 - self.pos >= 2 && self.input[e1 - 2] == SEMI && self.input[e1 - 1] == LF {
            assert(line_terminated(s, p0, e1 as int));
        } else {
            assert(query_end(s, p0) == query_cont(s, e1 as int));
            let mut m: usize = e1;
            loop
                invariant_except_break
                    s == old(self).src(),
                    p0 == old(self).cursor(),
                    self.input@ == s,
                    self.pos as int == p0,
                    0 <= p0 < s.len(),
                    !is_comment_at(s, p0),
                    p0 < m as int <= s.len(),
                    query_end(s, p0) == query_cont(s, m as int),
                ensures
                    self.input@ == s,
                    self.pos as int == p0,
                    query_end(s, p0) == Some(end as int),
                    p0 < end as int <= s.len(),
                decreases s.len() - m,
            {
                if m >= self.input.len() {
                    end = m;
                    break;
                }
                if m + 1 < self.input.len() && self.input[m] == DASH
                    && self.input[m + 1] == DASH {
                    assert(is_comment_at(s, m as int));
                    assert(query_cont(s, m as int) is None);
                    assert(lex_kind(s, p0) == LexKind::Stray);
                    return Some(Err(LexError::CommentInsideQuery));
                }
                assert(!is_comment_at(s, m as int));
                proof {
                    lemma_line_end_bounds(s, m as int);
                }
                let e = self.find_line_end(m);
                if e - m >= 2 && self.input[e - 2] == SEMI && self.input[e - 1] == LF {
                    assert(line_terminated(s, m as int, e as int));
                    end = e;
                    break;
                }
                assert(!line_terminated(s, m as int, e as int));
                m = e;
            }
        }
        assert(lex_kind(s, p0) == LexKind::Query);
        assert(lex_next(s, p0) == end as int);
        let q = copy_range(&self.input, self.pos, end);
        let off = self.pos as u64;
        self.pos = end;
        return Some(Ok((off, Statement::Query(q))));
    }
}

} // verus!

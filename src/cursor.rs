//! The cursor over a token sequence: lookahead, conditional consumption, and
//! a frozen resumption point that a sub-parser turns back into a cursor.
use vstd::prelude::*;

use crate::lexer::{Tok, Token, TokenSized};

verus! {

/// How deeply arrays and inline tables may nest.
pub const MAX_DEPTH: usize = 128;

/// A line and a column, counted from zero.
#[derive(Clone, Copy, Debug, PartialEq, Eq)]
pub struct RIndex {
    pub line: usize,
    pub col: usize,
}

impl RIndex {
    /// The start of the input.
    pub fn new() -> (r: Self)
        ensures
            r.line == 0 && r.col == 0,
    {
        RIndex { line: 0, col: 0 }
    }

    /// The location after a token of `len` bytes: a line break starts a new
    /// line, anything else moves along the line (both saturate).
    pub open spec fn after(self, tok: Tok, len: usize) -> RIndex {
        if tok is LineBreak {
            RIndex { line: self.line.saturating_add(1), col: 0 }
        } else {
            RIndex { line: self.line, col: self.col.saturating_add(len) }
        }
    }

    /// The location after a token of `len` bytes.
    pub fn advance(self, tok: &Token, len: usize) -> (r: Self)
        ensures
            r == self.after(tok@, len),
    {
        match tok {
            Token::LineBreak => RIndex { line: self.line.saturating_add(1), col: 0 },
            _ => RIndex { line: self.line, col: self.col.saturating_add(len) },
        }
    }
}

/// The location reached from `idx` over the tokens `ts[from..to]`.
pub open spec fn index_over(idx: RIndex, ts: Seq<TokenSized>, from: int, to: int) -> RIndex
    decreases to - from,
{
    if to <= from {
        idx
    } else {
        index_over(idx, ts, from, to - 1).after(ts[to - 1].0@, ts[to - 1].1)
    }
}

/// A frozen cursor: the tokens, the position reached, the location there, and
/// the nesting budget left.
#[derive(Clone, Copy, Debug)]
pub struct RSlice<'a> {
    pub slice: &'a [TokenSized],
    pub pos: usize,
    pub index: RIndex,
    pub depth: usize,
}

/// A cursor over a token sequence.
#[derive(Clone, Copy, Debug)]
pub struct RIter<'a> {
    pub tokens: &'a [TokenSized],
    pub pos: usize,
    pub index: RIndex,
    pub depth: usize,
}

impl<'a> RSlice<'a> {
    /// The position lies within the tokens.
    pub open spec fn wf(&self) -> bool {
        self.pos <= self.slice@.len()
    }

    /// The tokens, as mathematical tokens.
    pub open spec fn toks(&self) -> Seq<Tok> {
        crate::lexer::toks_view(self.slice@)
    }
}

impl<'a> RIter<'a> {
    /// The position lies within the tokens.
    pub open spec fn wf(&self) -> bool {
        self.pos <= self.tokens@.len()
    }

    /// The tokens, as mathematical tokens.
    pub open spec fn toks(&self) -> Seq<Tok> {
        crate::lexer::toks_view(self.tokens@)
    }

    /// Same tokens and nesting budget as `other`.
    pub open spec fn same_run(&self, other: RIter<'a>) -> bool {
        self.tokens@ == other.tokens@ && self.depth == other.depth
    }

    /// A cursor at the start of `slice`, with the full nesting budget.
    pub fn new(slice: &'a [TokenSized]) -> (r: Self)
        ensures
            r.wf(),
            r.tokens@ == slice@,
            r.pos == 0,
            r.depth == MAX_DEPTH,
            r.index.line == 0 && r.index.col == 0,
    {
        RIter { tokens: slice, pos: 0, index: RIndex::new(), depth: MAX_DEPTH }
    }

    /// The resumption point of this cursor.
    pub fn as_slice(&self) -> (r: RSlice<'a>)
        ensures
            r.slice@ == self.tokens@,
            r.pos == self.pos,
            r.index == self.index,
            r.depth == self.depth,
    {
        RSlice { slice: self.tokens, pos: self.pos, index: self.index, depth: self.depth }
    }

    /// A cursor that continues exactly where `slice` stopped.
    pub fn from(slice: RSlice<'a>) -> (r: Self)
        ensures
            r.tokens@ == slice.slice@,
            r.pos == slice.pos,
            r.index == slice.index,
            r.depth == slice.depth,
    {
        RIter { tokens: slice.slice, pos: slice.pos, index: slice.index, depth: slice.depth }
    }

    /// The next token, not consumed.
    pub fn peek(&self) -> (r: Option<&'a TokenSized>)
        requires
            self.wf(),
        ensures
            self.pos < self.tokens@.len() ==> r == Some(&self.tokens@[self.pos as int]),
            self.pos >= self.tokens@.len() ==> r is None,
    {
        if self.pos < self.tokens.len() {
            Some(&self.tokens[self.pos])
        } else {
            None
        }
    }

    /// The next token, consumed; the location moves past it.
    pub fn next(&mut self) -> (r: Option<&'a TokenSized>)
        requires
            old(self).wf(),
        ensures
            final(self).wf(),
            final(self).same_run(*old(self)),
            old(self).pos < old(self).tokens@.len() ==> r == Some(&old(self).tokens@[old(self).pos as int])
                && final(self).pos == old(self).pos + 1 && final(self).index == old(self).index.after(
                old(self).tokens@[old(self).pos as int].0@,
                old(self).tokens@[old(self).pos as int].1,
            ),
            old(self).pos >= old(self).tokens@.len() ==> r is None && final(self).pos == old(self).pos
                && final(self).index == old(self).index,
    {
        if self.pos < self.tokens.len() {
            let t = &self.tokens[self.pos];
            self.index = self.index.advance(&t.0, t.1);
            self.pos = self.pos + 1;
            Some(t)
        } else {
            None
        }
    }

    /// Consumes the next token only where it equals `token`.
    pub fn next_if_eq(&mut self, token: &Token) -> (r: bool)
        requires
            old(self).wf(),
        ensures
            final(self).wf(),
            final(self).same_run(*old(self)),
            r == (old(self).pos < old(self).tokens@.len() && old(self).toks()[old(self).pos as int]
                == token@),
            r ==> final(self).pos == old(self).pos + 1,
            !r ==> final(self).pos == old(self).pos,
    {
        match self.peek() {
            Some(t) => {
                if t.0.same(token) {
                    self.next();
                    true
                } else {
                    false
                }
            },
            None => false,
        }
    }

    /// Moves to `pos`, bringing the location along over the tokens passed.
    pub fn advance_to(&mut self, pos: usize)
        requires
            old(self).wf(),
            old(self).pos <= pos <= old(self).tokens@.len(),
        ensures
            final(self).wf(),
            final(self).same_run(*old(self)),
            final(self).pos == pos,
            final(self).index == index_over(old(self).index, old(self).tokens@, old(self).pos as int, pos as int),
    {
        while self.pos < pos
            invariant
                self.wf(),
                self.same_run(*old(self)),
                old(self).pos <= self.pos <= pos <= self.tokens@.len(),
                self.index == index_over(old(self).index, old(self).tokens@, old(self).pos as int, self.pos as int),
            decreases pos - self.pos,
        {
            self.next();
        }
    }
}

} // verus!

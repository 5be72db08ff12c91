//! The errors of a parse, each with the place where it was found.
use vstd::prelude::*;

use crate::cursor::{RIndex, RIter};
use crate::lexer::{Tok, Token};

verus! {

/// Where an error was found: the position in the input, and the token there.
#[derive(Debug, Clone, PartialEq, Eq)]
pub struct ErrLocation {
    pub index: RIndex,
    pub token: Token,
}

impl ErrLocation {
    /// The next token of `iter` (an empty literal at the end of input), and
    /// the location that `iter` reaches once that token is consumed.
    pub fn new(iter: RIter) -> (r: Self)
        requires
            iter.wf(),
        ensures
            iter.pos < iter.tokens@.len() ==> r.token@ == iter.tokens@[iter.pos as int].0@
                && r.index == iter.index.after(
                iter.tokens@[iter.pos as int].0@,
                iter.tokens@[iter.pos as int].1,
            ),
            iter.pos >= iter.tokens@.len() ==> r.token@ == Tok::Lit(Seq::empty()) && r.index
                == iter.index,
    {
        let mut iter = iter;
        let token = match iter.next() {
            Some(t) => t.0.clone_token(),
            None => Token::Literal(Vec::new()),
        };
        ErrLocation { index: iter.index, token }
    }
}

/// The kinds of failure, without their locations.
pub enum ErrKind {
    UnknownEscapeSequence,
    NameUsed,
    CannotParseValue,
    UnspecifiedValue,
    Utf8Error,
    /// With the tokens that would have been accepted.
    UnexpectedCharacter(Seq<Tok>),
    NestingTooDeep,
}

/// A failed parse.
#[derive(Debug, Clone, PartialEq, Eq)]
pub enum TomlError {
    /// An escape sequence that names no character.
    UnknownEscapeSequence(ErrLocation),
    /// A key declared twice in one table.
    NameUsed(ErrLocation),
    /// A literal that is no number, boolean or date.
    CannotParseValue(ErrLocation),
    /// A value position with no value.
    UnspecifiedValue(ErrLocation),
    /// Input that is not UTF-8.
    Utf8Error,
    /// A token where others were expected (listed).
    UnexpectedCharacter(ErrLocation, Vec<Token>),
    /// Arrays and inline tables nested deeper than the parser allows.
    NestingTooDeep(ErrLocation),
}

impl TomlError {
    /// `UnexpectedCharacter` at `loc`, where only `t` would have been accepted.
    pub fn unexpected_one(loc: ErrLocation, t: Token) -> (e: TomlError)
        ensures
            e.kind() == ErrKind::UnexpectedCharacter(seq![t@]),
    {
        let ghost tv = t@;
        let mut v: Vec<Token> = Vec::new();
        v.push(t);
        assert(v@.map_values(|x: Token| x@) =~= seq![tv]);
        TomlError::UnexpectedCharacter(loc, v)
    }

    /// `UnexpectedCharacter` at `loc`, where `a` or `b` would have been accepted.
    pub fn unexpected_two(loc: ErrLocation, a: Token, b: Token) -> (e: TomlError)
        ensures
            e.kind() == ErrKind::UnexpectedCharacter(seq![a@, b@]),
    {
        let ghost av = a@;
        let ghost bv = b@;
        let mut v: Vec<Token> = Vec::new();
        v.push(a);
        v.push(b);
        assert(v@.map_values(|x: Token| x@) =~= seq![av, bv]);
        TomlError::UnexpectedCharacter(loc, v)
    }

    /// The kind of this error.
    pub open spec fn kind(&self) -> ErrKind {
        match self {
            TomlError::UnknownEscapeSequence(_) => ErrKind::UnknownEscapeSequence,
            TomlError::NameUsed(_) => ErrKind::NameUsed,
            TomlError::CannotParseValue(_) => ErrKind::CannotParseValue,
            TomlError::UnspecifiedValue(_) => ErrKind::UnspecifiedValue,
            TomlError::Utf8Error => ErrKind::Utf8Error,
            TomlError::UnexpectedCharacter(_, v) => ErrKind::UnexpectedCharacter(
                v@.map_values(|t: Token| t@),
            ),
            TomlError::NestingTooDeep(_) => ErrKind::NestingTooDeep,
        }
    }
}

} // verus!

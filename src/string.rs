//! Quoted strings: basic (double quote) with escapes, literal (single quote)
//! without, each single-line or multiline (three quotes).
use vstd::prelude::*;

use crate::chars::{trim, trim_start, trimmed_start};
use crate::cursor::{RIter, RSlice};
use crate::error::{ErrKind, ErrLocation, TomlError};
use crate::lexer::{string_of, tok_char, Tok, Token};
use crate::num::{all_digits, digit_of, digits_value};
use crate::parser::ParsedValue;
use crate::{TomlValue, Val};

verus! {

// ---------------------------------------------------------------------------
// Escapes

/// A Unicode scalar value: at most `0x10FFFF` and no surrogate.
pub open spec fn is_scalar(v: nat) -> bool {
    v <= 0x10FFFF && !(0xD800 <= v && v <= 0xDFFF)
}

/// The character whose scalar value is `v`.
pub open spec fn scalar_char(v: nat) -> char {
    (v as u32) as char
}

/// The character that `\x` names for the single-letter escapes.
pub open spec fn named_escape(c: char) -> Option<char> {
    if c == 'b' {
        Some('\x08')
    } else if c == 't' {
        Some('\t')
    } else if c == 'n' {
        Some('\n')
    } else if c == 'f' {
        Some('\x0C')
    } else if c == 'r' {
        Some('\r')
    } else {
        None
    }
}

/// The character written by the `n` hex digits that follow `s[0]`, if they are
/// there and name a scalar value.
pub open spec fn unicode_escape(s: Seq<char>, n: int) -> Option<char> {
    if s.len() < n + 1 {
        None
    } else {
        let h = s.subrange(1, n + 1);
        if all_digits(h, 16) && is_scalar(digits_value(h, 16)) {
            Some(scalar_char(digits_value(h, 16)))
        } else {
            None
        }
    }
}

/// The text that a literal span right after a backslash stands for: the
/// escape its first character starts (`\uXXXX`, `\UXXXXXXXX`, or one of
/// `b t n f r`), followed by the rest of the span.
pub open spec fn escape_text(s: Seq<char>) -> Result<Seq<char>, ErrKind> {
    if s.len() == 0 {
        Err(ErrKind::CannotParseValue)
    } else if s[0] == 'u' {
        match unicode_escape(s, 4) {
            Some(c) => Ok(seq![c] + s.subrange(5, s.len() as int)),
            None => Err(ErrKind::UnknownEscapeSequence),
        }
    } else if s[0] == 'U' {
        match unicode_escape(s, 8) {
            Some(c) => Ok(seq![c] + s.subrange(9, s.len() as int)),
            None => Err(ErrKind::UnknownEscapeSequence),
        }
    } else {
        match named_escape(s[0]) {
            Some(c) => Ok(seq![c] + s.subrange(1, s.len() as int)),
            None => Err(ErrKind::UnknownEscapeSequence),
        }
    }
}

/// A literal of white space only.
pub open spec fn is_blank_lit(t: Tok) -> bool {
    t matches Tok::Lit(s) && trim(s).len() == 0
}

// ---------------------------------------------------------------------------
// Bodies

/// The rest of a basic string from token `i`, with `acc` read so far: the text
/// and the position after the closing quotes. `trimming` is set after a
/// backslash that ends a line (directly, or after white space only): white space and line breaks are then skipped,
/// and the next literal loses its leading white space.
pub open spec fn basic_body(toks: Seq<Tok>, i: int, ml: bool, trimming: bool, acc: Seq<char>) -> Result<
    (Seq<char>, int),
    ErrKind,
>
    decreases toks.len() - i, if trimming { 1int } else { 0int },
{
    if i < 0 || i >= toks.len() {
        Err(ErrKind::UnexpectedCharacter(seq![Tok::DoubleQuote]))
    } else if trimming {
        match toks[i] {
            Tok::LineBreak => basic_body(toks, i + 1, ml, true, acc),
            Tok::Lit(s) => {
                if trim(s).len() == 0 {
                    basic_body(toks, i + 1, ml, true, acc)
                } else {
                    basic_body(toks, i + 1, ml, false, acc + trim_start(s))
                }
            },
            _ => basic_body(toks, i, ml, false, acc),
        }
    } else {
        match toks[i] {
            Tok::DoubleQuote => {
                if !ml {
                    Ok((acc, i + 1))
                } else if i + 2 < toks.len() && toks[i + 1] == Tok::DoubleQuote && toks[i + 2]
                    == Tok::DoubleQuote {
                    Ok((acc, i + 3))
                } else {
                    basic_body(toks, i + 1, ml, false, acc.push('"'))
                }
            },
            Tok::BackSlash => {
                if i + 1 >= toks.len() {
                    Err(ErrKind::UnexpectedCharacter(seq![Tok::DoubleQuote]))
                } else {
                    match toks[i + 1] {
                        Tok::Lit(s) => {
                            if trim(s).len() == 0 {
                                if i + 2 < toks.len() && toks[i + 2] == Tok::LineBreak {
                                    basic_body(toks, i + 2, ml, true, acc)
                                } else {
                                    Err(ErrKind::UnknownEscapeSequence)
                                }
                            } else {
                                match escape_text(s) {
                                    Ok(e) => basic_body(toks, i + 2, ml, false, acc + e),
                                    Err(k) => Err(k),
                                }
                            }
                        },
                        Tok::DoubleQuote => basic_body(toks, i + 2, ml, false, acc.push('"')),
                        Tok::BackSlash => basic_body(toks, i + 2, ml, false, acc.push('\\')),
                        Tok::LineBreak => basic_body(toks, i + 2, ml, true, acc),
                        _ => Err(ErrKind::UnknownEscapeSequence),
                    }
                }
            },
            Tok::LineBreak => {
                if !ml {
                    Err(ErrKind::UnexpectedCharacter(seq![Tok::DoubleQuote]))
                } else {
                    basic_body(toks, i + 1, ml, false, acc.push('\n'))
                }
            },
            Tok::Lit(s) => basic_body(toks, i + 1, ml, false, acc + s),
            t => basic_body(toks, i + 1, ml, false, acc.push(tok_char(t))),
        }
    }
}

/// The rest of a literal string from token `i`: every token is text up to the
/// closing quotes.
pub open spec fn literal_body(toks: Seq<Tok>, i: int, ml: bool, acc: Seq<char>) -> Result<
    (Seq<char>, int),
    ErrKind,
>
    decreases toks.len() - i,
{
    if i < 0 || i >= toks.len() {
        Err(ErrKind::UnexpectedCharacter(seq![Tok::SingleQuote]))
    } else {
        match toks[i] {
            Tok::SingleQuote => {
                if !ml {
                    Ok((acc, i + 1))
                } else if i + 2 < toks.len() && toks[i + 1] == Tok::SingleQuote && toks[i + 2]
                    == Tok::SingleQuote {
                    Ok((acc, i + 3))
                } else {
                    literal_body(toks, i + 1, ml, acc.push('\''))
                }
            },
            Tok::LineBreak => {
                if !ml {
                    Err(ErrKind::UnexpectedCharacter(seq![Tok::SingleQuote]))
                } else {
                    literal_body(toks, i + 1, ml, acc.push('\n'))
                }
            },
            Tok::Lit(s) => literal_body(toks, i + 1, ml, acc + s),
            t => literal_body(toks, i + 1, ml, acc.push(tok_char(t))),
        }
    }
}

/// Where the body of a string opened just before `p` starts, and whether it is
/// multiline; `None` for an empty string closed at `p`. Three quotes open a
/// multiline string, whose first line break is dropped.
pub open spec fn string_start(toks: Seq<Tok>, p: int, quote: Tok) -> Option<(int, bool)> {
    if p < toks.len() && toks[p] == quote {
        if p + 1 < toks.len() && toks[p + 1] == quote {
            if p + 2 < toks.len() && toks[p + 2] == Tok::LineBreak {
                Some((p + 3, true))
            } else {
                Some((p + 2, true))
            }
        } else {
            None
        }
    } else {
        Some((p, false))
    }
}

/// A string whose opening quote `quote` stands just before `p`: its text and
/// the position after it.
pub open spec fn string_value(toks: Seq<Tok>, p: int, quote: Tok) -> Result<(Val, int), ErrKind> {
    match string_start(toks, p, quote) {
        None => Ok((Val::Str(Seq::empty()), p + 1)),
        Some((start, ml)) => {
            let body = if quote == Tok::SingleQuote {
                literal_body(toks, start, ml, Seq::empty())
            } else {
                basic_body(toks, start, ml, false, Seq::empty())
            };
            match body {
                Ok((s, j)) => Ok((Val::Str(s), j)),
                Err(k) => Err(k),
            }
        },
    }
}

// ---------------------------------------------------------------------------
// Executable parts

/// Relies on `char::from_u32`: a character exactly for a scalar value, and that one.
#[verifier::external_body]
fn char_from_u32(v: u32) -> (r: Option<char>)
    ensures
        r is Some <==> is_scalar(v as nat),
        r matches Some(c) ==> c as u32 == v,
{
    char::from_u32(v)
}

/// Appends `s` to `acc`.
fn push_all(acc: &mut Vec<char>, s: &Vec<char>, from: usize)
    requires
        from <= s@.len(),
    ensures
        final(acc)@ == old(acc)@ + s@.subrange(from as int, s@.len() as int),
{
    let mut k: usize = from;
    while k < s.len()
        invariant
            from <= k <= s@.len(),
            acc@ == old(acc)@ + s@.subrange(from as int, k as int),
        decreases s@.len() - k,
    {
        acc.push(s[k]);
        k = k + 1;
        assert(acc@ =~= old(acc)@ + s@.subrange(from as int, k as int));
    }
}

/// The character that a single-letter escape names; an error for any other letter.
pub fn escape<'a>(c: Option<char>, slice: RSlice<'a>) -> (r: Result<char, TomlError>)
    requires
        slice.wf(),
    ensures
        c is None ==> (r matches Err(e) && e.kind() == ErrKind::CannotParseValue),
        c matches Some(x) ==> match named_escape(x) {
            Some(y) => r == Ok::<char, TomlError>(y),
            None => (r matches Err(e) && e.kind() == ErrKind::UnknownEscapeSequence),
        },
{
    match c {
        Some('b') => Ok('\x08'),
        Some('t') => Ok('\t'),
        Some('n') => Ok('\n'),
        Some('f') => Ok('\x0C'),
        Some('r') => Ok('\r'),
        Some(_) => Err(TomlError::UnknownEscapeSequence(ErrLocation::new(RIter::from(slice)))),
        None => Err(TomlError::CannotParseValue(ErrLocation::new(RIter::from(slice)))),
    }
}

/// The character that the hex digits `s[1..n + 1]` name.
pub fn get_char_from_scalar<'a>(s: &Vec<char>, n: usize, slice: RSlice<'a>) -> (r: Result<
    char,
    TomlError,
>)
    requires
        slice.wf(),
        n == 4 || n == 8,
    ensures
        match unicode_escape(s@, n as int) {
            Some(c) => r == Ok::<char, TomlError>(c),
            None => (r matches Err(e) && e.kind() == ErrKind::UnknownEscapeSequence),
        },
{
    if s.len() < n + 1 {
        return Err(TomlError::UnknownEscapeSequence(ErrLocation::new(RIter::from(slice))));
    }
    let ghost h = s@.subrange(1, n + 1);
    let mut v: u32 = 0;
    let mut k: usize = 1;
    assert(h.subrange(0, 0) =~= Seq::<char>::empty());
    while k <= n
        invariant
            1 <= k <= n + 1,
            slice.wf(),
            n == 4 || n == 8,
            n + 1 <= s@.len(),
            h == s@.subrange(1, n + 1),
            all_digits(h.subrange(0, k - 1), 16),
            v == digits_value(h.subrange(0, k - 1), 16),
            v < pow16(k - 1),
        decreases n + 1 - k,
    {
        let c = s[k];
        assert(h[k - 1] == c);
        let d: u32 = if '0' <= c && c <= '9' {
            (c as u32) - ('0' as u32)
        } else if 'a' <= c && c <= 'f' {
            (c as u32) - ('a' as u32) + 10
        } else if 'A' <= c && c <= 'F' {
            (c as u32) - ('A' as u32) + 10
        } else {
            assert(digit_of(h[k - 1], 16) is None);
            return Err(TomlError::UnknownEscapeSequence(ErrLocation::new(RIter::from(slice))));
        };
        assert(h.subrange(0, k as int).drop_last() =~= h.subrange(0, k - 1));
        proof {
            lemma_pow16_step(k - 1);
            assert(v * 16 + d < pow16(k as int)) by (nonlinear_arith)
                requires
                    v < pow16(k - 1),
                    d < 16,
                    pow16(k as int) == pow16(k - 1) * 16,
            ;
            lemma_pow16_bound(k as int);
            assert forall|i: int| 0 <= i < k implies digit_of(
                #[trigger] h.subrange(0, k as int)[i],
                16,
            ) is Some by {
                if i < k - 1 {
                    assert(h.subrange(0, k as int)[i] == h.subrange(0, k - 1)[i]);
                }
            }
        }
        v = v * 16 + d;
        k = k + 1;
    }
    assert(h.subrange(0, n as int) =~= h);
    match char_from_u32(v) {
        Some(c) => {
            proof {
                vstd::utf8::char_u32_cast(c, v);
            }
            Ok(c)
        },
        None => Err(TomlError::UnknownEscapeSequence(ErrLocation::new(RIter::from(slice)))),
    }
}

/// `16^k`.
pub open spec fn pow16(k: int) -> nat
    decreases k,
{
    if k <= 0 {
        1
    } else {
        16 * pow16(k - 1)
    }
}

proof fn lemma_pow16_step(k: int)
    requires
        k >= 0,
    ensures
        pow16(k + 1) == pow16(k) * 16,
{
}

proof fn lemma_pow16_bound(k: int)
    requires
        0 <= k <= 8,
    ensures
        pow16(k) <= 0x1_0000_0000,
    decreases k,
{
    if k > 0 {
        lemma_pow16_bound(k - 1);
        reveal_with_fuel(pow16, 9);
    }
}

/// Appends what a literal span right after a backslash stands for.
fn push_escaped(s: &Vec<char>, acc: &mut Vec<char>, slice: RSlice) -> (r: Result<(), TomlError>)
    requires
        slice.wf(),
    ensures
        match escape_text(s@) {
            Ok(e) => r is Ok && final(acc)@ == old(acc)@ + e,
            Err(k) => r matches Err(x) && x.kind() == k,
        },
{
    if s.len() == 0 {
        return Err(escape(None, slice).unwrap_err());
    }
    let c = s[0];
    if c == 'u' || c == 'U' {
        let n: usize = if c == 'u' {
            4
        } else {
            8
        };
        let ch = get_char_from_scalar(s, n, slice)?;
        acc.push(ch);
        push_all(acc, s, n + 1);
        assert(acc@ =~= old(acc)@ + (seq![ch] + s@.subrange(n + 1, s@.len() as int)));
        Ok(())
    } else {
        let ch = escape(Some(c), slice)?;
        acc.push(ch);
        push_all(acc, s, 1);
        assert(acc@ =~= old(acc)@ + (seq![ch] + s@.subrange(1, s@.len() as int)));
        Ok(())
    }
}

/// After a backslash that ends a line: skips white space and line breaks, and
/// appends the next literal without its leading white space.
fn trim_till_non_whitespace(iter: &mut RIter, string: &mut Vec<char>, Ghost(ml): Ghost<bool>)
    requires
        old(iter).wf(),
    ensures
        final(iter).wf(),
        final(iter).same_run(*old(iter)),
        old(iter).pos <= final(iter).pos,
        basic_body(old(iter).toks(), old(iter).pos as int, ml, true, old(string)@) == basic_body(
            final(iter).toks(),
            final(iter).pos as int,
            ml,
            false,
            final(string)@,
        ),
{
    let ghost toks = iter.toks();
    while iter.pos < iter.tokens.len()
        invariant
            iter.wf(),
            iter.same_run(*old(iter)),
            old(iter).pos <= iter.pos,
            string@ == old(string)@,
            toks == iter.toks(),
            basic_body(toks, old(iter).pos as int, ml, true, old(string)@) == basic_body(
                toks,
                iter.pos as int,
                ml,
                true,
                string@,
            ),
        decreases iter.tokens@.len() - iter.pos,
    {
        let t = &iter.tokens[iter.pos].0;
        assert(toks[iter.pos as int] == t@);
        match t {
            Token::LineBreak => {
                iter.next();
            },
            Token::Literal(lit) => {
                if t.is_space() {
                    iter.next();
                } else {
                    let rest = trimmed_start(lit);
                    push_all(string, &rest, 0);
                    assert(rest@.subrange(0, rest@.len() as int) =~= rest@);
                    iter.next();
                    return ;
                }
            },
            _ => {
                return ;
            },
        }
    }
}

/// Reads a literal string body into `string`, up to and past its closing quotes.
pub fn parse_string_single_quotes(is_multiline: bool, string: &mut Vec<char>, iter: &mut RIter) -> (r:
    Result<(), TomlError>)
    requires
        old(iter).wf(),
    ensures
        final(iter).wf(),
        final(iter).same_run(*old(iter)),
        old(iter).pos <= final(iter).pos,
        match literal_body(old(iter).toks(), old(iter).pos as int, is_multiline, old(string)@) {
            Ok((text, j)) => r is Ok && final(string)@ == text && final(iter).pos == j,
            Err(k) => r matches Err(e) && e.kind() == k,
        },
{
    let ghost toks = iter.toks();
    let ghost start = iter.pos as int;
    loop
        invariant
            iter.wf(),
            iter.same_run(*old(iter)),
            toks == iter.toks(),
            toks == old(iter).toks(),
            start == old(iter).pos,
            old(iter).pos <= iter.pos,
            literal_body(toks, start, is_multiline, old(string)@) == literal_body(
                toks,
                iter.pos as int,
                is_multiline,
                string@,
            ),
        decreases iter.tokens@.len() - iter.pos,
    {
        if iter.pos >= iter.tokens.len() {
            return Err(
                TomlError::unexpected_one(ErrLocation::new(*iter), Token::SingleQuote),
            );
        }
        let i = iter.pos;
        let t = &iter.tokens[i].0;
        assert(toks[i as int] == t@);
        match t {
            Token::SingleQuote => {
                if !is_multiline {
                    iter.next();
                    return Ok(());
                } else if iter.tokens.len() - i > 2 && iter.tokens[i + 1].0.is_punct(&Token::SingleQuote)
                    && iter.tokens[i + 2].0.is_punct(&Token::SingleQuote) {
                    iter.advance_to(i + 3);
                    return Ok(());
                } else {
                    string.push('\'');
                    iter.next();
                }
            },
            Token::LineBreak => {
                if !is_multiline {
                    return Err(
                        TomlError::unexpected_one(ErrLocation::new(*iter), Token::SingleQuote),
                    );
                }
                string.push('\n');
                iter.next();
            },
            Token::Literal(lit) => {
                push_all(string, lit, 0);
                assert(lit@.subrange(0, lit@.len() as int) =~= lit@);
                iter.next();
            },
            _ => {
                string.push(t.as_char());
                iter.next();
            },
        }
    }
}

/// Reads a basic string body into `string`, up to and past its closing quotes.
fn parse_basic_body(is_multiline: bool, string: &mut Vec<char>, iter: &mut RIter) -> (r: Result<
    (),
    TomlError,
>)
    requires
        old(iter).wf(),
    ensures
        final(iter).wf(),
        final(iter).same_run(*old(iter)),
        old(iter).pos <= final(iter).pos,
        match basic_body(old(iter).toks(), old(iter).pos as int, is_multiline, false, old(string)@) {
            Ok((text, j)) => r is Ok && final(string)@ == text && final(iter).pos == j,
            Err(k) => r matches Err(e) && e.kind() == k,
        },
{
    let ghost toks = iter.toks();
    let ghost start = iter.pos as int;
    let ghost ml = is_multiline;
    loop
        invariant
            iter.wf(),
            iter.same_run(*old(iter)),
            toks == iter.toks(),
            toks == old(iter).toks(),
            start == old(iter).pos,
            old(iter).pos <= iter.pos,
            ml == is_multiline,
            basic_body(toks, start, ml, false, old(string)@) == basic_body(
                toks,
                iter.pos as int,
                ml,
                false,
                string@,
            ),
        decreases iter.tokens@.len() - iter.pos,
    {
        if iter.pos >= iter.tokens.len() {
            return Err(
                TomlError::unexpected_one(ErrLocation::new(*iter), Token::DoubleQuote),
            );
        }
        let i = iter.pos;
        let n = iter.tokens.len();
        let t = &iter.tokens[i].0;
        assert(toks[i as int] == t@);
        match t {
            Token::DoubleQuote => {
                if !is_multiline {
                    iter.next();
                    return Ok(());
                } else if n - i > 2 && iter.tokens[i + 1].0.is_punct(&Token::DoubleQuote)
                    && iter.tokens[i + 2].0.is_punct(&Token::DoubleQuote) {
                    iter.advance_to(i + 3);
                    return Ok(());
                } else {
                    string.push('"');
                    iter.next();
                }
            },
            Token::BackSlash => {
                if i + 1 >= n {
                    iter.next();
                    return Err(
                        TomlError::unexpected_one(ErrLocation::new(*iter), Token::DoubleQuote),
                    );
                }
                let e = &iter.tokens[i + 1].0;
                assert(toks[i + 1] == e@);
                match e {
                    Token::Literal(lit) => {
                        if e.is_space() {
                            if !(n - i > 2 && iter.tokens[i + 2].0.is_punct(&Token::LineBreak)) {
                                iter.next();
                                return Err(TomlError::UnknownEscapeSequence(ErrLocation::new(*iter)));
                            }
                            assert(toks[i + 2] == iter.tokens@[i + 2].0@);
                            iter.advance_to(i + 2);
                            trim_till_non_whitespace(iter, string, Ghost(ml));
                        } else {
                            iter.advance_to(i + 2);
                            push_escaped(lit, string, iter.as_slice())?;
                        }
                    },
                    Token::DoubleQuote => {
                        string.push('"');
                        iter.advance_to(i + 2);
                    },
                    Token::BackSlash => {
                        string.push('\\');
                        iter.advance_to(i + 2);
                    },
                    Token::LineBreak => {
                        iter.advance_to(i + 2);
                        trim_till_non_whitespace(iter, string, Ghost(ml));
                    },
                    _ => {
                        iter.next();
                        return Err(TomlError::UnknownEscapeSequence(ErrLocation::new(*iter)));
                    },
                }
            },
            Token::LineBreak => {
                if !is_multiline {
                    return Err(
                        TomlError::unexpected_one(ErrLocation::new(*iter), Token::DoubleQuote),
                    );
                }
                string.push('\n');
                iter.next();
            },
            Token::Literal(lit) => {
                push_all(string, lit, 0);
                assert(lit@.subrange(0, lit@.len() as int) =~= lit@);
                iter.next();
            },
            _ => {
                string.push(t.as_char());
                iter.next();
            },
        }
    }
}

/// Reads a string whose opening quote, `quote_type`, stands just before the
/// cursor of `slice`.
pub fn parse_string<'a>(slice: RSlice<'a>, quote_type: Token) -> (r: Result<ParsedValue<'a>, TomlError>)
    requires
        slice.wf(),
        quote_type@ is DoubleQuote || quote_type@ is SingleQuote,
    ensures
        match string_value(slice.toks(), slice.pos as int, quote_type@) {
            Ok((v, j)) => r matches Ok(p) && p.value@ == v && p.section.pos == j
                && p.section.tokens@ == slice.slice@ && p.section.depth == slice.depth,
            Err(k) => r matches Err(e) && e.kind() == k,
        },
        r matches Ok(p) ==> slice.pos <= p.section.pos <= slice.slice@.len(),
{
    let mut iter = RIter::from(slice);
    let mut string: Vec<char> = Vec::new();
    let mut is_multiline = false;
    if iter.next_if_eq(&quote_type) {
        if iter.next_if_eq(&quote_type) {
            is_multiline = true;
            iter.next_if_eq(&Token::LineBreak);
        } else {
            return Ok(ParsedValue { value: TomlValue::String(String::new()), section: iter });
        }
    }
    match quote_type {
        Token::SingleQuote => {
            parse_string_single_quotes(is_multiline, &mut string, &mut iter)?;
        },
        _ => {
            parse_basic_body(is_multiline, &mut string, &mut iter)?;
        },
    }
    Ok(ParsedValue { value: TomlValue::String(string_of(&string)), section: iter })
}

proof fn lemma_basic_body_progress(toks: Seq<Tok>, i: int, ml: bool, trimming: bool, acc: Seq<char>)
    requires
        basic_body(toks, i, ml, trimming, acc) is Ok,
    ensures
        i < basic_body(toks, i, ml, trimming, acc)->Ok_0.1 <= toks.len(),
    decreases toks.len() - i, if trimming { 1int } else { 0int },
{
    if i < 0 || i >= toks.len() {
    } else if trimming {
        match toks[i] {
            Tok::LineBreak => lemma_basic_body_progress(toks, i + 1, ml, true, acc),
            Tok::Lit(s) => {
                if trim(s).len() == 0 {
                    lemma_basic_body_progress(toks, i + 1, ml, true, acc);
                } else {
                    lemma_basic_body_progress(toks, i + 1, ml, false, acc + trim_start(s));
                }
            },
            _ => lemma_basic_body_progress(toks, i, ml, false, acc),
        }
    } else {
        match toks[i] {
            Tok::DoubleQuote => {
                if !ml {
                } else if i + 2 < toks.len() && toks[i + 1] == Tok::DoubleQuote && toks[i + 2]
                    == Tok::DoubleQuote {
                } else {
                    lemma_basic_body_progress(toks, i + 1, ml, false, acc.push('"'));
                }
            },
            Tok::BackSlash => {
                if i + 1 < toks.len() {
                    match toks[i + 1] {
                        Tok::Lit(s) => {
                            if trim(s).len() == 0 {
                                if i + 2 < toks.len() && toks[i + 2] == Tok::LineBreak {
                                    lemma_basic_body_progress(toks, i + 2, ml, true, acc);
                                }
                            } else if let Ok(e) = escape_text(s) {
                                lemma_basic_body_progress(toks, i + 2, ml, false, acc + e);
                            }
                        },
                        Tok::DoubleQuote => lemma_basic_body_progress(toks, i + 2, ml, false, acc.push('"')),
                        Tok::BackSlash => lemma_basic_body_progress(toks, i + 2, ml, false, acc.push('\\')),
                        Tok::LineBreak => lemma_basic_body_progress(toks, i + 2, ml, true, acc),
                        _ => {},
                    }
                }
            },
            Tok::LineBreak => {
                if ml {
                    lemma_basic_body_progress(toks, i + 1, ml, false, acc.push('\n'));
                }
            },
            Tok::Lit(s) => lemma_basic_body_progress(toks, i + 1, ml, false, acc + s),
            t => lemma_basic_body_progress(toks, i + 1, ml, false, acc.push(tok_char(t))),
        }
    }
}

proof fn lemma_literal_body_progress(toks: Seq<Tok>, i: int, ml: bool, acc: Seq<char>)
    requires
        literal_body(toks, i, ml, acc) is Ok,
    ensures
        i < literal_body(toks, i, ml, acc)->Ok_0.1 <= toks.len(),
    decreases toks.len() - i,
{
    if 0 <= i < toks.len() {
        match toks[i] {
            Tok::SingleQuote => {
                if ml && !(i + 2 < toks.len() && toks[i + 1] == Tok::SingleQuote && toks[i + 2]
                    == Tok::SingleQuote) {
                    lemma_literal_body_progress(toks, i + 1, ml, acc.push('\''));
                }
            },
            Tok::LineBreak => {
                if ml {
                    lemma_literal_body_progress(toks, i + 1, ml, acc.push('\n'));
                }
            },
            Tok::Lit(s) => lemma_literal_body_progress(toks, i + 1, ml, acc + s),
            t => lemma_literal_body_progress(toks, i + 1, ml, acc.push(tok_char(t))),
        }
    }
}

/// A string read from just after its opening quote at `p - 1` ends after `p`
/// and within the tokens.
pub proof fn lemma_string_value_progress(toks: Seq<Tok>, p: int, quote: Tok)
    requires
        0 <= p <= toks.len(),
        string_value(toks, p, quote) is Ok,
    ensures
        p <= string_value(toks, p, quote)->Ok_0.1 <= toks.len(),
{
    match string_start(toks, p, quote) {
        None => {},
        Some((start, ml)) => {
            if quote == Tok::SingleQuote {
                lemma_literal_body_progress(toks, start, ml, Seq::empty());
            } else {
                lemma_basic_body_progress(toks, start, ml, false, Seq::empty());
            }
        },
    }
}

} // verus!

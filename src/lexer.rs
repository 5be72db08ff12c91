//! The tokenizer: a partition of the input bytes into punctuation tokens and
//! literal spans.
use vstd::prelude::*;
use vstd::slice::slice_subrange;
use vstd::utf8::{decode_utf8, valid_utf8};

use crate::chars::{all_ws, check_bare_key, is_bare_key, trim, trimmed};
use crate::error::TomlError;
use crate::TomlKey;

verus! {

/// The error of `simdutf8::basic::from_utf8`, carried as an opaque value.
#[verifier::external_type_specification]
#[verifier::external_body]
pub struct ExUtf8Error(simdutf8::basic::Utf8Error);

/// Relies on `simdutf8::basic::from_utf8`: `Ok` exactly when the bytes are
/// valid UTF-8, holding the text they encode.
pub assume_specification[ simdutf8::basic::from_utf8 ](input: &[u8]) -> (r: Result<
    &str,
    simdutf8::basic::Utf8Error,
>)
    ensures
        r is Ok <==> valid_utf8(input@),
        r is Ok ==> r->Ok_0@ == decode_utf8(input@),
;

/// Relies on `str::chars`, collected: the characters of `s`, in order.
#[verifier::external_body]
fn chars_of(s: &str) -> (r: Vec<char>)
    ensures
        r@ == s@,
{
    s.chars().collect()
}

/// A token: a punctuation byte, or a run of other bytes as a literal.
#[derive(Debug, Clone, PartialEq, Eq)]
pub enum Token {
    Literal(Vec<char>),
    Eq,
    Sbo,
    Cbo,
    Sbc,
    Cbc,
    Hash,
    DoubleQuote,
    SingleQuote,
    LineBreak,
    CarriageReturn,
    BackSlash,
    Comma,
}

/// The mathematical form of a token: its literal text as a sequence.
pub enum Tok {
    Lit(Seq<char>),
    Eq,
    Sbo,
    Cbo,
    Sbc,
    Cbc,
    Hash,
    DoubleQuote,
    SingleQuote,
    LineBreak,
    CarriageReturn,
    BackSlash,
    Comma,
}

impl View for Token {
    type V = Tok;

    open spec fn view(&self) -> Tok {
        match self {
            Token::Literal(v) => Tok::Lit(v@),
            Token::Eq => Tok::Eq,
            Token::Sbo => Tok::Sbo,
            Token::Cbo => Tok::Cbo,
            Token::Sbc => Tok::Sbc,
            Token::Cbc => Tok::Cbc,
            Token::Hash => Tok::Hash,
            Token::DoubleQuote => Tok::DoubleQuote,
            Token::SingleQuote => Tok::SingleQuote,
            Token::LineBreak => Tok::LineBreak,
            Token::CarriageReturn => Tok::CarriageReturn,
            Token::BackSlash => Tok::BackSlash,
            Token::Comma => Tok::Comma,
        }
    }
}

/// A token with the number of input bytes it covers.
pub type TokenSized = (Token, usize);

/// The tokens of a lexed buffer, as mathematical tokens with their byte lengths.
pub open spec fn sized_view(s: Seq<TokenSized>) -> Seq<(Tok, nat)> {
    s.map_values(|p: TokenSized| (p.0@, p.1 as nat))
}

/// The tokens alone.
pub open spec fn toks_view(s: Seq<TokenSized>) -> Seq<Tok> {
    s.map_values(|p: TokenSized| p.0@)
}

/// The punctuation token that a byte stands for, if any.
pub open spec fn special_tok(b: u8) -> Option<Tok> {
    if b == 0x3d {
        Some(Tok::Eq)
    } else if b == 0x5b {
        Some(Tok::Sbo)
    } else if b == 0x5d {
        Some(Tok::Sbc)
    } else if b == 0x7b {
        Some(Tok::Cbo)
    } else if b == 0x7d {
        Some(Tok::Cbc)
    } else if b == 0x23 {
        Some(Tok::Hash)
    } else if b == 0x2c {
        Some(Tok::Comma)
    } else if b == 0x27 {
        Some(Tok::SingleQuote)
    } else if b == 0x22 {
        Some(Tok::DoubleQuote)
    } else if b == 0x0a {
        Some(Tok::LineBreak)
    } else if b == 0x0d {
        Some(Tok::CarriageReturn)
    } else if b == 0x5c {
        Some(Tok::BackSlash)
    } else {
        None
    }
}

/// The end of the literal run that continues at `i`: the first punctuation byte
/// at or after `i`, or the end of the input.
pub open spec fn literal_end(data: Seq<u8>, i: int) -> int
    decreases data.len() - i,
{
    if i < 0 || i >= data.len() || special_tok(data[i]) is Some {
        i
    } else {
        literal_end(data, i + 1)
    }
}

/// `Some(head + rest)`, or `None` where `rest` is `None`.
pub open spec fn prepend<A>(head: Seq<A>, rest: Option<Seq<A>>) -> Option<Seq<A>> {
    match rest {
        Some(r) => Some(head + r),
        None => None,
    }
}

/// The tokens of `data` from byte `i` on, or `None` where a literal run is not
/// valid UTF-8. A carriage return directly followed by a line feed is one line break.
pub open spec fn lex_from(data: Seq<u8>, i: int) -> Option<Seq<(Tok, nat)>>
    decreases data.len() - i, 0int,
{
    if i < 0 || i >= data.len() {
        Some(Seq::empty())
    } else {
        match special_tok(data[i]) {
            Some(t) => {
                if t == Tok::CarriageReturn && i + 1 < data.len() && data[i + 1] == 0x0a {
                    prepend(seq![(Tok::LineBreak, 2nat)], lex_from(data, i + 2))
                } else {
                    prepend(seq![(t, 1nat)], lex_from(data, i + 1))
                }
            },
            None => {
                let j = literal_end(data, i + 1);
                if i < j <= data.len() && valid_utf8(data.subrange(i, j)) {
                    prepend(
                        seq![(Tok::Lit(decode_utf8(data.subrange(i, j))), (j - i) as nat)],
                        lex_from(data, j),
                    )
                } else {
                    None
                }
            },
        }
    }
}

pub proof fn lemma_prepend_assoc<A>(a: Seq<A>, b: Seq<A>, r: Option<Seq<A>>)
    ensures
        prepend(a, prepend(b, r)) == prepend(a + b, r),
{
    if let Some(x) = r {
        assert(a + (b + x) =~= (a + b) + x);
    }
}

/// The punctuation token that byte `n` stands for, if any.
pub fn get_special_byte(n: u8) -> (r: Option<Token>)
    ensures
        match r {
            Some(t) => special_tok(n) == Some(t@) && !(t is Literal),
            None => special_tok(n) is None,
        },
{
    match n {
        0x3d => Some(Token::Eq),
        0x5b => Some(Token::Sbo),
        0x5d => Some(Token::Sbc),
        0x7b => Some(Token::Cbo),
        0x7d => Some(Token::Cbc),
        0x23 => Some(Token::Hash),
        0x2c => Some(Token::Comma),
        0x27 => Some(Token::SingleQuote),
        0x22 => Some(Token::DoubleQuote),
        0x0a => Some(Token::LineBreak),
        0x0d => Some(Token::CarriageReturn),
        0x5c => Some(Token::BackSlash),
        _ => None,
    }
}

/// Cuts `data` into tokens. Fails with `Utf8Error`, and nothing else, exactly
/// when a literal run is not valid UTF-8.
pub fn lex(data: &[u8]) -> (r: Result<Vec<TokenSized>, TomlError>)
    ensures
        r is Ok <==> lex_from(data@, 0) is Some,
        r is Ok ==> Some(sized_view(r->Ok_0@)) == lex_from(data@, 0),
        r is Err ==> r->Err_0 is Utf8Error,
{
    let mut lexemes: Vec<TokenSized> = Vec::new();
    let mut index: usize = 0;
    while index < data.len()
        invariant
            index <= data@.len(),
            lex_from(data@, 0) == prepend(sized_view(lexemes@), lex_from(data@, index as int)),
        decreases data@.len() - index,
    {
        let byte = data[index];
        let ghost before = lexemes@;
        match get_special_byte(byte) {
            Some(tok) => {
                let is_crlf = match tok {
                    Token::CarriageReturn => index + 1 < data.len() && data[index + 1] == 0x0a,
                    _ => false,
                };
                if is_crlf {
                    lexemes.push((Token::LineBreak, 2));
                    proof {
                        lemma_prepend_assoc(sized_view(before), seq![(Tok::LineBreak, 2nat)], lex_from(data@, index + 2));
                        assert(sized_view(lexemes@) =~= sized_view(before) + seq![(Tok::LineBreak, 2nat)]);
                    }
                    index = index + 2;
                } else {
                    let ghost t = tok@;
                    lexemes.push((tok, 1));
                    proof {
                        lemma_prepend_assoc(sized_view(before), seq![(t, 1nat)], lex_from(data@, index + 1));
                        assert(sized_view(lexemes@) =~= sized_view(before) + seq![(t, 1nat)]);
                    }
                    index = index + 1;
                }
            },
            None => {
                let mut end: usize = index + 1;
                while end < data.len() && get_special_byte(data[end]).is_none()
                    invariant
                        index < end <= data@.len(),
                        literal_end(data@, index + 1) == literal_end(data@, end as int),
                    decreases data@.len() - end,
                {
                    end = end + 1;
                }
                let bytes = slice_subrange(data, index, end);
                match simdutf8::basic::from_utf8(bytes) {
                    Ok(text) => {
                        let chars = chars_of(text);
                        let ghost t = Tok::Lit(chars@);
                        let len: usize = end - index;
                        lexemes.push((Token::Literal(chars), len));
                        proof {
                            lemma_prepend_assoc(sized_view(before), seq![(t, len as nat)], lex_from(data@, end as int));
                            assert(sized_view(lexemes@) =~= sized_view(before) + seq![(t, len as nat)]);
                        }
                        index = end;
                    },
                    Err(_) => {
                        return Err(TomlError::Utf8Error);
                    },
                }
            },
        }
    }
    proof {
        assert(sized_view(lexemes@) + Seq::<(Tok, nat)>::empty() =~= sized_view(lexemes@));
    }
    Ok(lexemes)
}

impl Token {
    /// Whether this is a literal whose trimmed text is a bare key.
    pub fn is_valid_table_name_or_key(&self) -> (r: bool)
        ensures
            r == (self@ matches Tok::Lit(s) && is_bare_key(trim(s))),
    {
        match self {
            Token::Literal(v) => {
                let t = trimmed(v);
                check_bare_key(&t)
            },
            _ => false,
        }
    }

    /// Whether this is a literal of white space only.
    pub fn is_space(&self) -> (r: bool)
        ensures
            r == (self@ matches Tok::Lit(s) && trim(s).len() == 0),
    {
        match self {
            Token::Literal(v) => all_ws(v),
            _ => false,
        }
    }

    /// Whether this is a literal.
    pub fn is_literal(&self) -> (r: bool)
        ensures
            r == (self@ is Lit),
    {
        match self {
            Token::Literal(_) => true,
            _ => false,
        }
    }

    /// The trimmed text of a literal as a key; `TomlKey::Root` for punctuation.
    pub fn as_key(&self) -> (r: TomlKey)
        ensures
            match self@ {
                Tok::Lit(s) => r matches TomlKey::Literal(k) && k@ == trim(s),
                _ => r is Root,
            },
    {
        match self {
            Token::Literal(v) => TomlKey::Literal(crate::lexer::string_of(&trimmed(v))),
            _ => TomlKey::Root,
        }
    }

    /// A copy of this token.
    pub fn clone_token(&self) -> (r: Token)
        ensures
            r@ == self@,
    {
        match self {
            Token::Literal(v) => {
                let c = crate::chars::copy_range(v, 0, v.len());
                assert(c@ =~= v@);
                Token::Literal(c)
            },
            Token::Eq => Token::Eq,
            Token::Sbo => Token::Sbo,
            Token::Cbo => Token::Cbo,
            Token::Sbc => Token::Sbc,
            Token::Cbc => Token::Cbc,
            Token::Hash => Token::Hash,
            Token::DoubleQuote => Token::DoubleQuote,
            Token::SingleQuote => Token::SingleQuote,
            Token::LineBreak => Token::LineBreak,
            Token::CarriageReturn => Token::CarriageReturn,
            Token::BackSlash => Token::BackSlash,
            Token::Comma => Token::Comma,
        }
    }

    /// Whether this is an opening square bracket.
    pub fn is_sbo(&self) -> (r: bool)
        ensures
            r == (self@ is Sbo),
    {
        match self {
            Token::Sbo => true,
            _ => false,
        }
    }

    /// Whether this token equals `other`: the same punctuation, or literals of
    /// the same text.
    pub fn same(&self, other: &Token) -> (r: bool)
        ensures
            r == (self@ == other@),
    {
        match (self, other) {
            (Token::Literal(a), Token::Literal(b)) => {
                if a.len() != b.len() {
                    assert(a@.len() != b@.len());
                    return false;
                }
                let mut i: usize = 0;
                while i < a.len()
                    invariant
                        i <= a@.len() == b@.len(),
                        self@ == Tok::Lit(a@),
                        other@ == Tok::Lit(b@),
                        forall|k: int| 0 <= k < i ==> a@[k] == b@[k],
                    decreases a@.len() - i,
                {
                    if a[i] != b[i] {
                        assert(a@[i as int] != b@[i as int]);
                        assert(Tok::Lit(a@) != Tok::Lit(b@));
                        return false;
                    }
                    i = i + 1;
                }
                assert(a@ =~= b@);
                true
            },
            _ => self.is_punct(other),
        }
    }

    /// Whether this token is `other`'s punctuation; literals never match.
    pub fn is_punct(&self, other: &Token) -> (r: bool)
        ensures
            r == (!(self@ is Lit) && self@ == other@),
    {
        match (self, other) {
            (Token::Eq, Token::Eq) => true,
            (Token::Sbo, Token::Sbo) => true,
            (Token::Cbo, Token::Cbo) => true,
            (Token::Sbc, Token::Sbc) => true,
            (Token::Cbc, Token::Cbc) => true,
            (Token::Hash, Token::Hash) => true,
            (Token::DoubleQuote, Token::DoubleQuote) => true,
            (Token::SingleQuote, Token::SingleQuote) => true,
            (Token::LineBreak, Token::LineBreak) => true,
            (Token::CarriageReturn, Token::CarriageReturn) => true,
            (Token::BackSlash, Token::BackSlash) => true,
            (Token::Comma, Token::Comma) => true,
            _ => false,
        }
    }

    /// The character that a punctuation token stands for; a space for a literal.
    pub fn as_char(&self) -> (r: char)
        ensures
            r == tok_char(self@),
    {
        match self {
            Token::Literal(_) => ' ',
            Token::Eq => '=',
            Token::Sbo => '[',
            Token::Sbc => ']',
            Token::Cbo => '{',
            Token::Cbc => '}',
            Token::Hash => '#',
            Token::Comma => ',',
            Token::DoubleQuote => '"',
            Token::SingleQuote => '\'',
            Token::LineBreak => '\n',
            Token::CarriageReturn => '\r',
            Token::BackSlash => '\\',
        }
    }
}

/// The character a token stands for (a space for a literal).
pub open spec fn tok_char(t: Tok) -> char {
    match t {
        Tok::Lit(_) => ' ',
        Tok::Eq => '=',
        Tok::Sbo => '[',
        Tok::Sbc => ']',
        Tok::Cbo => '{',
        Tok::Cbc => '}',
        Tok::Hash => '#',
        Tok::Comma => ',',
        Tok::DoubleQuote => '"',
        Tok::SingleQuote => '\'',
        Tok::LineBreak => '\n',
        Tok::CarriageReturn => '\r',
        Tok::BackSlash => '\\',
    }
}

/// Relies on `String`'s `FromIterator<&char>`: the text of exactly these characters.
#[verifier::external_body]
pub(crate) fn string_of(v: &Vec<char>) -> (r: String)
    ensures
        r@ == v@,
{
    v.iter().collect()
}

} // verus!

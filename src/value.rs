//! The value dispatcher and the composite values: arrays and inline tables.
use vstd::prelude::*;

use crate::chars::{is_bare_key, trim, trimmed};
use crate::cursor::{RIter, RSlice};
use crate::error::{ErrKind, ErrLocation, TomlError};
use crate::lexer::{Tok, Token};
use crate::num::{check_for_other_values, literal_value_of};
use crate::parser::ParsedValue;
use crate::string::{is_blank_lit, parse_string, string_value};
use crate::{KeyV, TomlKey, TomlValue, Val};

verus! {

broadcast use vstd::std_specs::vec::group_vec_axioms;

/// The first position at or after `i` that holds no white-space literal.
pub open spec fn skip_blank(toks: Seq<Tok>, i: int) -> int
    decreases toks.len() - i,
{
    if i < 0 || i >= toks.len() || !is_blank_lit(toks[i]) {
        i
    } else {
        skip_blank(toks, i + 1)
    }
}

/// The entries of `t` hold key `k`.
pub open spec fn has_key(t: Seq<(KeyV, Val)>, k: KeyV) -> bool {
    exists|i: int| 0 <= i < t.len() && (#[trigger] t[i]).0 == k
}

/// The values of a vector, as mathematical values.
pub open spec fn vals_view(v: Seq<TomlValue>) -> Seq<Val> {
    v.map_values(|x: TomlValue| x@)
}

/// The entries of a table, as mathematical entries.
pub open spec fn entries_view(t: Seq<(TomlKey, TomlValue)>) -> Seq<(KeyV, Val)> {
    t.map_values(|e: (TomlKey, TomlValue)| (e.0@, e.1@))
}

/// The value that starts at or after `p` (past white space), with `d` levels
/// of nesting left, and the position after it. Quotes start a string, `[` an
/// array, `{` an inline table, and a literal a scalar.
pub open spec fn value_of(toks: Seq<Tok>, p: int, d: nat) -> Result<(Val, int), ErrKind>
    decreases d, toks.len() - p, 0int,
{
    let q = skip_blank(toks, p);
    if p < 0 || p > toks.len() || q < 0 || q >= toks.len() {
        Err(ErrKind::UnspecifiedValue)
    } else {
        match toks[q] {
            Tok::DoubleQuote => string_value(toks, q + 1, Tok::DoubleQuote),
            Tok::SingleQuote => string_value(toks, q + 1, Tok::SingleQuote),
            Tok::Sbo => {
                if d == 0 {
                    Err(ErrKind::NestingTooDeep)
                } else {
                    array_step(toks, q + 1, (d - 1) as nat, Seq::empty(), false, false)
                }
            },
            Tok::Cbo => {
                if d == 0 {
                    Err(ErrKind::NestingTooDeep)
                } else {
                    inline_step(toks, q + 1, (d - 1) as nat, Seq::empty(), 0)
                }
            },
            Tok::Lit(s) => match literal_value_of(trim(s)) {
                Ok(v) => Ok((v, q + 1)),
                Err(k) => Err(k),
            },
            _ => Err(ErrKind::UnspecifiedValue),
        }
    }
}

/// The rest of an array from token `i`, with `acc` read so far. Values are
/// separated by commas; a trailing comma is allowed; white space, line breaks
/// and comments between elements are skipped. `after_value` is set after an
/// element, `in_comment` inside a comment.
pub open spec fn array_step(
    toks: Seq<Tok>,
    i: int,
    d: nat,
    acc: Seq<Val>,
    after_value: bool,
    in_comment: bool,
) -> Result<(Val, int), ErrKind>
    decreases d, toks.len() - i, 1int,
{
    if i < 0 || i >= toks.len() {
        Err(ErrKind::UnexpectedCharacter(seq![Tok::Comma, Tok::Sbc]))
    } else if in_comment {
        array_step(toks, i + 1, d, acc, after_value, toks[i] != Tok::LineBreak)
    } else {
        match toks[i] {
            Tok::LineBreak => array_step(toks, i + 1, d, acc, after_value, false),
            Tok::Hash => array_step(toks, i + 1, d, acc, after_value, true),
            Tok::Sbc => Ok((Val::Arr(acc), i + 1)),
            Tok::Comma => {
                if after_value {
                    array_step(toks, i + 1, d, acc, false, false)
                } else {
                    Err(ErrKind::UnexpectedCharacter(seq![Tok::Sbc, Tok::Lit(Seq::empty())]))
                }
            },
            t => {
                if is_blank_lit(t) {
                    array_step(toks, i + 1, d, acc, after_value, false)
                } else if after_value {
                    Err(ErrKind::UnexpectedCharacter(seq![Tok::Comma, Tok::Sbc]))
                } else {
                    match value_of(toks, i, d) {
                        Ok((v, j)) => {
                            if i < j <= toks.len() {
                                array_step(toks, j, d, acc.push(v), true, false)
                            } else {
                                Err(ErrKind::UnexpectedCharacter(seq![Tok::Comma, Tok::Sbc]))
                            }
                        },
                        Err(k) => Err(k),
                    }
                }
            },
        }
    }
}

/// The rest of an inline table from token `i`, with entries `acc` read so far.
/// `state` is 0 right after `{` (where `}` closes an empty table), 1 where a
/// key is expected, 2 after a value (where `,` or `}` must follow).
pub open spec fn inline_step(toks: Seq<Tok>, i: int, d: nat, acc: Seq<(KeyV, Val)>, state: int) -> Result<
    (Val, int),
    ErrKind,
>
    decreases d, toks.len() - i, 1int,
{
    if i < 0 || i >= toks.len() {
        Err(ErrKind::UnexpectedCharacter(seq![Tok::Cbc]))
    } else if is_blank_lit(toks[i]) {
        inline_step(toks, i + 1, d, acc, state)
    } else if state == 2 {
        match toks[i] {
            Tok::Comma => inline_step(toks, i + 1, d, acc, 1),
            Tok::Cbc => Ok((Val::Table(acc), i + 1)),
            _ => Err(ErrKind::UnexpectedCharacter(seq![Tok::Comma, Tok::Cbc])),
        }
    } else if state == 0 && toks[i] == Tok::Cbc {
        Ok((Val::Table(acc), i + 1))
    } else {
        match toks[i] {
            Tok::Lit(s) => {
                if !is_bare_key(trim(s)) || i + 1 >= toks.len() || toks[i + 1] != Tok::Eq {
                    Err(ErrKind::UnexpectedCharacter(seq![Tok::Cbc, Tok::Lit(Seq::empty())]))
                } else if has_key(acc, KeyV::Lit(trim(s))) {
                    Err(ErrKind::NameUsed)
                } else {
                    match value_of(toks, i + 2, d) {
                        Ok((v, j)) => {
                            if i < j <= toks.len() {
                                inline_step(toks, j, d, acc.push((KeyV::Lit(trim(s)), v)), 2)
                            } else {
                                Err(ErrKind::UnexpectedCharacter(seq![Tok::Comma, Tok::Cbc]))
                            }
                        },
                        Err(k) => Err(k),
                    }
                }
            },
            _ => Err(ErrKind::UnexpectedCharacter(seq![Tok::Cbc, Tok::Lit(Seq::empty())])),
        }
    }
}

/// Whether two keys are the same.
pub fn same_key(a: &TomlKey, b: &TomlKey) -> (r: bool)
    ensures
        r == (a@ == b@),
{
    match (a, b) {
        (TomlKey::Literal(x), TomlKey::Literal(y)) => x.eq(y),
        (TomlKey::Root, TomlKey::Root) => true,
        _ => false,
    }
}

/// Whether the entries of `t` hold key `k`.
pub fn contains_key(t: &Vec<(TomlKey, TomlValue)>, k: &TomlKey) -> (r: bool)
    ensures
        r == has_key(entries_view(t@), k@),
{
    let mut i: usize = 0;
    while i < t.len()
        invariant
            i <= t@.len(),
            forall|j: int| 0 <= j < i ==> (#[trigger] entries_view(t@)[j]).0 != k@,
        decreases t@.len() - i,
    {
        if same_key(&t[i].0, k) {
            assert(entries_view(t@)[i as int].0 == k@);
            return true;
        }
        i = i + 1;
    }
    false
}

proof fn lemma_vals_upto(v: Vec<TomlValue>, n: int)
    requires
        0 <= n <= v@.len(),
    ensures
        crate::vals_upto(v, n) == vals_view(v@.subrange(0, n)),
    decreases n,
{
    if n > 0 {
        lemma_vals_upto(v, n - 1);
        assert(vals_view(v@.subrange(0, n)) =~= vals_view(v@.subrange(0, n - 1)).push(v[n - 1]@));
    } else {
        assert(vals_view(v@.subrange(0, n)) =~= Seq::<Val>::empty());
    }
}

proof fn lemma_entries_upto(t: Vec<(TomlKey, TomlValue)>, n: int)
    requires
        0 <= n <= t@.len(),
    ensures
        crate::entries_upto(t, n) == entries_view(t@.subrange(0, n)),
    decreases n,
{
    if n > 0 {
        lemma_entries_upto(t, n - 1);
        assert(entries_view(t@.subrange(0, n)) =~= entries_view(t@.subrange(0, n - 1)).push(
            (t[n - 1].0@, t[n - 1].1@),
        ));
    } else {
        assert(entries_view(t@.subrange(0, n)) =~= Seq::<(KeyV, Val)>::empty());
    }
}

proof fn lemma_array_view(v: Vec<TomlValue>)
    ensures
        TomlValue::Array(v)@ == Val::Arr(vals_view(v@)),
{
    lemma_vals_upto(v, v@.len() as int);
    assert(v@.subrange(0, v@.len() as int) =~= v@);
}

pub(crate) proof fn lemma_table_view(t: Vec<(TomlKey, TomlValue)>)
    ensures
        TomlValue::Table(t)@ == Val::Table(entries_view(t@)),
{
    lemma_entries_upto(t, t@.len() as int);
    assert(t@.subrange(0, t@.len() as int) =~= t@);
}

/// Reads the value at the cursor of `slice`, past white space.
pub fn parse_value<'a>(slice: RSlice<'a>) -> (r: Result<ParsedValue<'a>, TomlError>)
    requires
        slice.wf(),
    ensures
        match value_of(slice.toks(), slice.pos as int, slice.depth as nat) {
            Ok((v, j)) => r matches Ok(p) && p.value@ == v && p.section.pos == j
                && p.section.tokens@ == slice.slice@ && p.section.depth == slice.depth,
            Err(k) => r matches Err(e) && e.kind() == k,
        },
        r matches Ok(p) ==> slice.pos < p.section.pos <= slice.slice@.len(),
    decreases slice.depth, 0int,
{
    let ghost toks = slice.toks();
    let mut iter = RIter::from(slice);
    while iter.pos < iter.tokens.len() && iter.tokens[iter.pos].0.is_space()
        invariant
            iter.wf(),
            toks == iter.toks(),
            iter.tokens@ == slice.slice@,
            iter.depth == slice.depth,
            slice.pos <= iter.pos,
            skip_blank(toks, slice.pos as int) == skip_blank(toks, iter.pos as int),
        decreases iter.tokens@.len() - iter.pos,
    {
        assert(toks[iter.pos as int] == iter.tokens@[iter.pos as int].0@);
        iter.next();
    }
    if iter.pos >= iter.tokens.len() {
        return Err(TomlError::UnspecifiedValue(ErrLocation::new(iter)));
    }
    let q = iter.pos;
    let d = iter.depth;
    let t = &iter.tokens[q].0;
    assert(toks[q as int] == t@);
    iter.next();
    match t {
        Token::DoubleQuote => parse_string(iter.as_slice(), Token::DoubleQuote),
        Token::SingleQuote => parse_string(iter.as_slice(), Token::SingleQuote),
        Token::Sbo => {
            if d == 0 {
                return Err(TomlError::NestingTooDeep(ErrLocation::new(iter)));
            }
            let inner = RSlice { slice: iter.tokens, pos: iter.pos, index: iter.index, depth: d - 1 };
            let parsed = parse_array(inner)?;
            let mut section = parsed.section;
            section.depth = d;
            Ok(ParsedValue { value: parsed.value, section })
        },
        Token::Cbo => {
            if d == 0 {
                return Err(TomlError::NestingTooDeep(ErrLocation::new(iter)));
            }
            let inner = RSlice { slice: iter.tokens, pos: iter.pos, index: iter.index, depth: d - 1 };
            let parsed = parse_inline_table(inner)?;
            let mut section = parsed.section;
            section.depth = d;
            Ok(ParsedValue { value: parsed.value, section })
        },
        Token::Literal(lit) => check_for_other_values(&trimmed(lit), iter.as_slice()),
        _ => Err(TomlError::UnspecifiedValue(ErrLocation::new(iter))),
    }
}

/// Reads an array whose `[` stands just before the cursor of `slice`. The
/// elements may be of different kinds: no single-type rule is applied.
pub fn parse_array<'a>(slice: RSlice<'a>) -> (r: Result<ParsedValue<'a>, TomlError>)
    requires
        slice.wf(),
    ensures
        match array_step(slice.toks(), slice.pos as int, slice.depth as nat, Seq::empty(), false, false) {
            Ok((v, j)) => r matches Ok(p) && p.value@ == v && p.section.pos == j
                && p.section.tokens@ == slice.slice@ && p.section.depth == slice.depth,
            Err(k) => r matches Err(e) && e.kind() == k,
        },
        r matches Ok(p) ==> slice.pos < p.section.pos <= slice.slice@.len(),
    decreases slice.depth, 1int,
{
    let ghost toks = slice.toks();
    let ghost d = slice.depth as nat;
    let mut iter = RIter::from(slice);
    let mut vec: Vec<TomlValue> = Vec::new();
    let mut after_value = false;
    let mut in_comment = false;
    assert(vals_view(vec@) =~= Seq::<Val>::empty());
    loop
        invariant
            iter.wf(),
            toks == iter.toks(),
            toks == slice.toks(),
            iter.tokens@ == slice.slice@,
            iter.depth == slice.depth,
            d == slice.depth,
            slice.pos <= iter.pos,
            array_step(toks, slice.pos as int, d, Seq::empty(), false, false) == array_step(
                toks,
                iter.pos as int,
                d,
                vals_view(vec@),
                after_value,
                in_comment,
            ),
        decreases iter.tokens@.len() - iter.pos,
    {
        if iter.pos >= iter.tokens.len() {
            return Err(
                TomlError::unexpected_two(ErrLocation::new(iter), Token::Comma, Token::Sbc),
            );
        }
        let i = iter.pos;
        let t = &iter.tokens[i].0;
        assert(toks[i as int] == t@);
        if in_comment {
            in_comment = !t.is_punct(&Token::LineBreak);
            iter.next();
        } else {
            match t {
                Token::LineBreak => {
                    iter.next();
                },
                Token::Hash => {
                    in_comment = true;
                    iter.next();
                },
                Token::Sbc => {
                    iter.next();
                    proof {
                        lemma_array_view(vec);
                    }
                    return Ok(ParsedValue { value: TomlValue::Array(vec), section: iter });
                },
                Token::Comma => {
                    if after_value {
                        after_value = false;
                        iter.next();
                    } else {
                        return Err(
                            TomlError::unexpected_two(ErrLocation::new(iter), Token::Sbc, Token::Literal(Vec::new())),
                        );
                    }
                },
                _ => {
                    if t.is_space() {
                        iter.next();
                    } else if after_value {
                        return Err(
                            TomlError::unexpected_two(ErrLocation::new(iter), Token::Comma, Token::Sbc),
                        );
                    } else {
                        let parsed = parse_value(iter.as_slice())?;
                        let ghost before = vec@;
                        vec.push(parsed.value);
                        assert(vals_view(vec@) =~= vals_view(before).push(vec@.last()@));
                        iter = parsed.section;
                        after_value = true;
                    }
                },
            }
        }
    }
}

/// Reads an inline table whose `{` stands just before the cursor of `slice`.
pub fn parse_inline_table<'a>(slice: RSlice<'a>) -> (r: Result<ParsedValue<'a>, TomlError>)
    requires
        slice.wf(),
    ensures
        match inline_step(slice.toks(), slice.pos as int, slice.depth as nat, Seq::empty(), 0) {
            Ok((v, j)) => r matches Ok(p) && p.value@ == v && p.section.pos == j
                && p.section.tokens@ == slice.slice@ && p.section.depth == slice.depth,
            Err(k) => r matches Err(e) && e.kind() == k,
        },
        r matches Ok(p) ==> slice.pos < p.section.pos <= slice.slice@.len(),
    decreases slice.depth, 1int,
{
    let ghost toks = slice.toks();
    let ghost d = slice.depth as nat;
    let mut iter = RIter::from(slice);
    let mut map: Vec<(TomlKey, TomlValue)> = Vec::new();
    let mut state: u8 = 0;
    assert(entries_view(map@) =~= Seq::<(KeyV, Val)>::empty());
    loop
        invariant
            iter.wf(),
            toks == iter.toks(),
            toks == slice.toks(),
            iter.tokens@ == slice.slice@,
            iter.depth == slice.depth,
            d == slice.depth,
            slice.pos <= iter.pos,
            state <= 2,
            inline_step(toks, slice.pos as int, d, Seq::empty(), 0) == inline_step(
                toks,
                iter.pos as int,
                d,
                entries_view(map@),
                state as int,
            ),
        decreases iter.tokens@.len() - iter.pos,
    {
        if iter.pos >= iter.tokens.len() {
            return Err(
                TomlError::unexpected_one(ErrLocation::new(iter), Token::Cbc),
            );
        }
        let i = iter.pos;
        let t = &iter.tokens[i].0;
        assert(toks[i as int] == t@);
        if t.is_space() {
            iter.next();
        } else if state == 2 {
            match t {
                Token::Comma => {
                    state = 1;
                    iter.next();
                },
                Token::Cbc => {
                    iter.next();
                    proof {
                        lemma_table_view(map);
                    }
                    return Ok(ParsedValue { value: TomlValue::Table(map), section: iter });
                },
                _ => {
                    return Err(
                        TomlError::unexpected_two(ErrLocation::new(iter), Token::Comma, Token::Cbc),
                    );
                },
            }
        } else if state == 0 && t.is_punct(&Token::Cbc) {
            iter.next();
            proof {
                lemma_table_view(map);
            }
            return Ok(ParsedValue { value: TomlValue::Table(map), section: iter });
        } else {
            if !t.is_valid_table_name_or_key() || i + 1 >= iter.tokens.len()
                || !iter.tokens[i + 1].0.is_punct(&Token::Eq) {
                return Err(
                    TomlError::unexpected_two(ErrLocation::new(iter), Token::Cbc, Token::Literal(Vec::new())),
                );
            }
            assert(toks[i + 1] == iter.tokens@[i + 1].0@);
            let key = t.as_key();
            if contains_key(&map, &key) {
                return Err(TomlError::NameUsed(ErrLocation::new(iter)));
            }
            iter.advance_to(i + 2);
            let parsed = parse_value(iter.as_slice())?;
            let ghost before = map@;
            map.push((key, parsed.value));
            assert(entries_view(map@) =~= entries_view(before).push((map@.last().0@, map@.last().1@)));
            iter = parsed.section;
            state = 2;
        }
    }
}

proof fn lemma_skip_blank_bounds(toks: Seq<Tok>, i: int)
    requires
        0 <= i <= toks.len(),
    ensures
        i <= skip_blank(toks, i) <= toks.len(),
    decreases toks.len() - i,
{
    if i < toks.len() && is_blank_lit(toks[i]) {
        lemma_skip_blank_bounds(toks, i + 1);
    }
}

/// A value read at `p` ends after `p` and within the tokens.
pub proof fn lemma_value_progress(toks: Seq<Tok>, p: int, d: nat)
    requires
        value_of(toks, p, d) is Ok,
    ensures
        p < value_of(toks, p, d)->Ok_0.1 <= toks.len(),
    decreases d, toks.len() - p, 0int,
{
    lemma_skip_blank_bounds(toks, p);
    let q = skip_blank(toks, p);
    match toks[q] {
        Tok::DoubleQuote => crate::string::lemma_string_value_progress(toks, q + 1, Tok::DoubleQuote),
        Tok::SingleQuote => crate::string::lemma_string_value_progress(toks, q + 1, Tok::SingleQuote),
        Tok::Sbo => lemma_array_progress(toks, q + 1, (d - 1) as nat, Seq::empty(), false, false),
        Tok::Cbo => lemma_inline_progress(toks, q + 1, (d - 1) as nat, Seq::empty(), 0),
        _ => {},
    }
}

proof fn lemma_array_progress(
    toks: Seq<Tok>,
    i: int,
    d: nat,
    acc: Seq<Val>,
    after_value: bool,
    in_comment: bool,
)
    requires
        array_step(toks, i, d, acc, after_value, in_comment) is Ok,
    ensures
        i < array_step(toks, i, d, acc, after_value, in_comment)->Ok_0.1 <= toks.len(),
    decreases d, toks.len() - i, 1int,
{
    if in_comment {
        lemma_array_progress(toks, i + 1, d, acc, after_value, toks[i] != Tok::LineBreak);
    } else {
        match toks[i] {
            Tok::LineBreak => lemma_array_progress(toks, i + 1, d, acc, after_value, false),
            Tok::Hash => lemma_array_progress(toks, i + 1, d, acc, after_value, true),
            Tok::Sbc => {},
            Tok::Comma => lemma_array_progress(toks, i + 1, d, acc, false, false),
            t => {
                if is_blank_lit(t) {
                    lemma_array_progress(toks, i + 1, d, acc, after_value, false);
                } else {
                    let (v, j) = value_of(toks, i, d)->Ok_0;
                    lemma_array_progress(toks, j, d, acc.push(v), true, false);
                }
            },
        }
    }
}

proof fn lemma_inline_progress(toks: Seq<Tok>, i: int, d: nat, acc: Seq<(KeyV, Val)>, state: int)
    requires
        inline_step(toks, i, d, acc, state) is Ok,
    ensures
        i < inline_step(toks, i, d, acc, state)->Ok_0.1 <= toks.len(),
    decreases d, toks.len() - i, 1int,
{
    if is_blank_lit(toks[i]) {
        lemma_inline_progress(toks, i + 1, d, acc, state);
    } else if state == 2 {
        if toks[i] == Tok::Comma {
            lemma_inline_progress(toks, i + 1, d, acc, 1);
        }
    } else if state == 0 && toks[i] == Tok::Cbc {
    } else {
        match toks[i] {
            Tok::Lit(s) => {
                let (v, j) = value_of(toks, i + 2, d)->Ok_0;
                lemma_inline_progress(toks, j, d, acc.push((KeyV::Lit(trim(s)), v)), 2);
            },
            _ => {},
        }
    }
}

/// No key occurs twice among the entries `t`.
pub open spec fn unique_keys(t: Seq<(KeyV, Val)>) -> bool {
    forall|i: int, j: int| 0 <= i < j < t.len() ==> (#[trigger] t[i]).0 != (#[trigger] t[j]).0
}

/// Every table inside `v`, `v` included, has unique keys.
pub open spec fn tables_unique(v: Val) -> bool
    decreases v,
{
    match v {
        Val::Arr(items) => forall|k: int| 0 <= k < items.len() ==> tables_unique(#[trigger] items[k]),
        Val::Table(t) => unique_keys(t) && forall|k: int|
            0 <= k < t.len() ==> tables_unique(#[trigger] t[k].1),
        _ => true,
    }
}

/// Adding an entry whose key is new keeps the keys unique.
pub proof fn lemma_push_new_key(t: Seq<(KeyV, Val)>, k: KeyV, v: Val)
    requires
        unique_keys(t),
        !has_key(t, k),
    ensures
        unique_keys(t.push((k, v))),
{
    let u = t.push((k, v));
    assert forall|i: int, j: int| 0 <= i < j < u.len() implies (#[trigger] u[i]).0 != (#[trigger] u[j]).0 by {
        if j == t.len() {
            assert(u[i] == t[i]);
        } else {
            assert(u[i] == t[i] && u[j] == t[j]);
        }
    }
}

/// A value read at `p` has unique keys in each of its tables.
pub proof fn lemma_value_tables_unique(toks: Seq<Tok>, p: int, d: nat)
    requires
        value_of(toks, p, d) is Ok,
    ensures
        tables_unique(value_of(toks, p, d)->Ok_0.0),
    decreases d, toks.len() - p, 0int,
{
    let q = skip_blank(toks, p);
    match toks[q] {
        Tok::Sbo => lemma_array_tables_unique(toks, q + 1, (d - 1) as nat, Seq::empty(), false, false),
        Tok::Cbo => lemma_inline_tables_unique(toks, q + 1, (d - 1) as nat, Seq::empty(), 0),
        _ => {},
    }
}

proof fn lemma_array_tables_unique(
    toks: Seq<Tok>,
    i: int,
    d: nat,
    acc: Seq<Val>,
    after_value: bool,
    in_comment: bool,
)
    requires
        array_step(toks, i, d, acc, after_value, in_comment) is Ok,
        forall|k: int| 0 <= k < acc.len() ==> tables_unique(#[trigger] acc[k]),
    ensures
        tables_unique(array_step(toks, i, d, acc, after_value, in_comment)->Ok_0.0),
    decreases d, toks.len() - i, 1int,
{
    if in_comment {
        lemma_array_tables_unique(toks, i + 1, d, acc, after_value, toks[i] != Tok::LineBreak);
    } else {
        match toks[i] {
            Tok::LineBreak => lemma_array_tables_unique(toks, i + 1, d, acc, after_value, false),
            Tok::Hash => lemma_array_tables_unique(toks, i + 1, d, acc, after_value, true),
            Tok::Sbc => {},
            Tok::Comma => lemma_array_tables_unique(toks, i + 1, d, acc, false, false),
            t => {
                if is_blank_lit(t) {
                    lemma_array_tables_unique(toks, i + 1, d, acc, after_value, false);
                } else {
                    let (v, j) = value_of(toks, i, d)->Ok_0;
                    lemma_value_tables_unique(toks, i, d);
                    let next = acc.push(v);
                    assert forall|k: int| 0 <= k < next.len() implies tables_unique(#[trigger] next[k]) by {
                        if k < acc.len() {
                            assert(next[k] == acc[k]);
                        }
                    }
                    lemma_array_tables_unique(toks, j, d, next, true, false);
                }
            },
        }
    }
}

proof fn lemma_inline_tables_unique(toks: Seq<Tok>, i: int, d: nat, acc: Seq<(KeyV, Val)>, state: int)
    requires
        inline_step(toks, i, d, acc, state) is Ok,
        unique_keys(acc),
        forall|k: int| 0 <= k < acc.len() ==> tables_unique(#[trigger] acc[k].1),
    ensures
        tables_unique(inline_step(toks, i, d, acc, state)->Ok_0.0),
    decreases d, toks.len() - i, 1int,
{
    if is_blank_lit(toks[i]) {
        lemma_inline_tables_unique(toks, i + 1, d, acc, state);
    } else if state == 2 {
        if toks[i] == Tok::Comma {
            lemma_inline_tables_unique(toks, i + 1, d, acc, 1);
        }
    } else if state == 0 && toks[i] == Tok::Cbc {
    } else {
        match toks[i] {
            Tok::Lit(s) => {
                let (v, j) = value_of(toks, i + 2, d)->Ok_0;
                lemma_value_tables_unique(toks, i + 2, d);
                let next = acc.push((KeyV::Lit(trim(s)), v));
                lemma_push_new_key(acc, KeyV::Lit(trim(s)), v);
                assert forall|k: int| 0 <= k < next.len() implies tables_unique(#[trigger] next[k].1) by {
                    if k < acc.len() {
                        assert(next[k] == acc[k]);
                    }
                }
                lemma_inline_tables_unique(toks, j, d, next, 2);
            },
            _ => {},
        }
    }
}

} // verus!

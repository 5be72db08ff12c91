//! The top-level table assembler: key/value declarations collected into the
//! implicit table, then into the table of each bracketed header.
use vstd::prelude::*;

use crate::chars::{is_bare_key, trim};
use crate::cursor::{RIter, MAX_DEPTH};
use crate::error::{ErrKind, ErrLocation, TomlError};
use crate::lexer::{lex, lex_from, toks_view, Tok, Token, TokenSized};
use crate::string::is_blank_lit;
use crate::value::{
    contains_key, entries_view, has_key, lemma_push_new_key, lemma_table_view, lemma_value_tables_unique,
    parse_value, tables_unique, unique_keys, value_of,
};
use crate::{KeyV, TomlKey, TomlValue, Val};

verus! {

broadcast use vstd::std_specs::vec::group_vec_axioms;

/// A parsed value, with the cursor just after it.
#[derive(Debug)]
pub struct ParsedValue<'a> {
    pub value: TomlValue,
    pub section: RIter<'a>,
}

/// The declaration `key = value` whose key is token `i`, added to the entries
/// `cur`: the new entries and the position after the value. The key must be
/// bare, `=` must follow it, and it must be new to `cur`.
pub open spec fn declaration(toks: Seq<Tok>, i: int, cur: Seq<(KeyV, Val)>, d: nat) -> Result<
    (Seq<(KeyV, Val)>, int),
    ErrKind,
> {
    if i < 0 || i >= toks.len() {
        Err(ErrKind::UnexpectedCharacter(seq![Tok::Lit(Seq::empty())]))
    } else {
        match toks[i] {
            Tok::Lit(s) => {
                if !is_bare_key(trim(s)) || i + 1 >= toks.len() || toks[i + 1] != Tok::Eq {
                    Err(ErrKind::UnexpectedCharacter(seq![Tok::Eq]))
                } else if has_key(cur, KeyV::Lit(trim(s))) {
                    Err(ErrKind::NameUsed)
                } else {
                    match value_of(toks, i + 2, d) {
                        Ok((v, j)) => Ok((cur.push((KeyV::Lit(trim(s)), v)), j)),
                        Err(k) => Err(k),
                    }
                }
            },
            _ => Err(ErrKind::UnexpectedCharacter(seq![Tok::Eq])),
        }
    }
}

/// The root entries once the open scope is closed: the implicit table joins
/// only where it holds a declaration, a named table always.
pub open spec fn close_scope(root: Seq<(KeyV, Val)>, key: KeyV, cur: Seq<(KeyV, Val)>) -> Seq<(KeyV, Val)> {
    if key == KeyV::Root && cur.len() == 0 {
        root
    } else {
        root.push((key, Val::Table(cur)))
    }
}

/// The key of the table header `[name]` that starts at token `i`, if one does.
pub open spec fn header_at(toks: Seq<Tok>, i: int) -> Option<KeyV> {
    if 0 <= i && i + 2 < toks.len() && toks[i] == Tok::Sbo && toks[i + 2] == Tok::Sbc {
        match toks[i + 1] {
            Tok::Lit(s) => if is_bare_key(trim(s)) {
                Some(KeyV::Lit(trim(s)))
            } else {
                None
            },
            _ => None,
        }
    } else {
        None
    }
}

/// The document from token `i` on. `root` holds the closed scopes, `key` and
/// `cur` the open one. `state` is 0 at the start of a line, 1 after a
/// declaration or header (only white space or a comment may end the line), and
/// 2 inside a comment.
pub open spec fn doc_step(
    toks: Seq<Tok>,
    i: int,
    d: nat,
    root: Seq<(KeyV, Val)>,
    key: KeyV,
    cur: Seq<(KeyV, Val)>,
    state: int,
) -> Result<Val, ErrKind>
    decreases toks.len() - i,
{
    if i < 0 || i >= toks.len() {
        Ok(Val::Table(close_scope(root, key, cur)))
    } else if state == 2 {
        doc_step(toks, i + 1, d, root, key, cur, if toks[i] == Tok::LineBreak { 0 } else { 2 })
    } else if toks[i] == Tok::LineBreak {
        doc_step(toks, i + 1, d, root, key, cur, 0)
    } else if is_blank_lit(toks[i]) {
        doc_step(toks, i + 1, d, root, key, cur, state)
    } else if toks[i] == Tok::Hash {
        doc_step(toks, i + 1, d, root, key, cur, 2)
    } else if state == 1 {
        Err(ErrKind::UnexpectedCharacter(seq![Tok::LineBreak]))
    } else if toks[i] == Tok::Sbo {
        match header_at(toks, i) {
            Some(k) => {
                let closed = close_scope(root, key, cur);
                if has_key(closed, k) {
                    Err(ErrKind::NameUsed)
                } else {
                    doc_step(toks, i + 3, d, closed, k, Seq::empty(), 1)
                }
            },
            None => Err(ErrKind::UnexpectedCharacter(seq![Tok::Lit(Seq::empty()), Tok::Sbc])),
        }
    } else {
        match declaration(toks, i, cur, d) {
            Ok((next, j)) => {
                if i < j <= toks.len() {
                    doc_step(toks, j, d, root, key, next, 1)
                } else {
                    Err(ErrKind::UnexpectedCharacter(seq![Tok::LineBreak]))
                }
            },
            Err(k) => Err(k),
        }
    }
}

/// A whole document of tokens: the root table.
pub open spec fn document_of(toks: Seq<Tok>, d: nat) -> Result<Val, ErrKind> {
    doc_step(toks, 0, d, Seq::empty(), KeyV::Root, Seq::empty(), 0)
}

/// A whole document of bytes: its tokens, then its root table.
pub open spec fn parse_of(data: Seq<u8>) -> Result<Val, ErrKind> {
    match lex_from(data, 0) {
        None => Err(ErrKind::Utf8Error),
        Some(ts) => document_of(ts.map_values(|p: (Tok, nat)| p.0), MAX_DEPTH as nat),
    }
}

impl<'a> ParsedValue<'a> {
    /// A value with the cursor after it.
    pub fn new(value: TomlValue, section: RIter<'a>) -> (r: Self)
        ensures
            r.value == value,
            r.section == section,
    {
        ParsedValue { value, section }
    }

    /// The declaration whose key is the token at the cursor, added to
    /// `table_content`; the cursor moves past its value.
    pub fn key_value(iter: &mut RIter<'a>, table_content: &mut Vec<(TomlKey, TomlValue)>) -> (r:
        Result<(), TomlError>)
        requires
            old(iter).wf(),
        ensures
            final(iter).wf(),
            final(iter).same_run(*old(iter)),
            match declaration(
                old(iter).toks(),
                old(iter).pos as int,
                entries_view(old(table_content)@),
                old(iter).depth as nat,
            ) {
                Ok((next, j)) => r is Ok && entries_view(final(table_content)@) == next
                    && final(iter).pos == j && old(iter).pos < j,
                Err(k) => r matches Err(e) && e.kind() == k,
            },
            r is Err ==> final(table_content)@ == old(table_content)@,
    {
        let ghost toks = iter.toks();
        let i = iter.pos;
        if i >= iter.tokens.len() {
            return Err(TomlError::unexpected_one(ErrLocation::new(*iter), Token::Literal(Vec::new())));
        }
        let token = &iter.tokens[i].0;
        assert(toks[i as int] == token@);
        if !token.is_valid_table_name_or_key() || i + 1 >= iter.tokens.len()
            || !iter.tokens[i + 1].0.is_punct(&Token::Eq) {
            return Err(TomlError::unexpected_one(ErrLocation::new(*iter), Token::Eq));
        }
        assert(toks[i + 1] == iter.tokens@[i + 1].0@);
        let key = token.as_key();
        if contains_key(table_content, &key) {
            return Err(TomlError::NameUsed(ErrLocation::new(*iter)));
        }
        iter.advance_to(i + 2);
        let parsed = parse_value(iter.as_slice())?;
        let ghost before = table_content@;
        table_content.push((key, parsed.value));
        assert(entries_view(table_content@) =~= entries_view(before).push(
            (table_content@.last().0@, table_content@.last().1@),
        ));
        *iter = parsed.section;
        Ok(())
    }

    /// Assembles the document that starts at this cursor into its root table.
    pub fn parse(self) -> (r: Result<TomlValue, TomlError>)
        requires
            self.section.wf(),
        ensures
            match doc_step(
                self.section.toks(),
                self.section.pos as int,
                self.section.depth as nat,
                Seq::empty(),
                KeyV::Root,
                Seq::empty(),
                0,
            ) {
                Ok(v) => r matches Ok(t) && t@ == v,
                Err(k) => r matches Err(e) && e.kind() == k,
            },
    {
        let mut iter = self.section;
        let ghost toks = iter.toks();
        let ghost d = iter.depth as nat;
        let ghost start = iter.pos as int;
        let mut root: Vec<(TomlKey, TomlValue)> = Vec::new();
        let mut key = TomlKey::Root;
        let mut cur: Vec<(TomlKey, TomlValue)> = Vec::new();
        let mut state: u8 = 0;
        assert(entries_view(root@) =~= Seq::<(KeyV, Val)>::empty());
        loop
            invariant
                iter.wf(),
                toks == iter.toks(),
                toks == self.section.toks(),
                d == self.section.depth,
                start == self.section.pos,
                iter.depth == self.section.depth,
                state <= 2,
                doc_step(toks, start, d, Seq::empty(), KeyV::Root, Seq::empty(), 0) == doc_step(
                    toks,
                    iter.pos as int,
                    d,
                    entries_view(root@),
                    key@,
                    entries_view(cur@),
                    state as int,
                ),
            decreases iter.tokens@.len() - iter.pos,
        {
            if iter.pos >= iter.tokens.len() {
                close_open_scope(&mut root, key, cur);
                proof {
                    lemma_table_view(root);
                }
                return Ok(TomlValue::Table(root));
            }
            let i = iter.pos;
            let t = &iter.tokens[i].0;
            assert(toks[i as int] == t@);
            if state == 2 {
                if t.is_punct(&Token::LineBreak) {
                    state = 0;
                }
                iter.next();
            } else if t.is_punct(&Token::LineBreak) {
                state = 0;
                iter.next();
            } else if t.is_space() {
                iter.next();
            } else if t.is_punct(&Token::Hash) {
                state = 2;
                iter.next();
            } else if state == 1 {
                return Err(TomlError::unexpected_one(ErrLocation::new(iter), Token::LineBreak));
            } else if t.is_sbo() {
                let n = iter.tokens.len();
                if n - i <= 2 || !iter.tokens[i + 1].0.is_valid_table_name_or_key()
                    || !iter.tokens[i + 2].0.is_punct(&Token::Sbc) {
                    return Err(
                        TomlError::unexpected_two(ErrLocation::new(iter), Token::Literal(Vec::new()), Token::Sbc),
                    );
                }
                assert(toks[i + 1] == iter.tokens@[i + 1].0@);
                assert(toks[i + 2] == iter.tokens@[i + 2].0@);
                let name = iter.tokens[i + 1].0.as_key();
                close_open_scope(&mut root, key, cur);
                if contains_key(&root, &name) {
                    return Err(TomlError::NameUsed(ErrLocation::new(iter)));
                }
                key = name;
                cur = Vec::new();
                assert(entries_view(cur@) =~= Seq::<(KeyV, Val)>::empty());
                iter.advance_to(i + 3);
                state = 1;
            } else {
                Self::key_value(&mut iter, &mut cur)?;
                state = 1;
            }
        }
    }
}

/// Closes the open scope `key`/`cur` into `root`.
fn close_open_scope(root: &mut Vec<(TomlKey, TomlValue)>, key: TomlKey, cur: Vec<(TomlKey, TomlValue)>)
    ensures
        entries_view(final(root)@) == close_scope(entries_view(old(root)@), key@, entries_view(cur@)),
{
    let is_root = match key {
        TomlKey::Root => true,
        _ => false,
    };
    if is_root && cur.len() == 0 {
        return ;
    }
    proof {
        lemma_table_view(cur);
    }
    let ghost before = root@;
    root.push((key, TomlValue::Table(cur)));
    assert(entries_view(root@) =~= entries_view(before).push((root@.last().0@, root@.last().1@)));
}

/// Parses a whole document held as bytes.
pub fn parse_bytes(data: &[u8]) -> (r: Result<TomlValue, TomlError>)
    ensures
        match parse_of(data@) {
            Ok(v) => r matches Ok(t) && t@ == v,
            Err(k) => r matches Err(e) && e.kind() == k,
        },
{
    let tokens: Vec<TokenSized> = lex(data)?;
    proof {
        let ts = lex_from(data@, 0)->0;
        assert(toks_view(tokens@) =~= ts.map_values(|p: (Tok, nat)| p.0));
    }
    let iter = RIter::new(tokens.as_slice());
    ParsedValue::new(TomlValue::Int(0), iter).parse()
}

/// A document that is the single declaration `k = v`, with `k` a bare key,
/// is a root table holding only the implicit table, which holds only `k`,
/// bound to the value that `v` reads as.
pub proof fn lemma_single_declaration(toks: Seq<Tok>, k: Seq<char>, d: nat, v: Val)
    requires
        toks.len() >= 2,
        toks[0] == Tok::Lit(k),
        is_bare_key(trim(k)),
        toks[1] == Tok::Eq,
        value_of(toks, 2, d) == Ok::<(Val, int), ErrKind>((v, toks.len() as int)),
    ensures
        document_of(toks, d) == Ok::<Val, ErrKind>(
            Val::Table(seq![(KeyV::Root, Val::Table(seq![(KeyV::Lit(trim(k)), v)]))]),
        ),
{
    let e = Seq::<(KeyV, Val)>::empty();
    assert(!has_key(e, KeyV::Lit(trim(k))));
    assert(declaration(toks, 0, e, d) == Ok::<(Seq<(KeyV, Val)>, int), ErrKind>(
        (e.push((KeyV::Lit(trim(k)), v)), toks.len() as int),
    ));
    assert(e.push((KeyV::Lit(trim(k)), v)) =~= seq![(KeyV::Lit(trim(k)), v)]);
    assert(e.push((KeyV::Root, Val::Table(seq![(KeyV::Lit(trim(k)), v)]))) =~= seq![
        (KeyV::Root, Val::Table(seq![(KeyV::Lit(trim(k)), v)])),
    ]);
    let cur = seq![(KeyV::Lit(trim(k)), v)];
    assert(close_scope(e, KeyV::Root, cur) =~= seq![(KeyV::Root, Val::Table(cur))]);
    assert(doc_step(toks, toks.len() as int, d, e, KeyV::Root, cur, 1) == Ok::<Val, ErrKind>(
        Val::Table(seq![(KeyV::Root, Val::Table(cur))]),
    ));
    assert(!is_blank_lit(toks[0]));
}

/// A key declared a second time in the same table is refused with
/// `NameUsed`: here `k1 = v1` on the first line and `k2 = ...` on the next,
/// where `k1` and `k2` name the same bare key.
pub proof fn lemma_duplicate_key(toks: Seq<Tok>, k1: Seq<char>, k2: Seq<char>, d: nat, j: int)
    requires
        toks.len() >= 2,
        toks[0] == Tok::Lit(k1),
        is_bare_key(trim(k1)),
        toks[1] == Tok::Eq,
        value_of(toks, 2, d) is Ok,
        j == value_of(toks, 2, d)->Ok_0.1,
        j + 2 < toks.len(),
        toks[j] == Tok::LineBreak,
        toks[j + 1] == Tok::Lit(k2),
        trim(k2) == trim(k1),
        toks[j + 2] == Tok::Eq,
    ensures
        document_of(toks, d) == Err::<Val, ErrKind>(ErrKind::NameUsed),
{
    crate::value::lemma_value_progress(toks, 2, d);
    let v = value_of(toks, 2, d)->Ok_0.0;
    let e = Seq::<(KeyV, Val)>::empty();
    let cur = e.push((KeyV::Lit(trim(k1)), v));
    assert(!has_key(e, KeyV::Lit(trim(k1))));
    assert(declaration(toks, 0, e, d) == Ok::<(Seq<(KeyV, Val)>, int), ErrKind>((cur, j)));
    assert(cur[0].0 == KeyV::Lit(trim(k2)));
    assert(has_key(cur, KeyV::Lit(trim(k2))));
    assert(doc_step(toks, j + 1, d, e, KeyV::Root, cur, 0) == Err::<Val, ErrKind>(ErrKind::NameUsed));
    assert(doc_step(toks, j, d, e, KeyV::Root, cur, 1) == Err::<Val, ErrKind>(ErrKind::NameUsed));
}

proof fn lemma_close_scope_unique(root: Seq<(KeyV, Val)>, key: KeyV, cur: Seq<(KeyV, Val)>)
    requires
        unique_keys(root),
        forall|k: int| 0 <= k < root.len() ==> tables_unique(#[trigger] root[k].1),
        !has_key(root, key),
        unique_keys(cur),
        forall|k: int| 0 <= k < cur.len() ==> tables_unique(#[trigger] cur[k].1),
    ensures
        unique_keys(close_scope(root, key, cur)),
        forall|k: int|
            0 <= k < close_scope(root, key, cur).len() ==> tables_unique(
                #[trigger] close_scope(root, key, cur)[k].1,
            ),
{
    if !(key == KeyV::Root && cur.len() == 0) {
        let t = Val::Table(cur);
        assert(tables_unique(t));
        lemma_push_new_key(root, key, t);
        let c = root.push((key, t));
        assert forall|k: int| 0 <= k < c.len() implies tables_unique(#[trigger] c[k].1) by {
            if k < root.len() {
                assert(c[k] == root[k]);
            }
        }
    }
}

proof fn lemma_doc_tables_unique(
    toks: Seq<Tok>,
    i: int,
    d: nat,
    root: Seq<(KeyV, Val)>,
    key: KeyV,
    cur: Seq<(KeyV, Val)>,
    state: int,
)
    requires
        doc_step(toks, i, d, root, key, cur, state) is Ok,
        unique_keys(root),
        forall|k: int| 0 <= k < root.len() ==> tables_unique(#[trigger] root[k].1),
        !has_key(root, key),
        unique_keys(cur),
        forall|k: int| 0 <= k < cur.len() ==> tables_unique(#[trigger] cur[k].1),
    ensures
        tables_unique(doc_step(toks, i, d, root, key, cur, state)->Ok_0),
    decreases toks.len() - i,
{
    if i < 0 || i >= toks.len() {
        lemma_close_scope_unique(root, key, cur);
    } else if state == 2 {
        lemma_doc_tables_unique(toks, i + 1, d, root, key, cur, if toks[i] == Tok::LineBreak { 0 } else { 2 });
    } else if toks[i] == Tok::LineBreak {
        lemma_doc_tables_unique(toks, i + 1, d, root, key, cur, 0);
    } else if is_blank_lit(toks[i]) {
        lemma_doc_tables_unique(toks, i + 1, d, root, key, cur, state);
    } else if toks[i] == Tok::Hash {
        lemma_doc_tables_unique(toks, i + 1, d, root, key, cur, 2);
    } else if state == 1 {
    } else if toks[i] == Tok::Sbo {
        let k = header_at(toks, i)->0;
        lemma_close_scope_unique(root, key, cur);
        let closed = close_scope(root, key, cur);
        let e = Seq::<(KeyV, Val)>::empty();
        assert(unique_keys(e));
        lemma_doc_tables_unique(toks, i + 3, d, closed, k, e, 1);
    } else {
        match toks[i] {
            Tok::Lit(s) => {
                let k = KeyV::Lit(trim(s));
                let (next, j) = declaration(toks, i, cur, d)->Ok_0;
                let v = value_of(toks, i + 2, d)->Ok_0.0;
                lemma_value_tables_unique(toks, i + 2, d);
                lemma_push_new_key(cur, k, v);
                assert forall|m: int| 0 <= m < next.len() implies tables_unique(#[trigger] next[m].1) by {
                    if m < cur.len() {
                        assert(next[m] == cur[m]);
                    }
                }
                lemma_doc_tables_unique(toks, j, d, root, key, next, 1);
            },
            _ => {},
        }
    }
}

/// Every table of a parsed document (the root, the implicit and named
/// tables, inline tables at any depth) holds each of its keys once.
pub proof fn lemma_document_keys_unique(toks: Seq<Tok>, d: nat)
    requires
        document_of(toks, d) is Ok,
    ensures
        tables_unique(document_of(toks, d)->Ok_0),
{
    let e = Seq::<(KeyV, Val)>::empty();
    assert(unique_keys(e));
    assert(!has_key(e, KeyV::Root));
    lemma_doc_tables_unique(toks, 0, d, e, KeyV::Root, e, 0);
}

} // verus!

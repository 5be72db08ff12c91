//! The canonical token form of integers, strings and arrays, and the law
//! that reading that form back gives the value it was written from.
use vstd::prelude::*;

use crate::chars::{is_ws, skip_ws, rskip_ws, trim};
use crate::error::ErrKind;
use crate::chars::is_bare_key;
use crate::cursor::MAX_DEPTH;
use crate::lexer::{lemma_prepend_assoc, lex_from, literal_end, prepend, special_tok, Tok};
use crate::parser::{close_scope, declaration, doc_step, document_of, lemma_single_declaration, parse_of};
use crate::KeyV;
use vstd::utf8::{
    decode_utf8, encode_utf8, encode_utf8_decode_utf8, encode_utf8_valid_utf8, is_ascii_chars,
    is_ascii_chars_encode_utf8, valid_utf8,
};
use crate::num::{
    all_digits, digit_of, digits_value, integer_of, int_of_radix, is_dec, literal_value_of,
    num_or_date_of, separators_ok, special_of, strip_separators, Hint,
};
use crate::string::{is_blank_lit, literal_body, string_start};
use crate::value::{array_step, has_key, skip_blank, value_of};
use crate::Val;

verus! {

/// The decimal digit that writes `m`, for `m < 10`.
pub open spec fn digit_char(m: nat) -> char {
    if m == 0 {
        '0'
    } else if m == 1 {
        '1'
    } else if m == 2 {
        '2'
    } else if m == 3 {
        '3'
    } else if m == 4 {
        '4'
    } else if m == 5 {
        '5'
    } else if m == 6 {
        '6'
    } else if m == 7 {
        '7'
    } else if m == 8 {
        '8'
    } else {
        '9'
    }
}

/// The decimal digits of `m`, without leading zeros.
pub open spec fn nat_digits(m: nat) -> Seq<char>
    decreases m,
{
    if m < 10 {
        seq![digit_char(m)]
    } else {
        nat_digits(m / 10).push(digit_char(m % 10))
    }
}

/// The canonical text of an integer: a `-` for a negative one, then its digits.
pub open spec fn int_text(n: i64) -> Seq<char> {
    if n < 0 {
        seq!['-'] + nat_digits((0 - n) as nat)
    } else {
        nat_digits(n as nat)
    }
}

/// The canonical tokens of a value: an integer as its decimal literal, a
/// string as a literal string in single quotes, an array as `[`, each element
/// followed by `,`, then `]`. Other values have no canonical form.
pub open spec fn ser(v: Val) -> Seq<Tok>
    decreases v, 0int,
{
    match v {
        Val::Int(n) => seq![Tok::Lit(int_text(n))],
        Val::Str(s) => seq![Tok::SingleQuote, Tok::Lit(s), Tok::SingleQuote],
        Val::Arr(items) => seq![Tok::Sbo] + ser_items(items, items.len() as int) + seq![Tok::Sbc],
        _ => Seq::empty(),
    }
}

/// The canonical tokens of the first `k` elements of an array.
pub open spec fn ser_items(items: Seq<Val>, k: int) -> Seq<Tok>
    decreases items, k,
{
    if k <= 0 || k > items.len() {
        Seq::empty()
    } else {
        ser_items(items, k - 1) + ser(items[k - 1]) + seq![Tok::Comma]
    }
}

/// A value made of integers, strings (without a single quote or a line
/// break) and arrays, nested at most `d` deep: the values `ser` writes.
pub open spec fn canonical(v: Val, d: nat) -> bool
    decreases v,
{
    match v {
        Val::Int(_) => true,
        Val::Str(s) => forall|i: int| 0 <= i < s.len() ==> #[trigger] s[i] != '\'' && s[i] != '\n',
        Val::Arr(items) => d > 0 && forall|k: int|
            0 <= k < items.len() ==> canonical(#[trigger] items[k], (d - 1) as nat),
        _ => false,
    }
}

proof fn lemma_digit_char(m: nat)
    requires
        m < 10,
    ensures
        is_dec(digit_char(m)),
        digit_of(digit_char(m), 10) == Some(m),
{
}

proof fn lemma_nat_digits(m: nat)
    ensures
        nat_digits(m).len() >= 1,
        forall|i: int| 0 <= i < nat_digits(m).len() ==> is_dec(#[trigger] nat_digits(m)[i]),
        all_digits(nat_digits(m), 10),
        digits_value(nat_digits(m), 10) == m,
    decreases m,
{
    if m < 10 {
        lemma_digit_char(m);
        assert(nat_digits(m).drop_last() =~= Seq::<char>::empty());
        assert(digits_value(nat_digits(m), 10) == digits_value(Seq::<char>::empty(), 10) * 10 + m);
    } else {
        lemma_nat_digits(m / 10);
        lemma_digit_char(m % 10);
        let x = nat_digits(m / 10);
        assert(nat_digits(m).drop_last() =~= x);
        assert(m == (m / 10) * 10 + m % 10) by (nonlinear_arith);
        assert(digits_value(nat_digits(m), 10) == digits_value(x, 10) * 10 + (m % 10));
        assert forall|i: int| 0 <= i < nat_digits(m).len() implies is_dec(#[trigger] nat_digits(m)[i]) by {
            if i < x.len() {
                assert(nat_digits(m)[i] == x[i]);
            }
        }
    }
}

proof fn lemma_no_ws_trim(s: Seq<char>)
    requires
        s.len() >= 1,
        forall|i: int| 0 <= i < s.len() ==> !is_ws(#[trigger] s[i]),
    ensures
        trim(s) == s,
{
    assert(skip_ws(s, 0) == 0);
    assert(rskip_ws(s, 0, s.len() as int) == s.len());
    assert(s.subrange(0, s.len() as int) =~= s);
}

proof fn lemma_no_separator(s: Seq<char>)
    requires
        forall|i: int| 0 <= i < s.len() ==> #[trigger] s[i] != '_',
    ensures
        separators_ok(s),
        strip_separators(s) == s,
    decreases s.len(),
{
    if s.len() > 0 {
        lemma_no_separator(s.drop_last());
        assert(s.drop_last().push(s.last()) =~= s);
    }
}

/// The canonical literal of an integer reads back as that integer.
proof fn lemma_int_text(n: i64)
    ensures
        literal_value_of(trim(int_text(n))) == Ok::<Val, ErrKind>(Val::Int(n)),
        int_text(n).len() >= 1,
        trim(int_text(n)).len() >= 1,
{
    let t = int_text(n);
    if n < 0 {
        let m = (0 - n) as nat;
        lemma_nat_digits(m);
        let ds = nat_digits(m);
        assert(t.subrange(1, t.len() as int) =~= ds);
        assert forall|i: int| 0 <= i < t.len() implies !is_ws(#[trigger] t[i]) && t[i] != '_' by {
            if i > 0 {
                assert(t[i] == ds[i - 1]);
            }
        }
        lemma_no_ws_trim(t);
        lemma_no_separator(t);
        assert(special_of(ds) is None) by {
            assert(is_dec(ds[0]));
            if ds =~= seq!['i', 'n', 'f'] {
                assert(ds[0] == 'i');
            }
            if ds =~= seq!['n', 'a', 'n'] {
                assert(ds[0] == 'n');
            }
        }
        assert(int_of_radix(t, 10) == Some(n));
        assert(integer_of(t) == Some(n));
        assert(num_or_date_of(t, Hint::Negative) == Ok::<Val, ErrKind>(Val::Int(n)));
        assert(!(t =~= seq!['i', 'n', 'f'])) by {
            if t =~= seq!['i', 'n', 'f'] {
                assert(t[0] == 'i');
            }
        }
        assert(!(t =~= seq!['n', 'a', 'n'])) by {
            if t =~= seq!['n', 'a', 'n'] {
                assert(t[0] == 'n');
            }
        }
        assert(!(t =~= seq!['t', 'r', 'u', 'e'])) by {
            if t =~= seq!['t', 'r', 'u', 'e'] {
                assert(t[0] == 't');
            }
        }
        assert(!(t =~= seq!['f', 'a', 'l', 's', 'e'])) by {
            if t =~= seq!['f', 'a', 'l', 's', 'e'] {
                assert(t[0] == 'f');
            }
        }
    } else {
        let m = n as nat;
        lemma_nat_digits(m);
        assert forall|i: int| 0 <= i < t.len() implies !is_ws(#[trigger] t[i]) && t[i] != '_' by {
            assert(is_dec(t[i]));
        }
        lemma_no_ws_trim(t);
        lemma_no_separator(t);
        assert(is_dec(t[0]));
        if t.len() >= 2 {
            assert(is_dec(t[1]));
        }
        assert(int_of_radix(t, 10) == Some(n));
        assert(integer_of(t) == Some(n));
        assert(num_or_date_of(t, Hint::Number) == Ok::<Val, ErrKind>(Val::Int(n)));
        assert(!(t =~= seq!['i', 'n', 'f'])) by {
            if t =~= seq!['i', 'n', 'f'] {
                assert(t[0] == 'i');
            }
        }
        assert(!(t =~= seq!['n', 'a', 'n'])) by {
            if t =~= seq!['n', 'a', 'n'] {
                assert(t[0] == 'n');
            }
        }
        assert(!(t =~= seq!['t', 'r', 'u', 'e'])) by {
            if t =~= seq!['t', 'r', 'u', 'e'] {
                assert(t[0] == 't');
            }
        }
        assert(!(t =~= seq!['f', 'a', 'l', 's', 'e'])) by {
            if t =~= seq!['f', 'a', 'l', 's', 'e'] {
                assert(t[0] == 'f');
            }
        }
    }
}

/// `w` stands in `toks` from position `p` on.
pub open spec fn occurs_at(toks: Seq<Tok>, p: int, w: Seq<Tok>) -> bool {
    &&& 0 <= p
    &&& p + w.len() <= toks.len()
    &&& forall|i: int| 0 <= i < w.len() ==> toks[p + i] == #[trigger] w[i]
}

/// The first canonical token opens the value: it is no separator, no line
/// break, no comment and no white space.
proof fn lemma_ser_first(v: Val, d: nat)
    requires
        canonical(v, d),
    ensures
        ser(v).len() >= 1,
        !is_blank_lit(ser(v)[0]),
        ser(v)[0] != Tok::LineBreak,
        ser(v)[0] != Tok::Hash,
        ser(v)[0] != Tok::Sbc,
        ser(v)[0] != Tok::Comma,
{
    if let Val::Int(n) = v {
        lemma_int_text(n);
    }
}

proof fn lemma_ser_items_prefix(items: Seq<Val>, k: int, m: int)
    requires
        0 <= k <= m <= items.len(),
    ensures
        ser_items(items, k).len() <= ser_items(items, m).len(),
        forall|i: int|
            0 <= i < ser_items(items, k).len() ==> #[trigger] ser_items(items, m)[i] == ser_items(
                items,
                k,
            )[i],
    decreases m - k,
{
    if k < m {
        lemma_ser_items_prefix(items, k, m - 1);
        assert(ser_items(items, m) == ser_items(items, m - 1) + ser(items[m - 1]) + seq![Tok::Comma]);
        assert forall|i: int| 0 <= i < ser_items(items, k).len() implies #[trigger] ser_items(
            items,
            m,
        )[i] == ser_items(items, k)[i] by {
            assert(ser_items(items, m)[i] == ser_items(items, m - 1)[i]);
        }
    }
}

proof fn lemma_reparse_items(toks: Seq<Tok>, p: int, items: Seq<Val>, k: int, d: nat)
    requires
        occurs_at(toks, p, ser_items(items, items.len() as int)),
        p + ser_items(items, items.len() as int).len() < toks.len(),
        toks[p + ser_items(items, items.len() as int).len()] == Tok::Sbc,
        0 <= k <= items.len(),
        forall|i: int| 0 <= i < items.len() ==> canonical(#[trigger] items[i], d),
    ensures
        array_step(toks, p + ser_items(items, k).len(), d, items.subrange(0, k), false, false)
            == Ok::<(Val, int), ErrKind>(
            (Val::Arr(items), p + ser_items(items, items.len() as int).len() + 1),
        ),
    decreases items, items.len() - k,
{
    let all = ser_items(items, items.len() as int);
    if k == items.len() {
        assert(items.subrange(0, k) =~= items);
    } else {
        lemma_ser_items_prefix(items, k + 1, items.len() as int);
        let head = ser_items(items, k);
        let w = ser(items[k]);
        assert(ser_items(items, k + 1) == head + w + seq![Tok::Comma]);
        let a = p + head.len();
        assert(occurs_at(toks, a, w)) by {
            assert forall|i: int| 0 <= i < w.len() implies toks[a + i] == #[trigger] w[i] by {
                assert(ser_items(items, k + 1)[head.len() + i] == w[i]);
                assert(all[head.len() + i] == ser_items(items, k + 1)[head.len() + i]);
            }
        }
        let j = a + w.len();
        assert(toks[j] == Tok::Comma) by {
            assert(ser_items(items, k + 1)[(head.len() + w.len()) as int] == Tok::Comma);
            assert(all[(head.len() + w.len()) as int] == ser_items(items, k + 1)[(head.len() + w.len()) as int]);
        }
        lemma_reparse(toks, a, items[k], d);
        lemma_ser_first(items[k], d);
        assert(toks[a] == w[0]);
        let acc = items.subrange(0, k);
        assert(array_step(toks, j, d, acc.push(items[k]), true, false) == array_step(
            toks,
            j + 1,
            d,
            acc.push(items[k]),
            false,
            false,
        ));
        assert(array_step(toks, a, d, acc, false, false) == array_step(
            toks,
            j,
            d,
            acc.push(items[k]),
            true,
            false,
        ));
        assert(acc.push(items[k]) =~= items.subrange(0, k + 1));
        lemma_reparse_items(toks, p, items, k + 1, d);
    }
}

/// Where the canonical tokens of `v` stand at `p`, the value read there is
/// `v`, and reading stops right after them.
proof fn lemma_reparse(toks: Seq<Tok>, p: int, v: Val, d: nat)
    requires
        occurs_at(toks, p, ser(v)),
        canonical(v, d),
    ensures
        value_of(toks, p, d) == Ok::<(Val, int), ErrKind>((v, p + ser(v).len())),
    decreases v, 0int,
{
    lemma_ser_first(v, d);
    assert(toks[p] == ser(v)[0]);
    assert(skip_blank(toks, p) == p);
    match v {
        Val::Int(n) => {
            lemma_int_text(n);
        },
        Val::Str(s) => {
            assert(toks[p + 1] == ser(v)[1]);
            assert(toks[p + 2] == ser(v)[2]);
            assert(string_start(toks, p + 1, Tok::SingleQuote) == Some((p + 1, false)));
            assert(Seq::<char>::empty() + s =~= s);
            assert(literal_body(toks, p + 1, false, Seq::empty()) == literal_body(toks, p + 2, false, s));
        },
        Val::Arr(items) => {
            let all = ser_items(items, items.len() as int);
            assert(ser(v) == seq![Tok::Sbo] + all + seq![Tok::Sbc]);
            assert(occurs_at(toks, p + 1, all)) by {
                assert forall|i: int| 0 <= i < all.len() implies toks[p + 1 + i] == #[trigger] all[i] by {
                    assert(ser(v)[1 + i] == all[i]);
                }
            }
            assert(toks[p + 1 + all.len()] == Tok::Sbc) by {
                assert(ser(v)[(1 + all.len()) as int] == Tok::Sbc);
            }
            assert forall|i: int| 0 <= i < items.len() implies canonical(
                #[trigger] items[i],
                (d - 1) as nat,
            ) by {}
            lemma_reparse_items(toks, p + 1, items, 0, (d - 1) as nat);
            assert(items.subrange(0, 0) =~= Seq::<Val>::empty());
        },
        _ => {},
    }
}

/// Writing a value that was read (made of integers, strings and arrays) in
/// its canonical tokens and reading those again gives an equal value, and
/// the reading ends exactly at the end of the tokens.
pub proof fn lemma_canonical_round_trip(toks: Seq<Tok>, p: int, d: nat, v: Val, j: int)
    requires
        value_of(toks, p, d) == Ok::<(Val, int), ErrKind>((v, j)),
        canonical(v, d),
    ensures
        value_of(ser(v), 0, d) == Ok::<(Val, int), ErrKind>((v, ser(v).len() as int)),
{
    lemma_reparse(ser(v), 0, v, d);
}

// ---------------------------------------------------------------------------
// Canonical text

/// An ASCII character that is no punctuation byte of the tokenizer.
pub open spec fn is_plain(c: char) -> bool {
    '\0' <= c && c <= '\u{7f}' && special_tok(c as u8) is None
}

/// The canonical text of a value: an integer in decimal, a string in single
/// quotes, an array as `[`, each element followed by `,`, then `]`.
pub open spec fn ser_chars(v: Val) -> Seq<char>
    decreases v, 0int,
{
    match v {
        Val::Int(n) => int_text(n),
        Val::Str(s) => seq!['\''] + s + seq!['\''],
        Val::Arr(items) => seq!['['] + items_chars(items, items.len() as int) + seq![']'],
        _ => Seq::empty(),
    }
}

/// The canonical text of the first `k` elements of an array.
pub open spec fn items_chars(items: Seq<Val>, k: int) -> Seq<char>
    decreases items, k,
{
    if k <= 0 || k > items.len() {
        Seq::empty()
    } else {
        items_chars(items, k - 1) + ser_chars(items[k - 1]) + seq![',']
    }
}

/// The tokens, with their byte lengths, that the canonical text of `v` lexes to.
pub open spec fn ser_sized(v: Val) -> Seq<(Tok, nat)>
    decreases v, 0int,
{
    match v {
        Val::Int(n) => seq![(Tok::Lit(int_text(n)), int_text(n).len())],
        Val::Str(s) => seq![(Tok::SingleQuote, 1nat), (Tok::Lit(s), s.len()), (Tok::SingleQuote, 1nat)],
        Val::Arr(items) => seq![(Tok::Sbo, 1nat)] + items_sized(items, items.len() as int) + seq![
            (Tok::Sbc, 1nat),
        ],
        _ => Seq::empty(),
    }
}

/// The sized tokens of the first `k` elements of an array.
pub open spec fn items_sized(items: Seq<Val>, k: int) -> Seq<(Tok, nat)>
    decreases items, k,
{
    if k <= 0 || k > items.len() {
        Seq::empty()
    } else {
        items_sized(items, k - 1) + ser_sized(items[k - 1]) + seq![(Tok::Comma, 1nat)]
    }
}

/// A value that canonical text can carry: integers, non-empty strings of
/// plain characters, and arrays of such values nested at most `d` deep.
pub open spec fn canonical_text(v: Val, d: nat) -> bool
    decreases v,
{
    match v {
        Val::Int(_) => true,
        Val::Str(s) => s.len() > 0 && forall|i: int| 0 <= i < s.len() ==> is_plain(#[trigger] s[i]),
        Val::Arr(items) => d > 0 && forall|k: int|
            0 <= k < items.len() ==> canonical_text(#[trigger] items[k], (d - 1) as nat),
        _ => false,
    }
}

/// The characters `w` are written, one byte each, from position `p` of `data`.
pub open spec fn written_at(data: Seq<u8>, p: int, w: Seq<char>) -> bool {
    &&& 0 <= p
    &&& p + w.len() <= data.len()
    &&& forall|i: int| 0 <= i < w.len() ==> data[p + i] == (#[trigger] w[i]) as u8
}

/// Position `q` of `data` ends a literal run: the end, or a punctuation byte.
pub open spec fn boundary(data: Seq<u8>, q: int) -> bool {
    q == data.len() || (0 <= q < data.len() && special_tok(data[q]) is Some)
}

proof fn lemma_prepend_empty<A>(r: Option<Seq<A>>)
    ensures
        prepend(Seq::<A>::empty(), r) == r,
{
    if let Some(x) = r {
        assert(Seq::<A>::empty() + x =~= x);
    }
}

proof fn lemma_literal_run(data: Seq<u8>, p: int, w: Seq<char>, i: int)
    requires
        written_at(data, p, w),
        forall|k: int| 0 <= k < w.len() ==> is_plain(#[trigger] w[k]),
        boundary(data, p + w.len()),
        p <= i <= p + w.len(),
    ensures
        literal_end(data, i) == p + w.len(),
    decreases p + w.len() - i,
{
    if i < p + w.len() {
        assert(data[i] == w[i - p] as u8);
        assert(is_plain(w[i - p]));
        lemma_literal_run(data, p, w, i + 1);
    }
}

/// A non-empty run of plain characters, followed by a punctuation byte or the
/// end, lexes to one literal token.
proof fn lemma_lex_literal(data: Seq<u8>, p: int, w: Seq<char>)
    requires
        w.len() > 0,
        written_at(data, p, w),
        forall|k: int| 0 <= k < w.len() ==> is_plain(#[trigger] w[k]),
        boundary(data, p + w.len()),
    ensures
        lex_from(data, p) == prepend(seq![(Tok::Lit(w), w.len())], lex_from(data, p + w.len())),
{
    assert(is_plain(w[0]));
    assert(data[p] == w[0] as u8);
    lemma_literal_run(data, p, w, p + 1);
    assert(is_ascii_chars(w)) by {
        assert forall|i: int| 0 <= i < w.len() implies '\0' <= #[trigger] w[i] && w[i] <= '\u{7f}' by {
            assert(is_plain(w[i]));
        }
    }
    is_ascii_chars_encode_utf8(w);
    assert(data.subrange(p, p + w.len()) =~= encode_utf8(w)) by {
        assert forall|i: int| 0 <= i < w.len() implies data.subrange(p, p + w.len())[i] == encode_utf8(w)[i] by {
            assert(data[p + i] == w[i] as u8);
        }
    }
    encode_utf8_valid_utf8(w);
    encode_utf8_decode_utf8(w);
}

/// A punctuation byte other than a carriage return lexes to its token.
proof fn lemma_lex_punct(data: Seq<u8>, p: int)
    requires
        0 <= p < data.len(),
        special_tok(data[p]) is Some,
        data[p] != 0x0d,
    ensures
        lex_from(data, p) == prepend(seq![(special_tok(data[p])->0, 1nat)], lex_from(data, p + 1)),
{
}

proof fn lemma_items_chars_prefix(items: Seq<Val>, k: int, m: int)
    requires
        0 <= k <= m <= items.len(),
    ensures
        items_chars(items, k).len() <= items_chars(items, m).len(),
        forall|i: int|
            0 <= i < items_chars(items, k).len() ==> #[trigger] items_chars(items, m)[i]
                == items_chars(items, k)[i],
    decreases m - k,
{
    if k < m {
        lemma_items_chars_prefix(items, k, m - 1);
        assert forall|i: int| 0 <= i < items_chars(items, k).len() implies #[trigger] items_chars(
            items,
            m,
        )[i] == items_chars(items, k)[i] by {
            assert(items_chars(items, m)[i] == items_chars(items, m - 1)[i]);
        }
    }
}

proof fn lemma_int_text_plain(n: i64)
    ensures
        int_text(n).len() > 0,
        forall|i: int| 0 <= i < int_text(n).len() ==> is_plain(#[trigger] int_text(n)[i]) && !is_ws(
            int_text(n)[i],
        ),
{
    lemma_int_text(n);
    if n < 0 {
        let ds = nat_digits((0 - n) as nat);
        lemma_nat_digits((0 - n) as nat);
        assert forall|i: int| 0 <= i < int_text(n).len() implies is_plain(#[trigger] int_text(n)[i]) && !is_ws(
            int_text(n)[i],
        ) by {
            if i > 0 {
                assert(int_text(n)[i] == ds[i - 1]);
                assert(is_dec(ds[i - 1]));
            }
        }
    } else {
        lemma_nat_digits(n as nat);
        assert forall|i: int| 0 <= i < int_text(n).len() implies is_plain(#[trigger] int_text(n)[i]) && !is_ws(
            int_text(n)[i],
        ) by {
            assert(is_dec(int_text(n)[i]));
        }
    }
}

/// The canonical text of `v`, written at `p` and followed by a punctuation
/// byte or the end, lexes to the sized canonical tokens of `v`.
proof fn lemma_lex_value(data: Seq<u8>, p: int, v: Val, d: nat)
    requires
        canonical_text(v, d),
        written_at(data, p, ser_chars(v)),
        boundary(data, p + ser_chars(v).len()),
    ensures
        lex_from(data, p) == prepend(ser_sized(v), lex_from(data, p + ser_chars(v).len())),
    decreases v, 0int,
{
    let w = ser_chars(v);
    match v {
        Val::Int(n) => {
            lemma_int_text_plain(n);
            lemma_lex_literal(data, p, int_text(n));
        },
        Val::Str(s) => {
            assert(data[p] == w[0] as u8);
            assert(data[p + 1 + s.len()] == w[(1 + s.len()) as int] as u8);
            assert(written_at(data, p + 1, s)) by {
                assert forall|i: int| 0 <= i < s.len() implies data[p + 1 + i] == (#[trigger] s[i]) as u8 by {
                    assert(w[1 + i] == s[i]);
                }
            }
            lemma_lex_punct(data, p);
            lemma_lex_literal(data, p + 1, s);
            lemma_lex_punct(data, p + 1 + s.len());
            lemma_prepend_assoc(seq![(Tok::Lit(s), s.len())], seq![(Tok::SingleQuote, 1nat)], lex_from(data, p + w.len()));
            lemma_prepend_assoc(seq![(Tok::SingleQuote, 1nat)], seq![(Tok::Lit(s), s.len())] + seq![(Tok::SingleQuote, 1nat)], lex_from(data, p + w.len()));
            assert(seq![(Tok::SingleQuote, 1nat)] + (seq![(Tok::Lit(s), s.len())] + seq![(Tok::SingleQuote, 1nat)]) =~= ser_sized(v));
        },
        Val::Arr(items) => {
            let all = items_chars(items, items.len() as int);
            let q = p + 1;
            assert(data[p] == w[0] as u8);
            assert(data[q + all.len()] == w[(1 + all.len()) as int] as u8);
            assert(written_at(data, q, all)) by {
                assert forall|i: int| 0 <= i < all.len() implies data[q + i] == (#[trigger] all[i]) as u8 by {
                    assert(w[1 + i] == all[i]);
                }
            }
            assert forall|k: int| 0 <= k < items.len() implies canonical_text(
                #[trigger] items[k],
                (d - 1) as nat,
            ) by {}
            lemma_lex_items(data, q, items, items.len() as int, (d - 1) as nat);
            lemma_lex_punct(data, p);
            lemma_lex_punct(data, q + all.len());
            let sized = items_sized(items, items.len() as int);
            lemma_prepend_assoc(sized, seq![(Tok::Sbc, 1nat)], lex_from(data, p + w.len()));
            lemma_prepend_assoc(seq![(Tok::Sbo, 1nat)], sized + seq![(Tok::Sbc, 1nat)], lex_from(data, p + w.len()));
            assert(seq![(Tok::Sbo, 1nat)] + (sized + seq![(Tok::Sbc, 1nat)]) =~= ser_sized(v));
        },
        _ => {},
    }
}

/// The canonical text of the first `k` elements, written at `q` inside an
/// array, lexes to their sized tokens.
proof fn lemma_lex_items(data: Seq<u8>, q: int, items: Seq<Val>, k: int, d: nat)
    requires
        written_at(data, q, items_chars(items, items.len() as int)),
        0 <= k <= items.len(),
        forall|i: int| 0 <= i < items.len() ==> canonical_text(#[trigger] items[i], d),
    ensures
        lex_from(data, q) == prepend(items_sized(items, k), lex_from(data, q + items_chars(items, k).len())),
    decreases items, k,
{
    if k == 0 {
        lemma_prepend_empty(lex_from(data, q));
    } else {
        lemma_lex_items(data, q, items, k - 1, d);
        lemma_items_chars_prefix(items, k, items.len() as int);
        let all = items_chars(items, items.len() as int);
        let head = items_chars(items, k - 1);
        let w = ser_chars(items[k - 1]);
        assert(items_chars(items, k) == head + w + seq![',']);
        let a = q + head.len();
        assert(written_at(data, a, w)) by {
            assert forall|i: int| 0 <= i < w.len() implies data[a + i] == (#[trigger] w[i]) as u8 by {
                assert(items_chars(items, k)[head.len() + i] == w[i]);
                assert(all[head.len() + i] == items_chars(items, k)[head.len() + i]);
            }
        }
        let c = a + w.len();
        assert(data[c] == ',' as u8) by {
            assert(items_chars(items, k)[(head.len() + w.len()) as int] == ',');
            assert(all[(head.len() + w.len()) as int] == items_chars(items, k)[(head.len() + w.len()) as int]);
        }
        lemma_lex_value(data, a, items[k - 1], d);
        lemma_lex_punct(data, c);
        let rest = lex_from(data, c + 1);
        lemma_prepend_assoc(ser_sized(items[k - 1]), seq![(Tok::Comma, 1nat)], rest);
        lemma_prepend_assoc(items_sized(items, k - 1), ser_sized(items[k - 1]) + seq![(Tok::Comma, 1nat)], rest);
        assert(items_sized(items, k - 1) + (ser_sized(items[k - 1]) + seq![(Tok::Comma, 1nat)]) =~= items_sized(items, k));
    }
}

proof fn lemma_sized_tokens(v: Val)
    ensures
        ser_sized(v).map_values(|e: (Tok, nat)| e.0) == ser(v),
    decreases v, 0int,
{
    match v {
        Val::Arr(items) => {
            lemma_sized_items(items, items.len() as int);
            assert(ser_sized(v).map_values(|e: (Tok, nat)| e.0) =~= ser(v));
        },
        _ => {
            assert(ser_sized(v).map_values(|e: (Tok, nat)| e.0) =~= ser(v));
        },
    }
}

proof fn lemma_sized_items(items: Seq<Val>, k: int)
    ensures
        items_sized(items, k).map_values(|e: (Tok, nat)| e.0) == ser_items(items, k),
    decreases items, k,
{
    if 0 < k <= items.len() {
        lemma_sized_items(items, k - 1);
        lemma_sized_tokens(items[k - 1]);
        assert(items_sized(items, k).map_values(|e: (Tok, nat)| e.0) =~= ser_items(items, k));
    } else {
        assert(items_sized(items, k).map_values(|e: (Tok, nat)| e.0) =~= ser_items(items, k));
    }
}

/// Canonical text is ASCII, and its values are canonical.
proof fn lemma_canonical_text(v: Val, d: nat)
    requires
        canonical_text(v, d),
    ensures
        canonical(v, d),
        forall|i: int| 0 <= i < ser_chars(v).len() ==> '\0' <= #[trigger] ser_chars(v)[i] && ser_chars(v)[i] <= '\u{7f}',
    decreases v, 0int,
{
    let w = ser_chars(v);
    match v {
        Val::Int(n) => {
            lemma_int_text_plain(n);
            assert forall|i: int| 0 <= i < w.len() implies '\0' <= #[trigger] w[i] && w[i] <= '\u{7f}' by {
                assert(is_plain(w[i]));
            }
        },
        Val::Str(s) => {
            assert forall|i: int| 0 <= i < s.len() implies #[trigger] s[i] != '\'' && s[i] != '\n' by {
                assert(is_plain(s[i]));
            }
            assert forall|i: int| 0 <= i < w.len() implies '\0' <= #[trigger] w[i] && w[i] <= '\u{7f}' by {
                if 0 < i < w.len() - 1 {
                    assert(w[i] == s[i - 1]);
                    assert(is_plain(s[i - 1]));
                }
            }
        },
        Val::Arr(items) => {
            lemma_items_ascii(items, items.len() as int, (d - 1) as nat);
            let all = items_chars(items, items.len() as int);
            assert forall|k: int| 0 <= k < items.len() implies canonical(#[trigger] items[k], (d - 1) as nat) by {
                lemma_canonical_text(items[k], (d - 1) as nat);
            }
            assert forall|i: int| 0 <= i < w.len() implies '\0' <= #[trigger] w[i] && w[i] <= '\u{7f}' by {
                if 0 < i < w.len() - 1 {
                    assert(w[i] == all[i - 1]);
                }
            }
        },
        _ => {},
    }
}

proof fn lemma_items_ascii(items: Seq<Val>, k: int, d: nat)
    requires
        forall|i: int| 0 <= i < items.len() ==> canonical_text(#[trigger] items[i], d),
    ensures
        forall|i: int|
            0 <= i < items_chars(items, k).len() ==> '\0' <= #[trigger] items_chars(items, k)[i]
                && items_chars(items, k)[i] <= '\u{7f}',
    decreases items, k,
{
    if 0 < k <= items.len() {
        lemma_items_ascii(items, k - 1, d);
        lemma_canonical_text(items[k - 1], d);
        let head = items_chars(items, k - 1);
        let w = ser_chars(items[k - 1]);
        assert forall|i: int| 0 <= i < items_chars(items, k).len() implies '\0' <= #[trigger] items_chars(items, k)[i]
            && items_chars(items, k)[i] <= '\u{7f}' by {
            if i < head.len() {
                assert(items_chars(items, k)[i] == head[i]);
            } else if i < head.len() + w.len() {
                assert(items_chars(items, k)[i] == w[i - head.len()]);
            }
        }
    }
}

/// Writing a value made of integers, non-empty strings of plain characters
/// and arrays after `k=`, with `k` a bare key, and parsing that text gives a
/// root table whose implicit table binds `k` to that same value: parsing the
/// canonical text of a value gives the value back.
pub proof fn lemma_text_round_trip(k: Seq<char>, v: Val)
    requires
        is_bare_key(k),
        canonical_text(v, MAX_DEPTH as nat),
    ensures
        parse_of(encode_utf8(k + seq!['='] + ser_chars(v))) == Ok::<Val, ErrKind>(
            Val::Table(seq![(KeyV::Root, Val::Table(seq![(KeyV::Lit(k), v)]))]),
        ),
{
    let d = MAX_DEPTH as nat;
    let w = ser_chars(v);
    let chars = k + seq!['='] + w;
    lemma_canonical_text(v, d);
    assert forall|i: int| 0 <= i < k.len() implies is_plain(#[trigger] k[i]) by {
        assert(crate::chars::is_bare_key_char(k[i]));
    }
    assert(is_ascii_chars(chars)) by {
        assert forall|i: int| 0 <= i < chars.len() implies '\0' <= #[trigger] chars[i] && chars[i] <= '\u{7f}' by {
            if i < k.len() {
                assert(chars[i] == k[i]);
                assert(is_plain(k[i]));
            } else if i > k.len() {
                assert(chars[i] == w[i - k.len() - 1]);
            }
        }
    }
    is_ascii_chars_encode_utf8(chars);
    let data = encode_utf8(chars);
    assert(written_at(data, 0, k)) by {
        assert forall|i: int| 0 <= i < k.len() implies data[0 + i] == (#[trigger] k[i]) as u8 by {
            assert(chars[i] == k[i]);
        }
    }
    assert(data[k.len() as int] == chars[k.len() as int] as u8);
    assert(chars[k.len() as int] == '=');
    assert(written_at(data, (k.len() + 1) as int, w)) by {
        assert forall|i: int| 0 <= i < w.len() implies data[k.len() + 1 + i] == (#[trigger] w[i]) as u8 by {
            assert(chars[k.len() + 1 + i] == w[i]);
        }
    }
    lemma_lex_literal(data, 0, k);
    lemma_lex_punct(data, k.len() as int);
    lemma_lex_value(data, (k.len() + 1) as int, v, d);
    assert(lex_from(data, data.len() as int) == Some(Seq::<(Tok, nat)>::empty()));
    let head = seq![(Tok::Lit(k), k.len()), (Tok::Eq, 1nat)];
    lemma_prepend_assoc(seq![(Tok::Lit(k), k.len())], seq![(Tok::Eq, 1nat)], lex_from(data, (k.len() + 1) as int));
    assert(seq![(Tok::Lit(k), k.len())] + seq![(Tok::Eq, 1nat)] =~= head);
    assert(ser_sized(v) + Seq::<(Tok, nat)>::empty() =~= ser_sized(v));
    lemma_prepend_assoc(head, ser_sized(v), Some(Seq::<(Tok, nat)>::empty()));
    assert(head + ser_sized(v) + Seq::<(Tok, nat)>::empty() =~= head + ser_sized(v));
    assert(lex_from(data, 0) == Some(head + ser_sized(v)));
    lemma_sized_tokens(v);
    let toks = (head + ser_sized(v)).map_values(|e: (Tok, nat)| e.0);
    assert(toks =~= seq![Tok::Lit(k), Tok::Eq] + ser(v));
    assert(occurs_at(toks, 2, ser(v)));
    lemma_reparse(toks, 2, v, d);
    lemma_no_ws_trim(k);
    lemma_single_declaration(toks, k, d, v);
}

// ---------------------------------------------------------------------------
// Canonical documents

/// The tokens of ` <value>` after `=`: the space joins the literal of an
/// integer, and stands as its own literal before a string or an array.
pub open spec fn value_tokens(v: Val) -> Seq<Tok> {
    match v {
        Val::Int(n) => seq![Tok::Lit(seq![' '] + int_text(n))],
        _ => seq![Tok::Lit(seq![' '])] + ser(v),
    }
}

/// `value_tokens` with byte lengths.
pub open spec fn value_sized(v: Val) -> Seq<(Tok, nat)> {
    match v {
        Val::Int(n) => seq![(Tok::Lit(seq![' '] + int_text(n)), (int_text(n).len() + 1) as nat)],
        _ => seq![(Tok::Lit(seq![' ']), 1nat)] + ser_sized(v),
    }
}

/// The line `k = <canonical text of v>` with its line break.
pub open spec fn line_chars(k: Seq<char>, v: Val) -> Seq<char> {
    k + seq![' ', '=', ' '] + ser_chars(v) + seq!['\n']
}

/// The tokens of a line.
pub open spec fn line_toks(k: Seq<char>, v: Val) -> Seq<Tok> {
    seq![Tok::Lit(k + seq![' ']), Tok::Eq] + value_tokens(v) + seq![Tok::LineBreak]
}

/// The tokens of a line with byte lengths.
pub open spec fn line_sized(k: Seq<char>, v: Val) -> Seq<(Tok, nat)> {
    seq![(Tok::Lit(k + seq![' ']), (k.len() + 1) as nat), (Tok::Eq, 1nat)] + value_sized(v) + seq![
        (Tok::LineBreak, 1nat),
    ]
}

/// The text of the first `n` declarations of `es`, one line each.
pub open spec fn doc_chars(es: Seq<(Seq<char>, Val)>, n: int) -> Seq<char>
    decreases n,
{
    if n <= 0 || n > es.len() {
        Seq::empty()
    } else {
        doc_chars(es, n - 1) + line_chars(es[n - 1].0, es[n - 1].1)
    }
}

/// The tokens of the first `n` lines.
pub open spec fn doc_toks(es: Seq<(Seq<char>, Val)>, n: int) -> Seq<Tok>
    decreases n,
{
    if n <= 0 || n > es.len() {
        Seq::empty()
    } else {
        doc_toks(es, n - 1) + line_toks(es[n - 1].0, es[n - 1].1)
    }
}

/// The sized tokens of the first `n` lines.
pub open spec fn doc_sized(es: Seq<(Seq<char>, Val)>, n: int) -> Seq<(Tok, nat)>
    decreases n,
{
    if n <= 0 || n > es.len() {
        Seq::empty()
    } else {
        doc_sized(es, n - 1) + line_sized(es[n - 1].0, es[n - 1].1)
    }
}

/// The table entries the first `n` declarations make.
pub open spec fn decl_entries(es: Seq<(Seq<char>, Val)>, n: int) -> Seq<(KeyV, Val)> {
    Seq::new(n as nat, |i: int| (KeyV::Lit(es[i].0), es[i].1))
}

/// Declarations that canonical text can carry: bare keys, all different, and
/// canonical values.
pub open spec fn canonical_decls(es: Seq<(Seq<char>, Val)>) -> bool {
    &&& forall|i: int| 0 <= i < es.len() ==> is_bare_key(#[trigger] es[i].0)
    &&& forall|i: int| 0 <= i < es.len() ==> canonical_text(#[trigger] es[i].1, MAX_DEPTH as nat)
    &&& forall|i: int, j: int| 0 <= i < j < es.len() ==> (#[trigger] es[i]).0 != (#[trigger] es[j]).0
}

/// Lexing from `p` gives `x`, then goes on as from `q`.
pub open spec fn lexes(data: Seq<u8>, p: int, x: Seq<(Tok, nat)>, q: int) -> bool {
    lex_from(data, p) == prepend(x, lex_from(data, q))
}

proof fn lemma_lexes_chain(data: Seq<u8>, p: int, x: Seq<(Tok, nat)>, q: int, y: Seq<(Tok, nat)>, r: int)
    requires
        lexes(data, p, x, q),
        lexes(data, q, y, r),
    ensures
        lexes(data, p, x + y, r),
{
    lemma_prepend_assoc(x, y, lex_from(data, r));
}

proof fn lemma_bare_plain(k: Seq<char>)
    requires
        is_bare_key(k),
    ensures
        forall|i: int| 0 <= i < k.len() ==> is_plain(#[trigger] k[i]),
        trim(k) == k,
        trim(k + seq![' ']) == k,
{
    assert forall|i: int| 0 <= i < k.len() implies is_plain(#[trigger] k[i]) by {
        assert(crate::chars::is_bare_key_char(k[i]));
    }
    assert forall|i: int| 0 <= i < k.len() implies !is_ws(#[trigger] k[i]) by {
        assert(crate::chars::is_bare_key_char(k[i]));
    }
    lemma_no_ws_trim(k);
    let s = k + seq![' '];
    assert(!is_ws(s[0])) by {
        assert(crate::chars::is_bare_key_char(k[0]));
    }
    assert(skip_ws(s, 0) == 0);
    assert(!is_ws(s[k.len() - 1])) by {
        assert(crate::chars::is_bare_key_char(k[k.len() - 1]));
    }
    assert(rskip_ws(s, 0, s.len() as int) == rskip_ws(s, 0, k.len() as int));
    assert(s.subrange(0, k.len() as int) =~= k);
}

proof fn lemma_space_int_trim(n: i64)
    ensures
        trim(seq![' '] + int_text(n)) == int_text(n),
{
    lemma_int_text_plain(n);
    lemma_int_text(n);
    let t = int_text(n);
    let s = seq![' '] + t;
    assert(s[1] == t[0]);
    assert(skip_ws(s, 1) == 1);
    assert(skip_ws(s, 0) == 1);
    assert(s[s.len() - 1] == t[t.len() - 1]);
    assert(s.subrange(1, s.len() as int) =~= t);
}

/// A line lexes to its sized tokens.
proof fn lemma_lex_line(data: Seq<u8>, p: int, k: Seq<char>, v: Val)
    requires
        is_bare_key(k),
        canonical_text(v, MAX_DEPTH as nat),
        written_at(data, p, line_chars(k, v)),
    ensures
        lexes(data, p, line_sized(k, v), p + line_chars(k, v).len()),
{
    let w = ser_chars(v);
    let line = line_chars(k, v);
    lemma_bare_plain(k);
    let kk = k + seq![' '];
    let e = p + k.len() + 1;
    let a = e + 1;
    let end = a + 1 + w.len();
    assert(forall|i: int| 0 <= i < line.len() ==> data[p + i] == (#[trigger] line[i]) as u8);
    assert(line[(k.len() + 1) as int] == '=');
    assert(data[e] == line[(k.len() + 1) as int] as u8);
    assert(line[(line.len() - 1) as int] == '\n');
    assert(data[end] == line[(line.len() - 1) as int] as u8);
    assert(written_at(data, p, kk)) by {
        assert forall|i: int| 0 <= i < kk.len() implies data[p + i] == (#[trigger] kk[i]) as u8 by {
            assert(line[i] == kk[i]);
        }
    }
    assert forall|i: int| 0 <= i < kk.len() implies is_plain(#[trigger] kk[i]) by {
        if i < k.len() {
            assert(kk[i] == k[i]);
        }
    }
    lemma_lex_literal(data, p, kk);
    lemma_lex_punct(data, e);
    lemma_lexes_chain(data, p, seq![(Tok::Lit(kk), kk.len())], e, seq![(Tok::Eq, 1nat)], a);
    assert(written_at(data, a + 1, w)) by {
        assert forall|i: int| 0 <= i < w.len() implies data[a + 1 + i] == (#[trigger] w[i]) as u8 by {
            assert(line[k.len() + 3 + i] == w[i]);
        }
    }
    assert(data[a] == ' ' as u8) by {
        assert(line[(k.len() + 2) as int] == ' ');
    }
    match v {
        Val::Int(n) => {
            lemma_int_text_plain(n);
            let sw = seq![' '] + int_text(n);
            assert(written_at(data, a, sw)) by {
                assert forall|i: int| 0 <= i < sw.len() implies data[a + i] == (#[trigger] sw[i]) as u8 by {
                    if i > 0 {
                        assert(sw[i] == w[i - 1]);
                    }
                }
            }
            assert forall|i: int| 0 <= i < sw.len() implies is_plain(#[trigger] sw[i]) by {
                if i > 0 {
                    assert(sw[i] == int_text(n)[i - 1]);
                }
            }
            lemma_lex_literal(data, a, sw);
            assert(value_sized(v) == seq![(Tok::Lit(sw), sw.len())]);
        },
        _ => {
            lemma_canonical_text(v, MAX_DEPTH as nat);
            assert(data[a + 1] == w[0] as u8);
            assert(written_at(data, a, seq![' ']));
            lemma_lex_literal(data, a, seq![' ']);
            lemma_lex_value(data, a + 1, v, MAX_DEPTH as nat);
            lemma_lexes_chain(data, a, seq![(Tok::Lit(seq![' ']), 1nat)], a + 1, ser_sized(v), end);
        },
    }
    lemma_lexes_chain(data, p, seq![(Tok::Lit(kk), kk.len())] + seq![(Tok::Eq, 1nat)], a, value_sized(v), end);
    lemma_lex_punct(data, end);
    lemma_lexes_chain(
        data,
        p,
        seq![(Tok::Lit(kk), kk.len())] + seq![(Tok::Eq, 1nat)] + value_sized(v),
        end,
        seq![(Tok::LineBreak, 1nat)],
        end + 1,
    );
    assert(seq![(Tok::Lit(kk), kk.len())] + seq![(Tok::Eq, 1nat)] + value_sized(v) + seq![
        (Tok::LineBreak, 1nat),
    ] =~= line_sized(k, v));
}

proof fn lemma_doc_chars_prefix(es: Seq<(Seq<char>, Val)>, n: int, m: int)
    requires
        0 <= n <= m <= es.len(),
    ensures
        doc_chars(es, n).len() <= doc_chars(es, m).len(),
        forall|i: int| 0 <= i < doc_chars(es, n).len() ==> #[trigger] doc_chars(es, m)[i] == doc_chars(es, n)[i],
    decreases m - n,
{
    if n < m {
        lemma_doc_chars_prefix(es, n, m - 1);
        assert forall|i: int| 0 <= i < doc_chars(es, n).len() implies #[trigger] doc_chars(es, m)[i]
            == doc_chars(es, n)[i] by {
            assert(doc_chars(es, m)[i] == doc_chars(es, m - 1)[i]);
        }
    }
}

/// The first `n` lines of a canonical document lex to their sized tokens.
proof fn lemma_lex_doc(data: Seq<u8>, es: Seq<(Seq<char>, Val)>, n: int)
    requires
        canonical_decls(es),
        0 <= n <= es.len(),
        written_at(data, 0, doc_chars(es, es.len() as int)),
    ensures
        lexes(data, 0, doc_sized(es, n), doc_chars(es, n).len() as int),
    decreases n,
{
    if n == 0 {
        lemma_prepend_empty(lex_from(data, 0));
    } else {
        lemma_lex_doc(data, es, n - 1);
        lemma_doc_chars_prefix(es, n, es.len() as int);
        let all = doc_chars(es, es.len() as int);
        let head = doc_chars(es, n - 1);
        let line = line_chars(es[n - 1].0, es[n - 1].1);
        assert(doc_chars(es, n) == head + line);
        assert(written_at(data, head.len() as int, line)) by {
            assert forall|i: int| 0 <= i < line.len() implies data[head.len() + i] == (#[trigger] line[i]) as u8 by {
                assert(doc_chars(es, n)[head.len() + i] == line[i]);
                assert(all[head.len() + i] == doc_chars(es, n)[head.len() + i]);
            }
        }
        lemma_lex_line(data, head.len() as int, es[n - 1].0, es[n - 1].1);
        lemma_lexes_chain(
            data,
            0,
            doc_sized(es, n - 1),
            head.len() as int,
            line_sized(es[n - 1].0, es[n - 1].1),
            doc_chars(es, n).len() as int,
        );
    }
}

proof fn lemma_doc_tokens(es: Seq<(Seq<char>, Val)>, n: int)
    ensures
        doc_sized(es, n).map_values(|e: (Tok, nat)| e.0) == doc_toks(es, n),
    decreases n,
{
    if 0 < n <= es.len() {
        lemma_doc_tokens(es, n - 1);
        let v = es[n - 1].1;
        lemma_sized_tokens(v);
        assert(value_sized(v).map_values(|e: (Tok, nat)| e.0) =~= value_tokens(v));
        assert(line_sized(es[n - 1].0, v).map_values(|e: (Tok, nat)| e.0) =~= line_toks(es[n - 1].0, v));
        assert(doc_sized(es, n).map_values(|e: (Tok, nat)| e.0) =~= doc_toks(es, n));
    } else {
        assert(doc_sized(es, n).map_values(|e: (Tok, nat)| e.0) =~= doc_toks(es, n));
    }
}

proof fn lemma_doc_toks_prefix(es: Seq<(Seq<char>, Val)>, n: int, m: int)
    requires
        0 <= n <= m <= es.len(),
    ensures
        doc_toks(es, n).len() <= doc_toks(es, m).len(),
        forall|i: int| 0 <= i < doc_toks(es, n).len() ==> #[trigger] doc_toks(es, m)[i] == doc_toks(es, n)[i],
    decreases m - n,
{
    if n < m {
        lemma_doc_toks_prefix(es, n, m - 1);
        assert forall|i: int| 0 <= i < doc_toks(es, n).len() implies #[trigger] doc_toks(es, m)[i]
            == doc_toks(es, n)[i] by {
            assert(doc_toks(es, m)[i] == doc_toks(es, m - 1)[i]);
        }
    }
}


/// The value of a line, read after its `=`, ends right before its line break.
proof fn lemma_line_value(toks: Seq<Tok>, p: int, k: Seq<char>, v: Val)
    requires
        canonical_text(v, MAX_DEPTH as nat),
        0 <= p,
        p + line_toks(k, v).len() <= toks.len(),
        forall|i: int| 0 <= i < line_toks(k, v).len() ==> toks[p + i] == #[trigger] line_toks(k, v)[i],
    ensures
        value_of(toks, p + 2, MAX_DEPTH as nat) == Ok::<(Val, int), ErrKind>((v, p + 2 + value_tokens(v).len())),
{
    let d = MAX_DEPTH as nat;
    let line = line_toks(k, v);
    let vt = value_tokens(v);
    lemma_canonical_text(v, d);
    assert(forall|i: int| 0 <= i < vt.len() ==> toks[p + 2 + i] == #[trigger] vt[i]) by {
        assert forall|i: int| 0 <= i < vt.len() implies toks[p + 2 + i] == #[trigger] vt[i] by {
            assert(line[2 + i] == vt[i]);
        }
    }
        match v {
            Val::Int(m) => {
                lemma_space_int_trim(m);
                lemma_int_text(m);
                lemma_int_text_plain(m);
                assert forall|i: int| 0 <= i < int_text(m).len() implies !is_ws(#[trigger] int_text(m)[i]) by {}
                lemma_no_ws_trim(int_text(m));
                assert(toks[p + 2] == vt[0]);
                assert(value_of(toks, p + 2, d) == Ok::<(Val, int), ErrKind>((v, p + 3)));
            },
            _ => {
                assert(toks[p + 2] == vt[0]);
                assert(occurs_at(toks, p + 3, ser(v))) by {
                    assert forall|i: int| 0 <= i < ser(v).len() implies toks[p + 3 + i] == #[trigger] ser(v)[i] by {
                        assert(vt[1 + i] == ser(v)[i]);
                    }
                }
                lemma_reparse(toks, p + 3, v, d);
                lemma_ser_first(v, d);
                assert(toks[p + 3] == ser(v)[0]);
                let sp = seq![' '];
                assert(skip_ws(sp, 1) == 1);
                assert(skip_ws(sp, 0) == 1);
                assert(rskip_ws(sp, 1, 1) == 1);
                assert(trim(sp).len() == 0);
                assert(vt[0] == Tok::Lit(sp));
                assert(is_blank_lit(toks[p + 2]));
                assert(skip_blank(toks, p + 2) == skip_blank(toks, p + 3));
            },
        }
}

/// Assembling the tokens of the first `n` lines declares their entries.
proof fn lemma_doc_lines(es: Seq<(Seq<char>, Val)>, n: int)
    requires
        canonical_decls(es),
        0 <= n <= es.len(),
    ensures
        document_of(doc_toks(es, es.len() as int), MAX_DEPTH as nat) == doc_step(
            doc_toks(es, es.len() as int),
            doc_toks(es, n).len() as int,
            MAX_DEPTH as nat,
            Seq::empty(),
            KeyV::Root,
            decl_entries(es, n),
            0,
        ),
    decreases n,
{
    let toks = doc_toks(es, es.len() as int);
    let d = MAX_DEPTH as nat;
    if n == 0 {
        assert(decl_entries(es, 0) =~= Seq::<(KeyV, Val)>::empty());
    } else {
        lemma_doc_lines(es, n - 1);
        lemma_doc_toks_prefix(es, n, es.len() as int);
        let (k, v) = es[n - 1];
        let p = doc_toks(es, n - 1).len() as int;
        let line = line_toks(k, v);
        assert(doc_toks(es, n) == doc_toks(es, n - 1) + line);
        assert(forall|i: int| 0 <= i < line.len() ==> toks[p + i] == #[trigger] line[i]) by {
            assert forall|i: int| 0 <= i < line.len() implies toks[p + i] == #[trigger] line[i] by {
                assert(doc_toks(es, n)[p + i] == line[i]);
            }
        }
        assert(is_bare_key(k));
        assert(canonical_text(v, d));
        lemma_bare_plain(k);
        lemma_canonical_text(v, d);
        let vt = value_tokens(v);
        let j = p + 2 + vt.len();
        assert(toks[p] == line[0]);
        assert(toks[p + 1] == line[1]);
        assert(toks[j] == line[(2 + vt.len()) as int]);
        assert(forall|i: int| 0 <= i < vt.len() ==> toks[p + 2 + i] == #[trigger] vt[i]) by {
            assert forall|i: int| 0 <= i < vt.len() implies toks[p + 2 + i] == #[trigger] vt[i] by {
                assert(line[2 + i] == vt[i]);
            }
        }
        lemma_line_value(toks, p, k, v);
        let cur = decl_entries(es, n - 1);
        assert(!has_key(cur, KeyV::Lit(k))) by {
            if has_key(cur, KeyV::Lit(k)) {
                let i = choose|i: int| 0 <= i < cur.len() && (#[trigger] cur[i]).0 == KeyV::Lit(k);
                assert(es[i].0 != es[n - 1].0);
            }
        }
        assert(cur.push((KeyV::Lit(k), v)) =~= decl_entries(es, n));
        assert(declaration(toks, p, cur, d) == Ok::<(Seq<(KeyV, Val)>, int), ErrKind>((decl_entries(es, n), j)));
        assert(doc_step(toks, j, d, Seq::empty(), KeyV::Root, decl_entries(es, n), 1) == doc_step(
            toks,
            j + 1,
            d,
            Seq::empty(),
            KeyV::Root,
            decl_entries(es, n),
            0,
        ));
        assert(doc_toks(es, n).len() == j + 1);
    }
}

/// A document of declarations `k = v`, one per line, with bare keys that
/// are all different and values made of integers, non-empty strings of plain
/// characters and arrays, written in canonical text, parses to a root table
/// whose implicit table holds exactly those declarations, in order: parsing
/// a table's canonical text gives the table back.
pub proof fn lemma_document_round_trip(es: Seq<(Seq<char>, Val)>)
    requires
        canonical_decls(es),
    ensures
        parse_of(encode_utf8(doc_chars(es, es.len() as int))) == Ok::<Val, ErrKind>(
            Val::Table(
                if es.len() == 0 {
                    Seq::empty()
                } else {
                    seq![(KeyV::Root, Val::Table(decl_entries(es, es.len() as int)))]
                },
            ),
        ),
{
    let n = es.len() as int;
    let chars = doc_chars(es, n);
    lemma_doc_ascii(es, n);
    is_ascii_chars_encode_utf8(chars);
    let data = encode_utf8(chars);
    assert(written_at(data, 0, chars)) by {
        assert forall|i: int| 0 <= i < chars.len() implies data[0 + i] == (#[trigger] chars[i]) as u8 by {}
    }
    lemma_lex_doc(data, es, n);
    assert(lex_from(data, data.len() as int) == Some(Seq::<(Tok, nat)>::empty()));
    assert(doc_sized(es, n) + Seq::<(Tok, nat)>::empty() =~= doc_sized(es, n));
    lemma_doc_tokens(es, n);
    lemma_doc_lines(es, n);
    let toks = doc_toks(es, n);
    assert(doc_step(toks, toks.len() as int, MAX_DEPTH as nat, Seq::empty(), KeyV::Root, decl_entries(es, n), 0)
        == Ok::<Val, ErrKind>(Val::Table(close_scope(Seq::empty(), KeyV::Root, decl_entries(es, n)))));
    if n == 0 {
    } else {
        assert(Seq::<(KeyV, Val)>::empty().push((KeyV::Root, Val::Table(decl_entries(es, n)))) =~= seq![
            (KeyV::Root, Val::Table(decl_entries(es, n))),
        ]);
    }
}

proof fn lemma_doc_ascii(es: Seq<(Seq<char>, Val)>, n: int)
    requires
        canonical_decls(es),
    ensures
        is_ascii_chars(doc_chars(es, n)),
    decreases n,
{
    if 0 < n <= es.len() {
        lemma_doc_ascii(es, n - 1);
        let (k, v) = es[n - 1];
        assert(is_bare_key(k));
        assert(canonical_text(v, MAX_DEPTH as nat));
        lemma_bare_plain(k);
        lemma_canonical_text(v, MAX_DEPTH as nat);
        let line = line_chars(k, v);
        let w = ser_chars(v);
        let head = doc_chars(es, n - 1);
        assert forall|i: int| 0 <= i < doc_chars(es, n).len() implies '\0' <= #[trigger] doc_chars(es, n)[i]
            && doc_chars(es, n)[i] <= '\u{7f}' by {
            if i < head.len() {
                assert(doc_chars(es, n)[i] == head[i]);
            } else {
                let j = i - head.len();
                assert(doc_chars(es, n)[i] == line[j]);
                if j < k.len() {
                    assert(line[j] == k[j]);
                    assert(is_plain(k[j]));
                } else if k.len() + 3 <= j < k.len() + 3 + w.len() {
                    assert(line[j] == w[j - k.len() - 3]);
                }
            }
        }
    }
}

} // verus!

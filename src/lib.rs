//! A parser for a human-readable configuration format: key/value pairs,
//! bracketed table headers, arrays, inline tables and typed scalars.
//!
//! Text is cut into tokens by [`lexer::lex`], walked by the cursor of
//! [`cursor`], read value by value by [`value`], and assembled into a
//! [`TomlValue`] tree by [`parser`]. Each step is specified by a spec
//! function over token sequences, which the executable code is proved to
//! follow; [`canonical`] shows that parsing the canonical text of a value
//! gives that value back.
use vstd::prelude::*;

use crate::error::TomlError;
use crate::parser::parse_of;

pub mod canonical;
pub mod chars;
pub mod cursor;
pub mod error;
pub mod lexer;
pub mod num;
pub mod parser;
pub mod string;
pub mod value;

verus! {

broadcast use vstd::std_specs::vec::group_vec_axioms;

/// A table: entries in the order they were declared, each key once.
///
/// The entries are held in a vector rather than a hash map: vstd states the
/// contents of a `HashMap` only for hashers known to be deterministic, which
/// `rustc_hash`'s hasher is not known to be, so no contract over a map's
/// contents could be proved.
pub type Table = Vec<(TomlKey, TomlValue)>;

/// A parsed value.
#[derive(Debug, PartialEq)]
pub enum TomlValue {
    Int(i64),
    Float(Float),
    String(String),
    Array(Vec<TomlValue>),
    Boolean(bool),
    DateTime(DateTime),
    Table(Table),
}

/// A floating-point value, held as what was written: an infinity or a NaN
/// with its sign, or the decimal text (digit separators removed), which reads
/// as an `f64` with `str::parse`.
#[derive(Debug, Clone, PartialEq, Eq)]
pub enum Float {
    Infinite { negative: bool },
    NaN { negative: bool },
    Decimal(String),
}

/// A calendar date.
#[derive(Debug, Clone, Copy, PartialEq, Eq)]
pub struct DateValue {
    pub year: u16,
    pub month: u8,
    pub day: u8,
}

/// A time of day, with its offset from UTC in seconds where one was written.
#[derive(Debug, Clone, Copy, PartialEq, Eq)]
pub struct TimeValue {
    pub hour: u8,
    pub minute: u8,
    pub second: u8,
    pub microsecond: u32,
    pub tz_offset: Option<i32>,
}

/// A date with a time of day.
#[derive(Debug, Clone, Copy, PartialEq, Eq)]
pub struct DateTimeValue {
    pub date: DateValue,
    pub time: TimeValue,
}

/// A date-time literal: full date-time, date only, or time only.
#[derive(Debug, Clone, Copy, PartialEq, Eq)]
pub enum DateTime {
    DateTime(DateTimeValue),
    Date(DateValue),
    Time(TimeValue),
}

/// The mathematical form of a key.
pub enum KeyV {
    Lit(Seq<char>),
    Root,
}

/// The mathematical form of a float.
pub enum FloatV {
    Infinite(bool),
    NaN(bool),
    Decimal(Seq<char>),
}

/// The mathematical form of a value: text as sequences, arrays and tables as
/// sequences of values and of entries.
pub enum Val {
    Int(i64),
    Float(FloatV),
    Str(Seq<char>),
    Arr(Seq<Val>),
    Bool(bool),
    Date(DateTime),
    Table(Seq<(KeyV, Val)>),
}

impl View for TomlKey {
    type V = KeyV;

    open spec fn view(&self) -> KeyV {
        match self {
            TomlKey::Literal(s) => KeyV::Lit(s@),
            TomlKey::Root => KeyV::Root,
        }
    }
}

impl View for Float {
    type V = FloatV;

    open spec fn view(&self) -> FloatV {
        match self {
            Float::Infinite { negative } => FloatV::Infinite(*negative),
            Float::NaN { negative } => FloatV::NaN(*negative),
            Float::Decimal(s) => FloatV::Decimal(s@),
        }
    }
}

impl View for TomlValue {
    type V = Val;

    open spec fn view(&self) -> Val
        decreases self, 0int,
    {
        match self {
            TomlValue::Int(i) => Val::Int(*i),
            TomlValue::Float(f) => Val::Float(f@),
            TomlValue::String(s) => Val::Str(s@),
            TomlValue::Array(v) => Val::Arr(vals_upto(*v, v.len() as int)),
            TomlValue::Boolean(b) => Val::Bool(*b),
            TomlValue::DateTime(d) => Val::Date(*d),
            TomlValue::Table(t) => Val::Table(entries_upto(*t, t.len() as int)),
        }
    }
}

/// The views of the first `n` values of `v`.
pub open spec fn vals_upto(v: Vec<TomlValue>, n: int) -> Seq<Val>
    decreases v, n,
{
    if n <= 0 || n > v.len() {
        Seq::empty()
    } else {
        vals_upto(v, n - 1).push(v[n - 1].view())
    }
}

/// The views of the first `n` entries of `t`.
pub open spec fn entries_upto(t: Vec<(TomlKey, TomlValue)>, n: int) -> Seq<(KeyV, Val)>
    decreases t, n,
{
    if n <= 0 || n > t.len() {
        Seq::empty()
    } else {
        entries_upto(t, n - 1).push((t[n - 1].0@, t[n - 1].1.view()))
    }
}

/// The name of a table entry; `Root` names the implicit top-level table.
#[derive(Debug, Clone, PartialEq, Eq, Hash)]
pub enum TomlKey {
    Literal(String),
    Root,
}

impl TomlValue {
    /// Parses a whole document: a table whose entries are the implicit
    /// top-level table (under `TomlKey::Root`, where it has a declaration) and
    /// one table for each header.
    pub fn parse(input: &str) -> (r: Result<TomlValue, TomlError>)
        ensures
            match parse_of(vstd::utf8::encode_utf8(input@)) {
                Ok(v) => r matches Ok(t) && t@ == v,
                Err(k) => r matches Err(e) && e.kind() == k,
            },
    {
        parser::parse_bytes(input.as_bytes())
    }

    /// The integer, if this is one.
    pub fn as_int(&self) -> (r: Option<&i64>)
        ensures
            r matches Some(x) ==> (self matches TomlValue::Int(y) && *x == y),
            r is None <==> !(self is Int),
    {
        match self {
            TomlValue::Int(x) => Some(x),
            _ => None,
        }
    }

    /// The float, if this is one.
    pub fn as_floating(&self) -> (r: Option<&Float>)
        ensures
            r is None <==> !(self is Float),
            r matches Some(x) ==> (self matches TomlValue::Float(y) && *x == y),
    {
        match self {
            TomlValue::Float(x) => Some(x),
            _ => None,
        }
    }

    /// The string, if this is one.
    pub fn as_string(&self) -> (r: Option<&String>)
        ensures
            r is None <==> !(self is String),
            r matches Some(x) ==> (self matches TomlValue::String(y) && *x == y),
    {
        match self {
            TomlValue::String(x) => Some(x),
            _ => None,
        }
    }

    /// The array, if this is one.
    pub fn as_array(&self) -> (r: Option<&Vec<TomlValue>>)
        ensures
            r is None <==> !(self is Array),
            r matches Some(x) ==> (self matches TomlValue::Array(y) && *x == y),
    {
        match self {
            TomlValue::Array(x) => Some(x),
            _ => None,
        }
    }

    /// The boolean, if this is one.
    pub fn as_boolean(&self) -> (r: Option<&bool>)
        ensures
            r is None <==> !(self is Boolean),
            r matches Some(x) ==> (self matches TomlValue::Boolean(y) && *x == y),
    {
        match self {
            TomlValue::Boolean(x) => Some(x),
            _ => None,
        }
    }

    /// The date-time, if this is one.
    pub fn as_datetime(&self) -> (r: Option<&DateTime>)
        ensures
            r is None <==> !(self is DateTime),
            r matches Some(x) ==> (self matches TomlValue::DateTime(y) && *x == y),
    {
        match self {
            TomlValue::DateTime(x) => Some(x),
            _ => None,
        }
    }

    /// The table, if this is one.
    pub fn as_table(&self) -> (r: Option<&Table>)
        ensures
            r is None <==> !(self is Table),
            r matches Some(x) ==> (self matches TomlValue::Table(y) && *x == y),
    {
        match self {
            TomlValue::Table(x) => Some(x),
            _ => None,
        }
    }
}

/// The value under `key` in `table`, if it has one.
pub fn table_get<'a>(table: &'a Table, key: &TomlKey) -> (r: Option<&'a TomlValue>)
    ensures
        r is None <==> !value::has_key(value::entries_view(table@), key@),
        r matches Some(v) ==> exists|i: int|
            0 <= i < table@.len() && table@[i].0@ == key@ && table@[i].1 == *v,
{
    let mut i: usize = 0;
    while i < table.len()
        invariant
            i <= table@.len(),
            forall|j: int| 0 <= j < i ==> (#[trigger] value::entries_view(table@)[j]).0 != key@,
        decreases table@.len() - i,
    {
        if value::same_key(&table[i].0, key) {
            assert(value::entries_view(table@)[i as int].0 == key@);
            return Some(&table[i].1);
        }
        i = i + 1;
    }
    None
}

impl TomlKey {
    /// Whether this names the implicit top-level table.
    pub fn is_none(&self) -> (r: bool)
        ensures
            r == (self is Root),
    {
        match self {
            TomlKey::Root => true,
            _ => false,
        }
    }

    /// The key with this name.
    pub fn from(name: &str) -> (r: TomlKey)
        ensures
            r@ == KeyV::Lit(name@),
    {
        TomlKey::Literal(name.to_string())
    }
}

impl DateTime {
    /// The full date-time, if this is one.
    pub fn as_datetime(&self) -> (r: Option<&DateTimeValue>)
        ensures
            r is None <==> !(self is DateTime),
            r matches Some(x) ==> (self matches DateTime::DateTime(y) && *x == y),
    {
        match self {
            DateTime::DateTime(x) => Some(x),
            _ => None,
        }
    }

    /// The date, if this is a date only.
    pub fn as_date(&self) -> (r: Option<&DateValue>)
        ensures
            r is None <==> !(self is Date),
            r matches Some(x) ==> (self matches DateTime::Date(y) && *x == y),
    {
        match self {
            DateTime::Date(x) => Some(x),
            _ => None,
        }
    }

    /// The time, if this is a time only.
    pub fn as_time(&self) -> (r: Option<&TimeValue>)
        ensures
            r is None <==> !(self is Time),
            r matches Some(x) ==> (self matches DateTime::Time(y) && *x == y),
    {
        match self {
            DateTime::Time(x) => Some(x),
            _ => None,
        }
    }
}

} // verus!

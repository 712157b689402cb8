use vstd::prelude::*;
use vstd::utf8::{decode_utf8, encode_utf8, valid_utf8};

use crate::errors::{DBError, Result};
use crate::serializer::{
    be_i32, be_u32, be_u64, bool_byte, lemma_i32_round_trip, lemma_u32_round_trip, lemma_u64_round_trip,
    string_bytes, string_fits, string_payload, u32_of, u64_of, BinaryReader, BinaryWriter,
};

verus! {

broadcast use {vstd::utf8::encode_utf8_decode_utf8, vstd::utf8::encode_utf8_valid_utf8};

/// The type of a column.
#[derive(PartialEq, Eq, Debug, Clone, Copy, Structural)]
pub enum DBType {
    Bool,
    Int,
    Double,
    String,
}

/// A stored value. A double is kept as its IEEE-754 binary64 bit pattern,
/// which is exactly what the storage format holds.
#[derive(PartialEq, Debug, Clone)]
pub enum DBValue {
    Bool(bool),
    Int(i32),
    Double(u64),
    String(String),
}

/// The mathematical content of a value: a string is its characters.
pub enum ValueView {
    Bool(bool),
    Int(i32),
    Double(u64),
    Text(Seq<char>),
}

impl View for DBValue {
    type V = ValueView;

    open spec fn view(&self) -> ValueView {
        match self {
            DBValue::Bool(b) => ValueView::Bool(*b),
            DBValue::Int(i) => ValueView::Int(*i),
            DBValue::Double(d) => ValueView::Double(*d),
            DBValue::String(s) => ValueView::Text(s@),
        }
    }
}

pub open spec fn type_of(v: ValueView) -> DBType {
    match v {
        ValueView::Bool(_) => DBType::Bool,
        ValueView::Int(_) => DBType::Int,
        ValueView::Double(_) => DBType::Double,
        ValueView::Text(_) => DBType::String,
    }
}

/// The serialized size of a value.
pub open spec fn value_size(v: ValueView) -> nat {
    match v {
        ValueView::Bool(_) => 1,
        ValueView::Int(_) => 4,
        ValueView::Double(_) => 8,
        ValueView::Text(s) => 4 + encode_utf8(s).len(),
    }
}

/// A value can be written: a string's UTF-8 length fits its `u32` prefix.
pub open spec fn value_fits(v: ValueView) -> bool {
    v matches ValueView::Text(s) ==> encode_utf8(s).len() <= u32::MAX
}

/// The bytes of a value.
pub open spec fn encode_value(v: ValueView) -> Seq<u8> {
    match v {
        ValueView::Bool(b) => seq![bool_byte(b)],
        ValueView::Int(i) => be_i32(i),
        ValueView::Double(d) => be_u64(d),
        ValueView::Text(s) => string_bytes(s),
    }
}

/// Reads a value of type `ty` from the front of `b`: the value and the number
/// of bytes it took, or `None` when `b` is too short or a string is not UTF-8.
pub open spec fn decode_value(ty: DBType, b: Seq<u8>) -> Option<(ValueView, nat)> {
    match ty {
        DBType::Bool => if b.len() >= 1 {
            Some((ValueView::Bool(b[0] != 0), 1))
        } else {
            None
        },
        DBType::Int => if b.len() >= 4 {
            Some((ValueView::Int(#[verifier::truncate] (u32_of(b) as i32)), 4))
        } else {
            None
        },
        DBType::Double => if b.len() >= 8 {
            Some((ValueView::Double(u64_of(b)), 8))
        } else {
            None
        },
        DBType::String => if string_fits(b) && valid_utf8(string_payload(b)) {
            Some((ValueView::Text(decode_utf8(string_payload(b))), (4 + u32_of(b)) as nat))
        } else {
            None
        },
    }
}

/// `n` if it fits a `usize`, else `usize::MAX`.
pub open spec fn saturate(n: nat) -> nat {
    if n <= usize::MAX {
        n
    } else {
        usize::MAX as nat
    }
}

/// Decoding the bytes of a value, whatever follows them, gives the value back.
pub proof fn lemma_value_round_trip(v: ValueView, rest: Seq<u8>)
    requires
        value_fits(v),
    ensures
        decode_value(type_of(v), encode_value(v) + rest) == Some((v, value_size(v))),
{
    let b = encode_value(v) + rest;
    match v {
        ValueView::Bool(x) => {
        },
        ValueView::Int(x) => {
            lemma_i32_round_trip(x);
            assert(u32_of(b) == u32_of(be_i32(x)));
        },
        ValueView::Double(x) => {
            lemma_u64_round_trip(x);
            assert(b.skip(4).take(4) =~= be_u64(x).skip(4));
            assert(u64_of(b) == u64_of(be_u64(x)));
        },
        ValueView::Text(s) => {
            let n = encode_utf8(s).len();
            lemma_u32_round_trip(n as u32);
            assert(u32_of(b) == u32_of(be_u32(n as u32)));
            assert(string_payload(b) =~= encode_utf8(s));
        },
    }
}

impl DBType {
    /// The type named by `s` (`bool`, `int`, `double` or `double precision`,
    /// `text` or `string`), in any case; another name is a parse error.
    pub fn from_name(s: &str) -> (r: Result<DBType>)
        ensures
            r is Ok <==> type_named(lower_of(s@)) is Some,
            r matches Ok(t) ==> type_named(lower_of(s@)) == Some(t),
            r matches Err(e) ==> e is Parse,
    {
        let lower = lowercase(s);
        Self::from_lowercase_name(lower.as_str())
    }

    /// The type named by the lower-case name `l`; another name is a parse
    /// error.
    pub fn from_lowercase_name(l: &str) -> (r: Result<DBType>)
        ensures
            r is Ok <==> type_named(l@) is Some,
            r matches Ok(t) ==> type_named(l@) == Some(t),
            r matches Err(e) ==> e is Parse,
    {
        proof {
            reveal_strlit("bool");
            reveal_strlit("int");
            reveal_strlit("double");
            reveal_strlit("double precision");
            reveal_strlit("text");
            reveal_strlit("string");
        }
        if crate::utils::str_eq(l, "bool") {
            Ok(DBType::Bool)
        } else if crate::utils::str_eq(l, "int") {
            Ok(DBType::Int)
        } else if crate::utils::str_eq(l, "double") || crate::utils::str_eq(l, "double precision") {
            Ok(DBType::Double)
        } else if crate::utils::str_eq(l, "text") || crate::utils::str_eq(l, "string") {
            Ok(DBType::String)
        } else {
            let mut m = String::from_str("Invalid type: ");
            m.append(l);
            Err(DBError::Parse(m))
        }
    }

    /// The name used when printing a schema.
    pub fn name(&self) -> (r: &'static str)
        ensures
            r@ == type_display(*self),
    {
        match self {
            DBType::Bool => "bool",
            DBType::Int => "int",
            DBType::Double => "double precision",
            DBType::String => "text",
        }
    }
}

pub open spec fn type_display(t: DBType) -> Seq<char> {
    match t {
        DBType::Bool => "bool"@,
        DBType::Int => "int"@,
        DBType::Double => "double precision"@,
        DBType::String => "text"@,
    }
}

/// The type that a lower-case name stands for.
pub open spec fn type_named(l: Seq<char>) -> Option<DBType> {
    if l == "bool"@ {
        Some(DBType::Bool)
    } else if l == "int"@ {
        Some(DBType::Int)
    } else if l == "double"@ || l == "double precision"@ {
        Some(DBType::Double)
    } else if l == "text"@ || l == "string"@ {
        Some(DBType::String)
    } else {
        None
    }
}

/// What `str::to_lowercase` makes of a string.
pub uninterp spec fn lower_of(s: Seq<char>) -> Seq<char>;

/// Relies on `str::to_lowercase`, whose result depends on the characters alone.
#[verifier::external_body]
fn lowercase(s: &str) -> (r: String)
    ensures
        r@ == lower_of(s@),
{
    s.to_lowercase()
}

impl DBValue {
    /// Reads a value of the given type.
    pub fn from_reader(reader: &mut BinaryReader, dtype: DBType) -> (r: Result<Self>)
        requires
            old(reader).wf(),
        ensures
            final(reader).wf(),
            r is Ok <==> decode_value(dtype, old(reader).rest()) is Some,
            r matches Ok(v) ==> decode_value(dtype, old(reader).rest()) == Some((v@, (
            decode_value(dtype, old(reader).rest())->0).1)) && final(reader).rest() == old(
                reader,
            ).rest().skip((decode_value(dtype, old(reader).rest())->0).1 as int),
            r matches Err(e) ==> e is IO,
    {
        let ghost rest = reader.rest();
        match dtype {
            DBType::Bool => Ok(DBValue::Bool(reader.read_bool()?)),
            DBType::Int => Ok(DBValue::Int(reader.read_i32()?)),
            DBType::Double => Ok(DBValue::Double(reader.read_u64()?)),
            DBType::String => {
                let s = reader.read_string()?;
                Ok(DBValue::String(s))
            },
        }
    }

    /// Writes the value's bytes.
    pub fn write(&self, writer: &mut BinaryWriter)
        requires
            value_fits(self@),
        ensures
            final(writer)@ == old(writer)@ + encode_value(self@),
    {
        match self {
            DBValue::Bool(v) => writer.write_bool(*v),
            DBValue::Int(v) => writer.write_i32(*v),
            DBValue::Double(v) => writer.write_u64(*v),
            DBValue::String(v) => writer.write_string(v.as_str()),
        }
    }

    pub fn dtype(&self) -> (t: DBType)
        ensures
            t == type_of(self@),
    {
        match self {
            DBValue::Bool(_) => DBType::Bool,
            DBValue::Int(_) => DBType::Int,
            DBValue::Double(_) => DBType::Double,
            DBValue::String(_) => DBType::String,
        }
    }

    /// The serialized size: 1, 4, 8, or 4 plus the UTF-8 length of a string
    /// (`usize::MAX` if that does not fit).
    pub fn len(&self) -> (n: usize)
        ensures
            n == saturate(value_size(self@)),
    {
        proof {
            assert(usize::MAX >= 8);
        }
        match self {
            DBValue::Bool(_) => 1,
            DBValue::Int(_) => 4,
            DBValue::Double(_) => 8,
            DBValue::String(s) => s.as_str().as_bytes().len().saturating_add(4),
        }
    }

    /// A copy with the same content.
    pub fn clone_value(&self) -> (r: Self)
        ensures
            r == *self,
    {
        match self {
            DBValue::Bool(v) => DBValue::Bool(*v),
            DBValue::Int(v) => DBValue::Int(*v),
            DBValue::Double(v) => DBValue::Double(*v),
            DBValue::String(s) => DBValue::String(s.clone()),
        }
    }
}

pub open spec fn is_digit(c: char) -> bool {
    '0' <= c <= '9'
}

/// The number that a string of decimal digits writes.
pub open spec fn digits_value(s: Seq<char>) -> int
    decreases s.len(),
{
    if s.len() == 0 {
        0
    } else {
        digits_value(s.drop_last()) * 10 + (s.last() as int - '0' as int)
    }
}

/// The digits after an optional `+` or `-`.
pub open spec fn unsigned_part(s: Seq<char>) -> Seq<char> {
    if s.len() > 0 && (s[0] == '-' || s[0] == '+') {
        s.skip(1)
    } else {
        s
    }
}

/// What `str::parse::<i32>` makes of a string: an optional sign, then one or
/// more ASCII digits and nothing else, for a value in `i32`'s range.
pub open spec fn i32_parsed(s: Seq<char>) -> Option<i32> {
    let body = unsigned_part(s);
    let v = if s.len() > 0 && s[0] == '-' {
        -digits_value(body)
    } else {
        digits_value(body)
    };
    if body.len() == 0 || !(forall|i: int| 0 <= i < body.len() ==> is_digit(#[trigger] body[i])) {
        None
    } else if i32::MIN <= v <= i32::MAX {
        Some(v as i32)
    } else {
        None
    }
}

proof fn lemma_digits_grow(s: Seq<char>, i: int)
    requires
        0 <= i <= s.len(),
        forall|j: int| 0 <= j < s.len() ==> is_digit(#[trigger] s[j]),
    ensures
        0 <= digits_value(s.take(i)) <= digits_value(s),
    decreases s.len() - i,
{
    if i < s.len() {
        let t = s.take(i + 1);
        assert(t.drop_last() =~= s.take(i));
        assert(t.last() == s[i]);
        lemma_digits_grow(s, i + 1);
    } else {
        assert(s.take(i) =~= s);
        lemma_digits_nonneg(s);
    }
}

proof fn lemma_digits_nonneg(s: Seq<char>)
    requires
        forall|j: int| 0 <= j < s.len() ==> is_digit(#[trigger] s[j]),
    ensures
        0 <= digits_value(s),
    decreases s.len(),
{
    if s.len() > 0 {
        assert(is_digit(s[s.len() - 1]));
        lemma_digits_nonneg(s.drop_last());
    }
}

/// Reads a string as an `i32` the way `str::parse::<i32>` does.
pub fn parse_i32(s: &str) -> (r: Option<i32>)
    ensures
        r == i32_parsed(s@),
{
    let n = s.unicode_len();
    let mut start: usize = 0;
    let mut negative = false;
    if n > 0 {
        let c = s.get_char(0);
        if c == '-' || c == '+' {
            start = 1;
            negative = c == '-';
        }
    }
    let ghost body = unsigned_part(s@);
    proof {
        assert(body =~= s@.skip(start as int));
    }
    if start >= n {
        return None;
    }
    let mut acc: u64 = 0;
    let mut i: usize = start;
    while i < n
        invariant
            n == s@.len(),
            start <= i <= n,
            body == s@.skip(start as int),
            body == unsigned_part(s@),
            negative == (s@.len() > 0 && s@[0] == '-'),
            acc == digits_value(body.take(i - start)),
            acc <= 0x8000_0000,
            forall|j: int| 0 <= j < i - start ==> is_digit(#[trigger] body[j]),
        decreases n - i,
    {
        let c = s.get_char(i);
        proof {
            let t = body.take(i - start + 1);
            assert(t.drop_last() =~= body.take(i - start));
            assert(t.last() == c);
            assert(body[i - start] == c);
        }
        if !('0' <= c && c <= '9') {
            return None;
        }
        acc = acc * 10 + (c as u64 - '0' as u64);
        if acc > 0x8000_0000 {
            proof {
                if forall|j: int| 0 <= j < body.len() ==> is_digit(#[trigger] body[j]) {
                    lemma_digits_grow(body, i - start + 1);
                }
            }
            return None;
        }
        i = i + 1;
    }
    proof {
        assert(body.take(i - start) =~= body);
    }
    if negative {
        Some((0 - acc as i64) as i32)
    } else if acc > 0x7fff_ffff {
        None
    } else {
        Some(acc as i32)
    }
}

/// What a literal stands for: `true`/`false`, else the integer `int` if the
/// literal reads as an `i32`, else the double `double_bits` if it reads as
/// one, else the text between single quotes (taken as it is).
pub open spec fn literal_value(s: Seq<char>, as_int: Option<i32>, double_bits: Option<u64>) -> Option<ValueView> {
    if s == "true"@ {
        Some(ValueView::Bool(true))
    } else if s == "false"@ {
        Some(ValueView::Bool(false))
    } else if as_int is Some {
        Some(ValueView::Int(as_int->0))
    } else if double_bits is Some {
        Some(ValueView::Double(double_bits->0))
    } else if s.len() >= 2 && s[0] == '\'' && s.last() == '\'' {
        Some(ValueView::Text(s.subrange(1, s.len() - 1)))
    } else {
        None
    }
}

impl DBValue {
    /// The value a literal of a statement stands for. `double_bits` is the
    /// bit pattern of the literal read as a double, when it reads as one.
    pub fn parse_literal(s: &str, double_bits: Option<u64>) -> (r: Result<DBValue>)
        ensures
            r is Ok <==> literal_value(s@, i32_parsed(s@), double_bits) is Some,
            r matches Ok(v) ==> Some(v@) == literal_value(s@, i32_parsed(s@), double_bits),
            r matches Err(e) ==> e is Parse,
    {
        let as_int = parse_i32(s);
        Self::from_literal(s, as_int, double_bits)
    }

    /// The value a literal stands for, given what it reads as: `as_int` as
    /// an `i32`, `double_bits` as a double.
    pub fn from_literal(s: &str, as_int: Option<i32>, double_bits: Option<u64>) -> (r: Result<DBValue>)
        ensures
            r is Ok <==> literal_value(s@, as_int, double_bits) is Some,
            r matches Ok(v) ==> Some(v@) == literal_value(s@, as_int, double_bits),
            r matches Err(e) ==> e is Parse,
    {
        proof {
            reveal_strlit("true");
            reveal_strlit("false");
        }
        if crate::utils::str_eq(s, "true") {
            return Ok(DBValue::Bool(true));
        }
        if crate::utils::str_eq(s, "false") {
            return Ok(DBValue::Bool(false));
        }
        if let Some(v) = as_int {
            return Ok(DBValue::Int(v));
        }
        if let Some(bits) = double_bits {
            return Ok(DBValue::Double(bits));
        }
        let n = s.unicode_len();
        if n >= 2 && s.get_char(0) == '\'' && s.get_char(n - 1) == '\'' {
            let inner = s.substring_char(1, n - 1);
            return Ok(DBValue::String(String::from_str(inner)));
        }
        let mut m = String::from_str("Invalid DBValue: ");
        m.append(s);
        Err(DBError::Parse(m))
    }
}

} // verus!

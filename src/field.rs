use crate::signature::Signature;
use crate::text::{chars_of, lower_of, string_of, to_lower};
use vstd::prelude::*;

verus! {

/// A typed value of one field.
///
/// Floating-point values are held as their bit patterns, which is also how they
/// compare.
///
/// Fields are compared and ordered, never hashed: the index keeps its levels
/// sorted by key (see `compare_key`), and equality looks only at the
/// lower-cased form of a case-insensitive string.
#[derive(Clone, Debug)]
pub enum Field {
    /// Case-sensitive string.
    IStr(String),
    /// Case-insensitive string: the text as written, and its lower-cased form,
    /// which alone decides equality.
    UStr { original: String, lower: String },
    /// A single character.
    Char(char),
    /// 32-bit float: its bit pattern, and that of the same value widened to 64 bits.
    F32 { bits: u32, wide: u64 },
    /// 64-bit float, by its bit pattern.
    F64(u64),
    I8(i8),
    I16(i16),
    I32(i32),
    I64(i64),
    U8(u8),
    U16(u16),
    U32(u32),
    U64(u64),
    Bool(bool),
}

/// What decides whether two fields are equal: the kind, and the value; the
/// lower-cased form alone for a case-insensitive string.
pub enum Key {
    Text(Seq<char>),
    Folded(Seq<char>),
    Char(char),
    F32(u32),
    F64(u64),
    I8(i8),
    I16(i16),
    I32(i32),
    I64(i64),
    U8(u8),
    U16(u16),
    U32(u32),
    U64(u64),
    Bool(bool),
}

/// How one character is written inside a string closed by `q`: a backslash
/// goes before a backslash, a colon and `q`.
pub open spec fn escape_char(q: char, c: char) -> Seq<char> {
    if c == '\\' || c == ':' || c == q {
        seq!['\\', c]
    } else {
        seq![c]
    }
}

/// `s` written inside a string closed by `q`.
pub open spec fn escaped(q: char, s: Seq<char>) -> Seq<char>
    decreases s.len(),
{
    if s.len() == 0 {
        Seq::empty()
    } else {
        escaped(q, s.drop_last()) + escape_char(q, s.last())
    }
}

/// The text `s` as a double-quoted string.
pub open spec fn quoted(s: Seq<char>) -> Seq<char> {
    seq!['"'] + escaped('"', s) + seq!['"']
}

impl Field {
    /// Writes `s` for a string closed by `quote`.
    pub fn escape_str(quote: char, s: &str) -> (r: String)
        ensures
            r@ == escaped(quote, s@),
    {
        let v = chars_of(s);
        let mut out: Vec<char> = Vec::new();
        let mut i: usize = 0;
        assert(v@.take(0) =~= Seq::<char>::empty());
        while i < v.len()
            invariant
                0 <= i <= v@.len(),
                v@ == s@,
                out@ == escaped(quote, v@.take(i as int)),
            decreases v@.len() - i,
        {
            let c = v[i];
            let ghost before = out@;
            assert(v@.take(i + 1).drop_last() =~= v@.take(i as int));
            if c == '\\' || c == ':' || c == quote {
                out.push('\\');
            }
            out.push(c);
            assert(out@ =~= before + escape_char(quote, c));
            i = i + 1;
        }
        assert(v@.take(v@.len() as int) =~= v@);
        string_of(out.as_slice())
    }

    /// A string field as a double-quoted word, which reads back as the text
    /// written; `None` for other kinds.
    pub fn text_form(&self) -> (r: Option<String>)
        ensures
            match self {
                Field::IStr(s) => r matches Some(t) && t@ == quoted(s@),
                Field::UStr { original, .. } => r matches Some(t) && t@ == quoted(original@),
                _ => r is None,
            },
    {
        let s = match self {
            Field::IStr(s) => s,
            Field::UStr { original, .. } => original,
            _ => return None,
        };
        let e = chars_of(Field::escape_str('"', s.as_str()).as_str());
        let mut out: Vec<char> = Vec::new();
        out.push('"');
        let mut i: usize = 0;
        while i < e.len()
            invariant
                0 <= i <= e@.len(),
                out@ == seq!['"'] + e@.take(i as int),
            decreases e@.len() - i,
        {
            out.push(e[i]);
            assert(e@.take(i + 1) =~= e@.take(i as int).push(e@[i as int]));
            i = i + 1;
        }
        out.push('"');
        assert(e@.take(e@.len() as int) =~= e@);
        assert(out@ =~= quoted(s@));
        Some(string_of(out.as_slice()))
    }

    pub open spec fn key(self) -> Key {
        match self {
            Field::IStr(s) => Key::Text(s@),
            Field::UStr { lower, .. } => Key::Folded(lower@),
            Field::Char(c) => Key::Char(c),
            Field::F32 { bits, .. } => Key::F32(bits),
            Field::F64(b) => Key::F64(b),
            Field::I8(i) => Key::I8(i),
            Field::I16(i) => Key::I16(i),
            Field::I32(i) => Key::I32(i),
            Field::I64(i) => Key::I64(i),
            Field::U8(u) => Key::U8(u),
            Field::U16(u) => Key::U16(u),
            Field::U32(u) => Key::U32(u),
            Field::U64(u) => Key::U64(u),
            Field::Bool(b) => Key::Bool(b),
        }
    }

    /// The lower-cased form of a case-insensitive string is that of its text.
    pub open spec fn wf(self) -> bool {
        self matches Field::UStr { original, lower } ==> lower@ == lower_of(original@)
    }

    /// The widest value of the same family: a 32-bit float widened, every signed
    /// integer as 64 bits, every unsigned one as 64 bits, and a case-insensitive
    /// string as a case-sensitive one with its text as written.
    pub open spec fn canonical(self) -> Key {
        match self {
            Field::IStr(s) => Key::Text(s@),
            Field::UStr { original, .. } => Key::Text(original@),
            Field::Char(c) => Key::Char(c),
            Field::F32 { wide, .. } => Key::F64(wide),
            Field::F64(b) => Key::F64(b),
            Field::I8(i) => Key::I64(i as i64),
            Field::I16(i) => Key::I64(i as i64),
            Field::I32(i) => Key::I64(i as i64),
            Field::I64(i) => Key::I64(i),
            Field::U8(u) => Key::U64(u as u64),
            Field::U16(u) => Key::U64(u as u64),
            Field::U32(u) => Key::U64(u as u64),
            Field::U64(u) => Key::U64(u),
            Field::Bool(b) => Key::Bool(b),
        }
    }

    /// The kind of a field.
    pub open spec fn kind(self) -> Signature {
        match self {
            Field::IStr(_) => Signature::IStr,
            Field::UStr { .. } => Signature::UStr,
            Field::Char(_) => Signature::Char,
            Field::F32 { .. } => Signature::F32,
            Field::F64(_) => Signature::F64,
            Field::I8(_) => Signature::I8,
            Field::I16(_) => Signature::I16,
            Field::I32(_) => Signature::I32,
            Field::I64(_) => Signature::I64,
            Field::U8(_) => Signature::U8,
            Field::U16(_) => Signature::U16,
            Field::U32(_) => Signature::U32,
            Field::U64(_) => Signature::U64,
            Field::Bool(_) => Signature::Bool,
        }
    }

    /// The kind of what [`Field::upcast`] makes of a field.
    pub open spec fn upcast_kind(self) -> Signature {
        if self is UStr {
            Signature::IStr
        } else {
            self.wide_kind()
        }
    }

    /// The kind of a field's widest form.
    pub open spec fn wide_kind(self) -> Signature {
        match self {
            Field::IStr(_) => Signature::IStr,
            Field::UStr { .. } => Signature::UStr,
            Field::Char(_) => Signature::Char,
            Field::F32 { .. } | Field::F64(_) => Signature::F64,
            Field::I8(_) | Field::I16(_) | Field::I32(_) | Field::I64(_) => Signature::I64,
            Field::U8(_) | Field::U16(_) | Field::U32(_) | Field::U64(_) => Signature::U64,
            Field::Bool(_) => Signature::Bool,
        }
    }

    /// The text of a string field of either case kind.
    pub fn as_str(&self) -> (r: Option<&str>)
        ensures
            match self {
                Field::IStr(s) => r matches Some(t) && t@ == s@,
                Field::UStr { original, .. } => r matches Some(t) && t@ == original@,
                _ => r is None,
            },
    {
        match self {
            Field::IStr(s) => Some(s.as_str()),
            Field::UStr { original, .. } => Some(original.as_str()),
            _ => None,
        }
    }

    /// The character of a character field.
    pub fn as_char(&self) -> (r: Option<char>)
        ensures
            r == (match self {
                Field::Char(c) => Some(*c),
                _ => None,
            }),
    {
        match self {
            Field::Char(c) => Some(*c),
            _ => None,
        }
    }

    /// The value of an 8-bit signed field.
    pub fn as_i8(&self) -> (r: Option<i8>)
        ensures
            r == (match self {
                Field::I8(i) => Some(*i),
                _ => None,
            }),
    {
        match self {
            Field::I8(i) => Some(*i),
            _ => None,
        }
    }

    /// The value of a signed field of at most 16 bits.
    pub fn as_i16(&self) -> (r: Option<i16>)
        ensures
            r == (match self {
                Field::I8(i) => Some(*i as i16),
                Field::I16(i) => Some(*i),
                _ => None,
            }),
    {
        match self {
            Field::I8(i) => Some(*i as i16),
            Field::I16(i) => Some(*i),
            _ => None,
        }
    }

    /// The value of a signed field of at most 32 bits.
    pub fn as_i32(&self) -> (r: Option<i32>)
        ensures
            r == (match self {
                Field::I8(i) => Some(*i as i32),
                Field::I16(i) => Some(*i as i32),
                Field::I32(i) => Some(*i),
                _ => None,
            }),
    {
        match self {
            Field::I8(i) => Some(*i as i32),
            Field::I16(i) => Some(*i as i32),
            Field::I32(i) => Some(*i),
            _ => None,
        }
    }

    /// The value of any signed field.
    pub fn as_i64(&self) -> (r: Option<i64>)
        ensures
            r == (match self {
                Field::I8(i) => Some(*i as i64),
                Field::I16(i) => Some(*i as i64),
                Field::I32(i) => Some(*i as i64),
                Field::I64(i) => Some(*i),
                _ => None,
            }),
    {
        match self {
            Field::I8(i) => Some(*i as i64),
            Field::I16(i) => Some(*i as i64),
            Field::I32(i) => Some(*i as i64),
            Field::I64(i) => Some(*i),
            _ => None,
        }
    }

    /// The value of an 8-bit unsigned field.
    pub fn as_u8(&self) -> (r: Option<u8>)
        ensures
            r == (match self {
                Field::U8(u) => Some(*u),
                _ => None,
            }),
    {
        match self {
            Field::U8(u) => Some(*u),
            _ => None,
        }
    }

    /// The value of an unsigned field of at most 16 bits.
    pub fn as_u16(&self) -> (r: Option<u16>)
        ensures
            r == (match self {
                Field::U8(u) => Some(*u as u16),
                Field::U16(u) => Some(*u),
                _ => None,
            }),
    {
        match self {
            Field::U8(u) => Some(*u as u16),
            Field::U16(u) => Some(*u),
            _ => None,
        }
    }

    /// The value of an unsigned field of at most 32 bits.
    pub fn as_u32(&self) -> (r: Option<u32>)
        ensures
            r == (match self {
                Field::U8(u) => Some(*u as u32),
                Field::U16(u) => Some(*u as u32),
                Field::U32(u) => Some(*u),
                _ => None,
            }),
    {
        match self {
            Field::U8(u) => Some(*u as u32),
            Field::U16(u) => Some(*u as u32),
            Field::U32(u) => Some(*u),
            _ => None,
        }
    }

    /// The value of any unsigned field.
    pub fn as_u64(&self) -> (r: Option<u64>)
        ensures
            r == (match self {
                Field::U8(u) => Some(*u as u64),
                Field::U16(u) => Some(*u as u64),
                Field::U32(u) => Some(*u as u64),
                Field::U64(u) => Some(*u),
                _ => None,
            }),
    {
        match self {
            Field::U8(u) => Some(*u as u64),
            Field::U16(u) => Some(*u as u64),
            Field::U32(u) => Some(*u as u64),
            Field::U64(u) => Some(*u),
            _ => None,
        }
    }

    /// The value of a boolean field.
    pub fn as_bool(&self) -> (r: Option<bool>)
        ensures
            r == (match self {
                Field::Bool(b) => Some(*b),
                _ => None,
            }),
    {
        match self {
            Field::Bool(b) => Some(*b),
            _ => None,
        }
    }

    /// Converts to the widest form of the same family.
    pub fn upcast(&self) -> (r: Field)
        ensures
            r.key() == self.canonical(),
            r.wf(),
            r.wide_kind() == self.upcast_kind(),
            !(r is UStr),
    {
        match self {
            Field::IStr(s) => Field::IStr(s.clone()),
            Field::UStr { original, .. } => Field::IStr(original.clone()),
            Field::Char(c) => Field::Char(*c),
            Field::F32 { wide, .. } => Field::F64(*wide),
            Field::F64(b) => Field::F64(*b),
            Field::I8(i) => Field::I64(*i as i64),
            Field::I16(i) => Field::I64(*i as i64),
            Field::I32(i) => Field::I64(*i as i64),
            Field::I64(i) => Field::I64(*i),
            Field::U8(u) => Field::U64(*u as u64),
            Field::U16(u) => Field::U64(*u as u64),
            Field::U32(u) => Field::U64(*u as u64),
            Field::U64(u) => Field::U64(*u),
            Field::Bool(b) => Field::Bool(*b),
        }
    }

    /// The kind of this field's widest form.
    pub fn sig(&self) -> (r: Signature)
        ensures
            r == self.wide_kind(),
    {
        match self {
            Field::IStr(_) => Signature::IStr,
            Field::UStr { .. } => Signature::UStr,
            Field::Char(_) => Signature::Char,
            Field::F32 { .. } => Signature::F64,
            Field::F64(_) => Signature::F64,
            Field::I8(_) => Signature::I64,
            Field::I16(_) => Signature::I64,
            Field::I32(_) => Signature::I64,
            Field::I64(_) => Signature::I64,
            Field::U8(_) => Signature::U64,
            Field::U16(_) => Signature::U64,
            Field::U32(_) => Signature::U64,
            Field::U64(_) => Signature::U64,
            Field::Bool(_) => Signature::Bool,
        }
    }

    /// A copy of this field.
    pub fn copy(&self) -> (r: Field)
        ensures
            r.key() == self.key(),
            r.canonical() == self.canonical(),
            r.kind() == self.kind(),
            r.wide_kind() == self.wide_kind(),
            self.wf() ==> r.wf(),
    {
        match self {
            Field::IStr(s) => Field::IStr(s.clone()),
            Field::UStr { original, lower } => Field::UStr { original: original.clone(), lower: lower.clone() },
            Field::Char(c) => Field::Char(*c),
            Field::F32 { bits, wide } => Field::F32 { bits: *bits, wide: *wide },
            Field::F64(b) => Field::F64(*b),
            Field::I8(i) => Field::I8(*i),
            Field::I16(i) => Field::I16(*i),
            Field::I32(i) => Field::I32(*i),
            Field::I64(i) => Field::I64(*i),
            Field::U8(u) => Field::U8(*u),
            Field::U16(u) => Field::U16(*u),
            Field::U32(u) => Field::U32(*u),
            Field::U64(u) => Field::U64(*u),
            Field::Bool(b) => Field::Bool(*b),
        }
    }

    /// A case-insensitive string with text `s`.
    pub fn folded(s: &str) -> (r: Field)
        ensures
            r matches Field::UStr { original, lower } && original@ == s@ && lower@ == lower_of(s@),
            r.wf(),
    {
        Field::UStr { original: s.to_owned(), lower: to_lower(s) }
    }

    /// Whether two fields are equal: same kind, and same value (same lower-cased
    /// form for case-insensitive strings).
    pub fn same(&self, other: &Field) -> (r: bool)
        ensures
            r == (self.key() == other.key()),
    {
        match (self, other) {
            (Field::IStr(a), Field::IStr(b)) => crate::text::same_text(a.as_str(), b.as_str()),
            (Field::UStr { lower: a, .. }, Field::UStr { lower: b, .. }) => crate::text::same_text(a.as_str(), b.as_str()),
            (Field::Char(a), Field::Char(b)) => *a == *b,
            (Field::F32 { bits: a, .. }, Field::F32 { bits: b, .. }) => *a == *b,
            (Field::F64(a), Field::F64(b)) => *a == *b,
            (Field::I8(a), Field::I8(b)) => *a == *b,
            (Field::I16(a), Field::I16(b)) => *a == *b,
            (Field::I32(a), Field::I32(b)) => *a == *b,
            (Field::I64(a), Field::I64(b)) => *a == *b,
            (Field::U8(a), Field::U8(b)) => *a == *b,
            (Field::U16(a), Field::U16(b)) => *a == *b,
            (Field::U32(a), Field::U32(b)) => *a == *b,
            (Field::U64(a), Field::U64(b)) => *a == *b,
            (Field::Bool(a), Field::Bool(b)) => *a == *b,
            _ => false,
        }
    }
}

impl PartialEq for Field {
    fn eq(&self, other: &Field) -> (r: bool) {
        self.same(other)
    }
}

impl vstd::std_specs::cmp::PartialEqSpecImpl for Field {
    open spec fn obeys_eq_spec() -> bool {
        true
    }

    open spec fn eq_spec(&self, other: &Field) -> bool {
        self.key() == other.key()
    }
}

impl Eq for Field {
}

} // verus!

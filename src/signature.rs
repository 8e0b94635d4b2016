use crate::error::{Error, ParseError};
use crate::field::{Field, Key};
use crate::numeric::{decimal, read_integer, IntError};
use crate::text::lower_of;
use crate::text::chars_of;
use vstd::prelude::*;

verus! {

/// The fourteen field kinds.
#[derive(Clone, Copy, Debug, PartialEq, Eq, Structural)]
pub enum Signature {
    /// Case-sensitive string, keyword `istr`.
    IStr,
    /// Case-insensitive string, keyword `ustr`.
    UStr,
    Char,
    F32,
    F64,
    I8,
    I16,
    I32,
    I64,
    U8,
    U16,
    U32,
    U64,
    Bool,
}

/// The keyword that names each kind.
pub open spec fn keyword(s: Signature) -> Seq<char> {
    match s {
        Signature::IStr => seq!['i', 's', 't', 'r'],
        Signature::UStr => seq!['u', 's', 't', 'r'],
        Signature::Char => seq!['c', 'h', 'a', 'r'],
        Signature::F32 => seq!['f', '3', '2'],
        Signature::F64 => seq!['f', '6', '4'],
        Signature::I8 => seq!['i', '8'],
        Signature::I16 => seq!['i', '1', '6'],
        Signature::I32 => seq!['i', '3', '2'],
        Signature::I64 => seq!['i', '6', '4'],
        Signature::U8 => seq!['u', '8'],
        Signature::U16 => seq!['u', '1', '6'],
        Signature::U32 => seq!['u', '3', '2'],
        Signature::U64 => seq!['u', '6', '4'],
        Signature::Bool => seq!['b', 'o', 'o', 'l'],
    }
}

/// Reading of floating-point text, which this library leaves to its user.
///
/// Nothing is assumed of what an implementation returns: the typed conversion
/// takes whatever comes back as the field's value or as the reason it failed.
pub trait FloatSyntax {
    /// Reads `text` as a 32-bit float: its bit pattern, and the bit pattern of the
    /// same value as a 64-bit float; or why the text is not one.
    fn read_f32(&self, text: &str) -> Result<(u32, u64), String>;

    /// Reads `text` as a 64-bit float: its bit pattern; or why the text is not one.
    fn read_f64(&self, text: &str) -> Result<u64, String>;
}

fn is_word(v: &Vec<char>, w: &str) -> (r: bool)
    ensures
        r == (v@ == w@),
{
    let x = chars_of(w);
    if v.len() != x.len() {
        return false;
    }
    let mut i: usize = 0;
    while i < x.len()
        invariant
            x@ == w@,
            v.len() == x.len(),
            0 <= i <= x.len(),
            forall|j: int| 0 <= j < i ==> v@[j] == x@[j],
        decreases x.len() - i,
    {
        if v[i] != x[i] {
            return false;
        }
        i = i + 1;
    }
    assert(v@ =~= x@);
    true
}

/// The kind whose keyword is `s`, if any.
pub open spec fn kind_named(s: Seq<char>) -> Option<Signature> {
    if s == keyword(Signature::IStr) {
        Some(Signature::IStr)
    } else if s == keyword(Signature::UStr) {
        Some(Signature::UStr)
    } else if s == keyword(Signature::Char) {
        Some(Signature::Char)
    } else if s == keyword(Signature::F32) {
        Some(Signature::F32)
    } else if s == keyword(Signature::F64) {
        Some(Signature::F64)
    } else if s == keyword(Signature::I8) {
        Some(Signature::I8)
    } else if s == keyword(Signature::I16) {
        Some(Signature::I16)
    } else if s == keyword(Signature::I32) {
        Some(Signature::I32)
    } else if s == keyword(Signature::I64) {
        Some(Signature::I64)
    } else if s == keyword(Signature::U8) {
        Some(Signature::U8)
    } else if s == keyword(Signature::U16) {
        Some(Signature::U16)
    } else if s == keyword(Signature::U32) {
        Some(Signature::U32)
    } else if s == keyword(Signature::U64) {
        Some(Signature::U64)
    } else if s == keyword(Signature::Bool) {
        Some(Signature::Bool)
    } else {
        None
    }
}

/// Whether a kind's values are read by a [`FloatSyntax`].
pub open spec fn is_float(k: Signature) -> bool {
    k == Signature::F32 || k == Signature::F64
}

/// The integer of kind `k` written by `s`, if any.
pub open spec fn int_key(k: Signature, s: Seq<char>) -> Option<Key> {
    match k {
        Signature::I8 => match decimal(s, true, -0x80, 0x7f) {
            Ok(v) => Some(Key::I8(v as i8)),
            Err(_) => None,
        },
        Signature::I16 => match decimal(s, true, -0x8000, 0x7fff) {
            Ok(v) => Some(Key::I16(v as i16)),
            Err(_) => None,
        },
        Signature::I32 => match decimal(s, true, -0x8000_0000, 0x7fff_ffff) {
            Ok(v) => Some(Key::I32(v as i32)),
            Err(_) => None,
        },
        Signature::I64 => match decimal(s, true, -0x8000_0000_0000_0000, 0x7fff_ffff_ffff_ffff) {
            Ok(v) => Some(Key::I64(v as i64)),
            Err(_) => None,
        },
        Signature::U8 => match decimal(s, false, 0, 0xff) {
            Ok(v) => Some(Key::U8(v as u8)),
            Err(_) => None,
        },
        Signature::U16 => match decimal(s, false, 0, 0xffff) {
            Ok(v) => Some(Key::U16(v as u16)),
            Err(_) => None,
        },
        Signature::U32 => match decimal(s, false, 0, 0xffff_ffff) {
            Ok(v) => Some(Key::U32(v as u32)),
            Err(_) => None,
        },
        Signature::U64 => match decimal(s, false, 0, 0xffff_ffff_ffff_ffff) {
            Ok(v) => Some(Key::U64(v as u64)),
            Err(_) => None,
        },
        _ => None,
    }
}

/// What the text `s` of a field of kind `k` stands for, if it is a value of
/// that kind; floats are read by a [`FloatSyntax`] and have no entry here.
pub open spec fn typed_key(k: Signature, s: Seq<char>) -> Option<Key> {
    match k {
        Signature::IStr => Some(Key::Text(s)),
        Signature::UStr => Some(Key::Folded(lower_of(s))),
        Signature::Char => if s.len() == 1 { Some(Key::Char(s[0])) } else { None },
        Signature::Bool => if s == seq!['t', 'r', 'u', 'e'] {
            Some(Key::Bool(true))
        } else if s == seq!['f', 'a', 'l', 's', 'e'] {
            Some(Key::Bool(false))
        } else {
            None
        },
        Signature::F32 | Signature::F64 => None,
        _ => int_key(k, s),
    }
}

/// `e` reports that the text `s` is not a value of kind `k`, at `location`, `line`.
pub open spec fn type_error_at(e: Error, k: Signature, s: Seq<char>, location: Seq<char>, line: u32) -> bool {
    match e {
        Error::ParseError { location: l, line: n, reason: ParseError::TypeError { target, value, .. } } =>
            l@ == location && n == line && target == k && value@ == s,
        _ => false,
    }
}

fn type_error(k: Signature, s: &str, location: &str, line: u32, why: &str) -> (e: Error)
    ensures
        type_error_at(e, k, s@, location@, line),
{
    Error::ParseError {
        location: location.to_owned(),
        line,
        reason: ParseError::TypeError { target: k, value: s.to_owned(), reason: why.to_owned() },
    }
}

fn int_reason(e: IntError) -> &'static str {
    match e {
        IntError::Empty => "cannot parse integer from empty string",
        IntError::InvalidDigit => "invalid digit found in string",
        IntError::PosOverflow => "number too large to fit in target type",
        IntError::NegOverflow => "number too small to fit in target type",
    }
}

/// Reads the text of a field of one of the eight integer kinds.
fn int_field(k: Signature, s: &str, location: &str, line: u32) -> (r: Result<Field, Error>)
    requires
        !is_float(k),
        k != Signature::IStr && k != Signature::UStr && k != Signature::Char && k != Signature::Bool,
    ensures
        match r {
            Ok(f) => f.wf() && f.kind() == k && int_key(k, s@) == Some(f.key()),
            Err(e) => int_key(k, s@) is None && type_error_at(e, k, s@, location@, line),
        },
{
    match k {
        Signature::I8 => match read_integer(s, true, -0x80, 0x7f) {
            Ok(v) => Ok(Field::I8(v as i8)),
            Err(e) => Err(type_error(k, s, location, line, int_reason(e))),
        },
        Signature::I16 => match read_integer(s, true, -0x8000, 0x7fff) {
            Ok(v) => Ok(Field::I16(v as i16)),
            Err(e) => Err(type_error(k, s, location, line, int_reason(e))),
        },
        Signature::I32 => match read_integer(s, true, -0x8000_0000, 0x7fff_ffff) {
            Ok(v) => Ok(Field::I32(v as i32)),
            Err(e) => Err(type_error(k, s, location, line, int_reason(e))),
        },
        Signature::I64 => match read_integer(s, true, -0x8000_0000_0000_0000, 0x7fff_ffff_ffff_ffff) {
            Ok(v) => Ok(Field::I64(v as i64)),
            Err(e) => Err(type_error(k, s, location, line, int_reason(e))),
        },
        Signature::U8 => match read_integer(s, false, 0, 0xff) {
            Ok(v) => Ok(Field::U8(v as u8)),
            Err(e) => Err(type_error(k, s, location, line, int_reason(e))),
        },
        Signature::U16 => match read_integer(s, false, 0, 0xffff) {
            Ok(v) => Ok(Field::U16(v as u16)),
            Err(e) => Err(type_error(k, s, location, line, int_reason(e))),
        },
        Signature::U32 => match read_integer(s, false, 0, 0xffff_ffff) {
            Ok(v) => Ok(Field::U32(v as u32)),
            Err(e) => Err(type_error(k, s, location, line, int_reason(e))),
        },
        Signature::U64 => match read_integer(s, false, 0, 0xffff_ffff_ffff_ffff) {
            Ok(v) => Ok(Field::U64(v as u64)),
            Err(e) => Err(type_error(k, s, location, line, int_reason(e))),
        },
        _ => Err(type_error(k, s, location, line, "not an integer kind")),
    }
}

impl Signature {
    /// The kind named by keyword `s`.
    pub fn from_str(s: &str) -> (r: Result<Signature, ParseError>)
        ensures
            match r {
                Ok(k) => kind_named(s@) == Some(k),
                Err(e) => kind_named(s@) is None && (match e {
                    ParseError::UnrecognisedType { got } => got@ == s@,
                    _ => false,
                }),
            },
    {
        let v = chars_of(s);
        proof {
            reveal_strlit("istr");
            assert("istr"@ =~= keyword(Signature::IStr));
        }
        if is_word(&v, "istr") {
            return Ok(Signature::IStr);
        }
        proof {
            reveal_strlit("ustr");
            assert("ustr"@ =~= keyword(Signature::UStr));
        }
        if is_word(&v, "ustr") {
            return Ok(Signature::UStr);
        }
        proof {
            reveal_strlit("char");
            assert("char"@ =~= keyword(Signature::Char));
        }
        if is_word(&v, "char") {
            return Ok(Signature::Char);
        }
        proof {
            reveal_strlit("f32");
            assert("f32"@ =~= keyword(Signature::F32));
        }
        if is_word(&v, "f32") {
            return Ok(Signature::F32);
        }
        proof {
            reveal_strlit("f64");
            assert("f64"@ =~= keyword(Signature::F64));
        }
        if is_word(&v, "f64") {
            return Ok(Signature::F64);
        }
        proof {
            reveal_strlit("i8");
            assert("i8"@ =~= keyword(Signature::I8));
        }
        if is_word(&v, "i8") {
            return Ok(Signature::I8);
        }
        proof {
            reveal_strlit("i16");
            assert("i16"@ =~= keyword(Signature::I16));
        }
        if is_word(&v, "i16") {
            return Ok(Signature::I16);
        }
        proof {
            reveal_strlit("i32");
            assert("i32"@ =~= keyword(Signature::I32));
        }
        if is_word(&v, "i32") {
            return Ok(Signature::I32);
        }
        proof {
            reveal_strlit("i64");
            assert("i64"@ =~= keyword(Signature::I64));
        }
        if is_word(&v, "i64") {
            return Ok(Signature::I64);
        }
        proof {
            reveal_strlit("u8");
            assert("u8"@ =~= keyword(Signature::U8));
        }
        if is_word(&v, "u8") {
            return Ok(Signature::U8);
        }
        proof {
            reveal_strlit("u16");
            assert("u16"@ =~= keyword(Signature::U16));
        }
        if is_word(&v, "u16") {
            return Ok(Signature::U16);
        }
        proof {
            reveal_strlit("u32");
            assert("u32"@ =~= keyword(Signature::U32));
        }
        if is_word(&v, "u32") {
            return Ok(Signature::U32);
        }
        proof {
            reveal_strlit("u64");
            assert("u64"@ =~= keyword(Signature::U64));
        }
        if is_word(&v, "u64") {
            return Ok(Signature::U64);
        }
        proof {
            reveal_strlit("bool");
            assert("bool"@ =~= keyword(Signature::Bool));
        }
        if is_word(&v, "bool") {
            return Ok(Signature::Bool);
        }
        Err(ParseError::UnrecognisedType { got: s.to_owned() })
    }

    /// Converts the text `s` of a field declared with this kind into a typed
    /// field; failures are located at `location`, `line`.
    pub fn parse<F: FloatSyntax>(&self, s: &str, location: &str, line: u32, floats: &F) -> (r: Result<Field, Error>)
        ensures
            match r {
                Ok(f) => {
                    &&& f.wf()
                    &&& f.kind() == *self
                    &&& !is_float(*self) ==> typed_key(*self, s@) == Some(f.key())
                    &&& f matches Field::UStr { original, .. } ==> original@ == s@
                },
                Err(e) => {
                    &&& !is_float(*self) ==> typed_key(*self, s@) is None
                    &&& type_error_at(e, *self, s@, location@, line)
                },
            },
    {
        match self {
            Signature::IStr => Ok(Field::IStr(s.to_owned())),
            Signature::UStr => Ok(Field::folded(s)),
            Signature::Char => {
                let v = chars_of(s);
                if v.len() == 1 {
                    Ok(Field::Char(v[0]))
                } else {
                    Err(type_error(*self, s, location, line, "cannot convert to char"))
                }
            },
            Signature::F32 => match floats.read_f32(s) {
                Ok((bits, wide)) => Ok(Field::F32 { bits, wide }),
                Err(why) => Err(type_error(*self, s, location, line, why.as_str())),
            },
            Signature::F64 => match floats.read_f64(s) {
                Ok(bits) => Ok(Field::F64(bits)),
                Err(why) => Err(type_error(*self, s, location, line, why.as_str())),
            },
            Signature::Bool => {
                let v = chars_of(s);
                proof {
                    reveal_strlit("true");
                    reveal_strlit("false");
                    assert("true"@ =~= seq!['t', 'r', 'u', 'e']);
                    assert("false"@ =~= seq!['f', 'a', 'l', 's', 'e']);
                }
                if is_word(&v, "true") {
                    Ok(Field::Bool(true))
                } else if is_word(&v, "false") {
                    Ok(Field::Bool(false))
                } else {
                    Err(type_error(*self, s, location, line, "provided string was not `true` or `false`"))
                }
            },
            _ => int_field(*self, s, location, line),
        }
    }

    /// The keyword that names this kind.
    pub fn keyword(&self) -> (r: &'static str)
        ensures
            r@ == keyword(*self),
    {
        match self {
            Signature::IStr => {
                proof {
                    reveal_strlit("istr");
                    assert("istr"@ =~= keyword(Signature::IStr));
                }
                "istr"
            },
            Signature::UStr => {
                proof {
                    reveal_strlit("ustr");
                    assert("ustr"@ =~= keyword(Signature::UStr));
                }
                "ustr"
            },
            Signature::Char => {
                proof {
                    reveal_strlit("char");
                    assert("char"@ =~= keyword(Signature::Char));
                }
                "char"
            },
            Signature::F32 => {
                proof {
                    reveal_strlit("f32");
                    assert("f32"@ =~= keyword(Signature::F32));
                }
                "f32"
            },
            Signature::F64 => {
                proof {
                    reveal_strlit("f64");
                    assert("f64"@ =~= keyword(Signature::F64));
                }
                "f64"
            },
            Signature::I8 => {
                proof {
                    reveal_strlit("i8");
                    assert("i8"@ =~= keyword(Signature::I8));
                }
                "i8"
            },
            Signature::I16 => {
                proof {
                    reveal_strlit("i16");
                    assert("i16"@ =~= keyword(Signature::I16));
                }
                "i16"
            },
            Signature::I32 => {
                proof {
                    reveal_strlit("i32");
                    assert("i32"@ =~= keyword(Signature::I32));
                }
                "i32"
            },
            Signature::I64 => {
                proof {
                    reveal_strlit("i64");
                    assert("i64"@ =~= keyword(Signature::I64));
                }
                "i64"
            },
            Signature::U8 => {
                proof {
                    reveal_strlit("u8");
                    assert("u8"@ =~= keyword(Signature::U8));
                }
                "u8"
            },
            Signature::U16 => {
                proof {
                    reveal_strlit("u16");
                    assert("u16"@ =~= keyword(Signature::U16));
                }
                "u16"
            },
            Signature::U32 => {
                proof {
                    reveal_strlit("u32");
                    assert("u32"@ =~= keyword(Signature::U32));
                }
                "u32"
            },
            Signature::U64 => {
                proof {
                    reveal_strlit("u64");
                    assert("u64"@ =~= keyword(Signature::U64));
                }
                "u64"
            },
            Signature::Bool => {
                proof {
                    reveal_strlit("bool");
                    assert("bool"@ =~= keyword(Signature::Bool));
                }
                "bool"
            },
        }
    }
}

} // verus!

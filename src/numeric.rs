use crate::text::chars_of;
use vstd::prelude::*;

verus! {

pub open spec fn is_digit(c: char) -> bool {
    '0' <= c && c <= '9'
}

pub open spec fn all_digits(s: Seq<char>) -> bool {
    forall|i: int| 0 <= i < s.len() ==> is_digit(#[trigger] s[i])
}

/// The value of a run of decimal digits.
pub open spec fn digits_value(s: Seq<char>) -> nat
    decreases s.len(),
{
    if s.len() == 0 {
        0
    } else {
        digits_value(s.drop_last()) * 10 + ((s.last() as u32 - '0' as u32) as nat)
    }
}

/// Why a text is not an integer of a given range.
#[derive(Clone, Copy, Debug, PartialEq, Eq, Structural)]
pub enum IntError {
    /// No digits at all.
    Empty,
    /// A character that is not a digit, or a sign where none is allowed.
    InvalidDigit,
    /// Above the range.
    PosOverflow,
    /// Below the range.
    NegOverflow,
}

/// The sign and digits of `s`: an optional `+`, or `-` where `signed`, then the rest.
pub open spec fn sign_split(s: Seq<char>, signed: bool) -> (bool, Seq<char>) {
    if s.len() > 0 && (s[0] == '+' || (signed && s[0] == '-')) {
        (s[0] == '-', s.drop_first())
    } else {
        (false, s)
    }
}

/// What reading `s` as a decimal integer in `[min, max]` gives: an optional
/// sign (`-` only where `signed`) and at least one digit.
pub open spec fn decimal(s: Seq<char>, signed: bool, min: int, max: int) -> Result<int, IntError> {
    let neg = sign_split(s, signed).0;
    let d = sign_split(s, signed).1;
    if s.len() == 0 {
        Err(IntError::Empty)
    } else if d.len() == 0 || !all_digits(d) {
        Err(IntError::InvalidDigit)
    } else {
        let v = if neg { -digits_value(d) } else { digits_value(d) as int };
        if v > max {
            Err(IntError::PosOverflow)
        } else if v < min {
            Err(IntError::NegOverflow)
        } else {
            Ok(v)
        }
    }
}

/// The cap above which the value of a digit run no longer matters here.
pub open spec fn cap() -> nat {
    0x1_0000_0000_0000_0000
}

proof fn lemma_capped_step(v: nat, d: nat)
    requires
        d < 10,
    ensures
        (if v >= cap() { cap() } else { v }) * 10 + d >= cap() <==> v * 10 + d >= cap(),
        v < cap() ==> (if v >= cap() { cap() } else { v }) * 10 + d == v * 10 + d,
{
}

/// Reads `s` as a decimal integer between `min` and `max`.
pub fn read_integer(s: &str, signed: bool, min: i128, max: i128) -> (r: Result<i128, IntError>)
    requires
        -0x1_0000_0000_0000_0000 < min <= 0 <= max < 0x1_0000_0000_0000_0000,
        !signed ==> min == 0,
    ensures
        match r {
            Ok(v) => decimal(s@, signed, min as int, max as int) == Ok::<int, IntError>(v as int)
                && min <= v <= max,
            Err(e) => decimal(s@, signed, min as int, max as int) == Err::<int, IntError>(e),
        },
{
    let v = chars_of(s);
    if v.len() == 0 {
        return Err(IntError::Empty);
    }
    let neg = signed && v[0] == '-';
    let start: usize = if v[0] == '+' || neg { 1 } else { 0 };
    let ghost d = sign_split(s@, signed).1;
    assert(d =~= v@.subrange(start as int, v.len() as int));
    if start == v.len() {
        assert(d.len() == 0);
        return Err(IntError::InvalidDigit);
    }
    let mut acc: u128 = 0;
    let mut i: usize = start;
    while i < v.len()
        invariant
            v@ == s@,
            start <= i <= v.len(),
            d == v@.subrange(start as int, v.len() as int),
            d == sign_split(s@, signed).1,
            v.len() > 0,
            forall|j: int| start <= j < i ==> is_digit(v@[j]),
            acc as nat == if digits_value(v@.subrange(start as int, i as int)) >= cap() {
                cap()
            } else {
                digits_value(v@.subrange(start as int, i as int))
            },
        decreases v.len() - i,
    {
        let c = v[i];
        if !('0' <= c && c <= '9') {
            assert(d[i - start] == c);
            assert(!all_digits(d));
            return Err(IntError::InvalidDigit);
        }
        let ghost before = v@.subrange(start as int, i as int);
        assert(v@.subrange(start as int, i + 1).drop_last() =~= before);
        let dig = (c as u32 - '0' as u32) as u128;
        proof {
            lemma_capped_step(digits_value(before), dig as nat);
        }
        let next = acc * 10 + dig;
        acc = if next >= 0x1_0000_0000_0000_0000 { 0x1_0000_0000_0000_0000 } else { next };
        i = i + 1;
    }
    assert(all_digits(d));
    assert(v@.subrange(start as int, v.len() as int) == d);
    if neg {
        if acc > (0 - min) as u128 {
            return Err(IntError::NegOverflow);
        }
        Ok(0 - (acc as i128))
    } else {
        if acc > max as u128 {
            return Err(IntError::PosOverflow);
        }
        Ok(acc as i128)
    }
}

} // verus!

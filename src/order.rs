use crate::field::{Field, Key};
use crate::text::chars_of;
use vstd::prelude::*;

verus! {

/// Text before text by the first character where they differ, a prefix first.
pub open spec fn text_less(a: Seq<char>, b: Seq<char>) -> bool
    decreases a.len(),
{
    if a.len() == 0 {
        b.len() > 0
    } else if b.len() == 0 {
        false
    } else if a[0] != b[0] {
        (a[0] as u32) < (b[0] as u32)
    } else {
        text_less(a.drop_first(), b.drop_first())
    }
}

/// The position of a key's kind in the order of keys.
pub open spec fn rank(k: Key) -> int {
    match k {
        Key::Text(_) => 0,
        Key::Folded(_) => 1,
        Key::Char(_) => 2,
        Key::F32(_) => 3,
        Key::F64(_) => 4,
        Key::I8(_) => 5,
        Key::I16(_) => 6,
        Key::I32(_) => 7,
        Key::I64(_) => 8,
        Key::U8(_) => 9,
        Key::U16(_) => 10,
        Key::U32(_) => 11,
        Key::U64(_) => 12,
        Key::Bool(_) => 13,
    }
}

/// The order of index keys: by kind, then by value.
pub open spec fn key_less(a: Key, b: Key) -> bool {
    if rank(a) != rank(b) {
        rank(a) < rank(b)
    } else {
        match (a, b) {
            (Key::Text(x), Key::Text(y)) => text_less(x, y),
            (Key::Folded(x), Key::Folded(y)) => text_less(x, y),
            (Key::Char(x), Key::Char(y)) => (x as u32) < (y as u32),
            (Key::F32(x), Key::F32(y)) => x < y,
            (Key::F64(x), Key::F64(y)) => x < y,
            (Key::I8(x), Key::I8(y)) => x < y,
            (Key::I16(x), Key::I16(y)) => x < y,
            (Key::I32(x), Key::I32(y)) => x < y,
            (Key::I64(x), Key::I64(y)) => x < y,
            (Key::U8(x), Key::U8(y)) => x < y,
            (Key::U16(x), Key::U16(y)) => x < y,
            (Key::U32(x), Key::U32(y)) => x < y,
            (Key::U64(x), Key::U64(y)) => x < y,
            (Key::Bool(x), Key::Bool(y)) => !x && y,
            _ => false,
        }
    }
}

proof fn lemma_text_irreflexive(a: Seq<char>)
    ensures
        !text_less(a, a),
    decreases a.len(),
{
    if a.len() > 0 {
        lemma_text_irreflexive(a.drop_first());
    }
}

proof fn lemma_text_total(a: Seq<char>, b: Seq<char>)
    ensures
        a != b ==> text_less(a, b) || text_less(b, a),
        text_less(a, b) ==> !text_less(b, a),
    decreases a.len(),
{
    if a.len() == 0 && b.len() == 0 {
        assert(a =~= b);
    }
    if a.len() > 0 && b.len() > 0 {
        lemma_text_total(a.drop_first(), b.drop_first());
        if a[0] != b[0] {
            vstd::utf8::char_u32_cast(a[0], a[0] as u32);
            vstd::utf8::char_u32_cast(b[0], b[0] as u32);
        }
        if a != b && a[0] == b[0] {
            assert(a.drop_first() != b.drop_first()) by {
                if a.drop_first() == b.drop_first() {
                    assert(a.len() == b.len());
                    assert forall|i: int| 0 <= i < a.len() implies a[i] == b[i] by {
                        if i > 0 {
                            assert(a[i] == a.drop_first()[i - 1]);
                            assert(b[i] == b.drop_first()[i - 1]);
                        }
                    }
                    assert(a =~= b);
                }
            }
        }
    }
}

proof fn lemma_text_transitive(a: Seq<char>, b: Seq<char>, c: Seq<char>)
    ensures
        text_less(a, b) && text_less(b, c) ==> text_less(a, c),
    decreases a.len(),
{
    if a.len() > 0 && b.len() > 0 && c.len() > 0 {
        lemma_text_transitive(a.drop_first(), b.drop_first(), c.drop_first());
    }
}

pub proof fn lemma_text_order(a: Seq<char>, b: Seq<char>, c: Seq<char>)
    ensures
        !text_less(a, a),
        a != b ==> text_less(a, b) || text_less(b, a),
        text_less(a, b) ==> !text_less(b, a),
        text_less(a, b) && text_less(b, c) ==> text_less(a, c),
{
    lemma_text_irreflexive(a);
    lemma_text_total(a, b);
    lemma_text_transitive(a, b, c);
}

pub proof fn lemma_key_order(a: Key, b: Key, c: Key)
    ensures
        !key_less(a, a),
        a != b ==> key_less(a, b) || key_less(b, a),
        key_less(a, b) ==> !key_less(b, a),
        key_less(a, b) && key_less(b, c) ==> key_less(a, c),
{
    match (a, b, c) {
        (Key::Text(x), Key::Text(y), Key::Text(z)) => lemma_text_order(x, y, z),
        (Key::Folded(x), Key::Folded(y), Key::Folded(z)) => lemma_text_order(x, y, z),
        (Key::Text(x), Key::Text(y), _) => lemma_text_order(x, y, y),
        (Key::Folded(x), Key::Folded(y), _) => lemma_text_order(x, y, y),
        (Key::Text(x), _, _) => lemma_text_order(x, x, x),
        (Key::Folded(x), _, _) => lemma_text_order(x, x, x),
        _ => {},
    }
}

/// Compares two texts in the order of `text_less`: below zero when `a` comes
/// first, zero when equal, above zero when `b` comes first.
fn compare_text(a: &str, b: &str) -> (r: i8)
    ensures
        r < 0 <==> text_less(a@, b@),
        r == 0 <==> a@ == b@,
        r > 0 <==> text_less(b@, a@),
{
    let x = chars_of(a);
    let y = chars_of(b);
    let mut i: usize = 0;
    assert(x@.skip(0) =~= x@);
    assert(y@.skip(0) =~= y@);
    assert(x@.take(0) =~= y@.take(0));
    proof {
        lemma_text_order(a@, b@, b@);
        lemma_text_order(b@, a@, a@);
    }
    while i < x.len() && i < y.len() && x[i] == y[i]
        invariant
            x@ == a@,
            y@ == b@,
            0 <= i <= x@.len(),
            i <= y@.len(),
            x@.take(i as int) == y@.take(i as int),
            text_less(a@, b@) == text_less(x@.skip(i as int), y@.skip(i as int)),
            text_less(b@, a@) == text_less(y@.skip(i as int), x@.skip(i as int)),
        decreases x@.len() - i,
    {
        assert(x@.skip(i as int).drop_first() =~= x@.skip(i + 1));
        assert(y@.skip(i as int).drop_first() =~= y@.skip(i + 1));
        assert(x@.take(i + 1) =~= x@.take(i as int).push(x@[i as int]));
        assert(y@.take(i + 1) =~= y@.take(i as int).push(y@[i as int]));
        i = i + 1;
    }
    if i == x.len() && i == y.len() {
        assert(x@ =~= x@.take(i as int));
        assert(y@ =~= y@.take(i as int));
        0
    } else if i == x.len() {
        assert(x@.skip(i as int).len() == 0);
        assert(a@ != b@) by {
            if a@ == b@ {
                assert(x@.len() == y@.len());
            }
        }
        -1
    } else if i == y.len() {
        assert(y@.skip(i as int).len() == 0);
        assert(a@ != b@) by {
            if a@ == b@ {
                assert(x@.len() == y@.len());
            }
        }
        1
    } else {
        assert(x@.skip(i as int)[0] == x@[i as int]);
        assert(y@.skip(i as int)[0] == y@[i as int]);
        assert(a@ != b@) by {
            if a@ == b@ {
                assert(x@[i as int] == y@[i as int]);
            }
        }
        if (x[i] as u32) < (y[i] as u32) {
            -1
        } else {
            1
        }
    }
}

fn rank_of(f: &Field) -> (r: u8)
    ensures
        r as int == rank(f.key()),
{
    match f {
        Field::IStr(_) => 0,
        Field::UStr { .. } => 1,
        Field::Char(_) => 2,
        Field::F32 { .. } => 3,
        Field::F64(_) => 4,
        Field::I8(_) => 5,
        Field::I16(_) => 6,
        Field::I32(_) => 7,
        Field::I64(_) => 8,
        Field::U8(_) => 9,
        Field::U16(_) => 10,
        Field::U32(_) => 11,
        Field::U64(_) => 12,
        Field::Bool(_) => 13,
    }
}


impl Field {
    /// Compares the keys of two fields in the order of `key_less`.
    pub fn compare_key(&self, other: &Field) -> (r: i8)
        ensures
            r < 0 <==> key_less(self.key(), other.key()),
            r == 0 <==> self.key() == other.key(),
            r > 0 <==> key_less(other.key(), self.key()),
    {
        proof {
            lemma_key_order(self.key(), other.key(), other.key());
            lemma_key_order(other.key(), self.key(), self.key());
        }
        let ra = rank_of(self);
        let rb = rank_of(other);
        if ra < rb {
            return -1;
        }
        if ra > rb {
            return 1;
        }
        match (self, other) {
            (Field::IStr(a), Field::IStr(b)) => compare_text(a.as_str(), b.as_str()),
            (Field::UStr { lower: a, .. }, Field::UStr { lower: b, .. }) => compare_text(a.as_str(), b.as_str()),
            (Field::Char(a), Field::Char(b)) => if (*a as u32) < (*b as u32) { -1 } else if *a == *b { 0 } else { 1 },
            (Field::F32 { bits: a, .. }, Field::F32 { bits: b, .. }) => if *a < *b { -1 } else if *a == *b { 0 } else { 1 },
            (Field::F64(a), Field::F64(b)) => if *a < *b { -1 } else if *a == *b { 0 } else { 1 },
            (Field::I8(a), Field::I8(b)) => if *a < *b { -1 } else if *a == *b { 0 } else { 1 },
            (Field::I16(a), Field::I16(b)) => if *a < *b { -1 } else if *a == *b { 0 } else { 1 },
            (Field::I32(a), Field::I32(b)) => if *a < *b { -1 } else if *a == *b { 0 } else { 1 },
            (Field::I64(a), Field::I64(b)) => if *a < *b { -1 } else if *a == *b { 0 } else { 1 },
            (Field::U8(a), Field::U8(b)) => if *a < *b { -1 } else if *a == *b { 0 } else { 1 },
            (Field::U16(a), Field::U16(b)) => if *a < *b { -1 } else if *a == *b { 0 } else { 1 },
            (Field::U32(a), Field::U32(b)) => if *a < *b { -1 } else if *a == *b { 0 } else { 1 },
            (Field::U64(a), Field::U64(b)) => if *a < *b { -1 } else if *a == *b { 0 } else { 1 },
            (Field::Bool(a), Field::Bool(b)) => if !*a && *b { -1 } else if *a == *b { 0 } else { 1 },
            _ => 0,
        }
    }
}

} // verus!

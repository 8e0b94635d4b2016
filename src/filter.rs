use crate::field::Field;
use crate::schema::SchemaOne;
use crate::signature::Signature;
use crate::text::lower_of;
use vstd::prelude::*;

verus! {

/// A query: a label, and for each field position a value to match or `None`
/// for any value.
#[derive(Clone, Debug, PartialEq, Eq)]
pub struct Filter {
    record: String,
    args: Vec<Option<Field>>,
}

/// `w` is the filter value kept for the value `v` given by the caller: the same
/// wildcard, or the value in its widest form.
pub open spec fn widened_value(v: Option<Field>, w: Option<Field>) -> bool {
    match v {
        None => w is None,
        Some(f) => w matches Some(g) && g.key() == f.canonical() && g.wide_kind() == f.upcast_kind() && g.wf() && !(
        g is UStr),
    }
}

/// `w` is the value `v` of a filter once applied to a position declared with
/// kind `k`: a case-sensitive string at a case-insensitive position becomes a
/// case-insensitive one; anything else stays.
pub open spec fn applied_value(v: Option<Field>, k: Signature, w: Option<Field>) -> bool {
    match v {
        Some(Field::IStr(s)) if k == Signature::UStr => w matches Some(Field::UStr { original, lower }) && original@ == s@
            && lower@ == lower_of(s@),
        _ => w == v,
    }
}

/// The values `ws` are the values `vs` applied to kinds `ks`; positions past
/// the end of `ks` stay.
pub open spec fn applied(vs: Seq<Option<Field>>, ks: Seq<Signature>, ws: Seq<Option<Field>>) -> bool {
    &&& ws.len() == vs.len()
    &&& forall|i: int| 0 <= i < vs.len() ==> if i < ks.len() {
        applied_value(vs[i], ks[i], #[trigger] ws[i])
    } else {
        ws[i] == vs[i]
    }
}

impl Filter {
    /// A filter on `record` with the given values, each kept in its widest form.
    pub fn new(record: String, args: &[Option<Field>]) -> (r: Filter)
        ensures
            r.label_view() == record@,
            r.values().len() == args@.len(),
            forall|i: int| 0 <= i < args@.len() ==> widened_value(args@[i], #[trigger] r.values()[i]),
    {
        let mut vals: Vec<Option<Field>> = Vec::new();
        let mut i: usize = 0;
        while i < args.len()
            invariant
                0 <= i <= args@.len(),
                vals@.len() == i,
                forall|j: int| 0 <= j < i ==> widened_value(args@[j], #[trigger] vals@[j]),
            decreases args@.len() - i,
        {
            let v = match &args[i] {
                Some(f) => Some(f.upcast()),
                None => None,
            };
            vals.push(v);
            i = i + 1;
        }
        Filter { record, args: vals }
    }

    /// Reads every case-sensitive string at a position that `schema` declares
    /// case-insensitive as a case-insensitive one.
    ///
    /// A value of another kind at such a position stays as it is; the shape
    /// check that follows then reports the filter as a mismatch, rather than
    /// this call failing.
    pub fn apply(&mut self, schema: &SchemaOne)
        ensures
            final(self).label_view() == old(self).label_view(),
            applied(old(self).values(), schema.kinds(), final(self).values()),
    {
        let kinds = schema.sig();
        let mut rest: Vec<Option<Field>> = Vec::new();
        std::mem::swap(&mut rest, &mut self.args);
        let ghost orig = rest@;
        let mut vals: Vec<Option<Field>> = Vec::new();
        let mut i: usize = 0;
        let n = rest.len();
        while i < n
            invariant
                0 <= i <= n,
                n == orig.len(),
                rest@ == orig.subrange(i as int, n as int),
                kinds@ == schema.kinds(),
                vals@.len() == i,
                forall|j: int| 0 <= j < i ==> if j < kinds@.len() {
                    applied_value(orig[j], kinds@[j], #[trigger] vals@[j])
                } else {
                    vals@[j] == orig[j]
                },
            decreases n - i,
        {
            let v = rest.remove(0);
            assert(v == orig[i as int]);
            let w = match v {
                Some(Field::IStr(s)) => if i < kinds.len() && kinds[i] == Signature::UStr {
                    Some(Field::folded(s.as_str()))
                } else {
                    Some(Field::IStr(s))
                },
                other => other,
            };
            vals.push(w);
            i = i + 1;
        }
        self.args = vals;
    }
}

impl Filter {
    pub closed spec fn values(&self) -> Seq<Option<Field>> {
        self.args@
    }

    pub closed spec fn label_view(&self) -> Seq<char> {
        self.record@
    }

    /// The value or wildcard of each position.
    pub fn args(&self) -> (r: &[Option<Field>])
        ensures
            r@ == self.values(),
    {
        self.args.as_slice()
    }

    /// The label queried.
    pub fn record(&self) -> (r: &str)
        ensures
            r@ == self.label_view(),
    {
        self.record.as_str()
    }
}

} // verus!

use crate::field::Field;
use crate::text::same_text;
use vstd::prelude::*;

verus! {

/// One typed entry of a label, with the place where it was written.
#[derive(Clone, Debug)]
pub struct Record {
    label: String,
    location: String,
    line: u32,
    args: Vec<Field>,
}

impl Record {
    pub closed spec fn label_view(&self) -> Seq<char> {
        self.label@
    }

    pub closed spec fn location_view(&self) -> Seq<char> {
        self.location@
    }

    pub closed spec fn line_view(&self) -> u32 {
        self.line
    }

    pub closed spec fn fields(&self) -> Seq<Field> {
        self.args@
    }

    /// A record of `label` with fields `args`, written at `location`, `line`.
    pub fn new(label: String, location: String, line: u32, args: Vec<Field>) -> (r: Record)
        ensures
            r.label_view() == label@,
            r.location_view() == location@,
            r.line_view() == line,
            r.fields() == args@,
    {
        Record { label, location, line, args }
    }

    /// The label.
    pub fn label(&self) -> (r: &str)
        ensures
            r@ == self.label_view(),
    {
        self.label.as_str()
    }

    /// The fields, in order.
    pub fn args(&self) -> (r: &[Field])
        ensures
            r@ == self.fields(),
    {
        self.args.as_slice()
    }

    /// The location where the record was written.
    pub fn location(&self) -> (r: &str)
        ensures
            r@ == self.location_view(),
    {
        self.location.as_str()
    }

    /// The line where the record was written.
    pub fn line(&self) -> (r: u32)
        ensures
            r == self.line_view(),
    {
        self.line
    }
}

/// Two records are equal when their labels, places and the values of their
/// fields, position by position, are equal.
pub open spec fn same_record(a: Record, b: Record) -> bool {
    &&& a.label_view() == b.label_view()
    &&& a.location_view() == b.location_view()
    &&& a.line_view() == b.line_view()
    &&& a.fields().len() == b.fields().len()
    &&& forall|i: int| 0 <= i < a.fields().len() ==> (#[trigger] a.fields()[i]).key() == b.fields()[i].key()
}

impl PartialEq for Record {
    fn eq(&self, other: &Record) -> (r: bool) {
        if !same_text(self.label.as_str(), other.label.as_str()) || !same_text(self.location.as_str(), other.location.as_str())
            || self.line != other.line || self.args.len() != other.args.len() {
            return false;
        }
        let mut i: usize = 0;
        while i < self.args.len()
            invariant
                0 <= i <= self.args@.len(),
                self.args@.len() == other.args@.len(),
                forall|j: int| 0 <= j < i ==> (#[trigger] self.args@[j]).key() == other.args@[j].key(),
            decreases self.args@.len() - i,
        {
            if !self.args[i].same(&other.args[i]) {
                return false;
            }
            i = i + 1;
        }
        true
    }
}

impl vstd::std_specs::cmp::PartialEqSpecImpl for Record {
    open spec fn obeys_eq_spec() -> bool {
        true
    }

    open spec fn eq_spec(&self, other: &Record) -> bool {
        same_record(*self, *other)
    }
}

impl Eq for Record {
}

} // verus!

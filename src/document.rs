use crate::error::Error;
use crate::filter::Filter;
use crate::record::Record;
use crate::recordset::{entry_stored, find_one_post, find_post, from_entries, record_error, RecordSet};
use crate::schema::{declares, definition_error, definition_ok, Schema, SchemaOne};
use crate::signature::FloatSyntax;
use crate::text::same_text;
use vstd::prelude::*;

verus! {

/// The definitions `defs` are those that the definition stream `es` declares,
/// in order.
pub open spec fn declared_by(defs: Seq<SchemaOne>, es: Seq<(String, u32, String, Vec<String>)>) -> bool {
    &&& defs.len() == es.len()
    &&& forall|i: int| 0 <= i < es.len() ==> declares(#[trigger] defs[i], es[i])
}

/// The definition stream `es` is accepted as a whole.
pub open spec fn definitions_ok(es: Seq<(String, u32, String, Vec<String>)>) -> bool {
    forall|i: int| 0 <= i < es.len() ==> definition_ok(es, i)
}

/// A loaded document: the store of every defined label.
#[derive(Debug)]
pub struct Document(Vec<RecordSet>);

impl Document {
    pub closed spec fn stores(&self) -> Seq<RecordSet> {
        self.0@
    }

    /// The definition of each store, in order.
    pub open spec fn definitions(&self) -> Seq<SchemaOne> {
        Seq::new(self.stores().len(), |i: int| self.stores()[i].definition())
    }

    /// Every store is well formed.
    pub open spec fn wf(&self) -> bool {
        forall|i: int| 0 <= i < self.stores().len() ==> (#[trigger] self.stores()[i]).wf()
    }

    /// Store `i` is the store of label `l`.
    pub open spec fn store_of(&self, l: Seq<char>, i: int) -> bool {
        &&& 0 <= i < self.stores().len()
        &&& self.stores()[i].definition().label_view() == l
        &&& forall|j: int| 0 <= j < i ==> (#[trigger] self.stores()[j]).definition().label_view() != l
    }

    /// Builds a document from its two streams: the definitions, then the
    /// records, typed against them. The first failure ends the load.
    pub fn from_streams<F: FloatSyntax>(
        schema: Vec<(String, u32, String, Vec<String>)>,
        records: Vec<(String, u32, String, Vec<String>)>,
        floats: &F,
    ) -> (r: Result<Document, Error>)
        ensures
            match r {
                Ok(doc) => {
                    &&& doc.wf()
                    &&& definitions_ok(schema@)
                    &&& declared_by(doc.definitions(), schema@)
                    &&& forall|i: int, x: Record| 0 <= i < doc.stores().len() && #[trigger] doc.stores()[i].stored(x) ==> from_entries(
                        records@,
                        records@.len() as int,
                        doc.definitions()[i],
                        x,
                    )
                    &&& forall|k: int| 0 <= k < records@.len() ==> entry_stored(doc.stores(), #[trigger] records@[k], doc.definitions())
                },
                Err(e) => {
                    ||| exists|i: int|
                        0 <= i < schema@.len() && !definition_ok(schema@, i) && definition_error(e, schema@, i) && forall|j: int|
                            0 <= j < i ==> definition_ok(schema@, j)
                    ||| definitions_ok(schema@) && exists|defs: Seq<SchemaOne>, k: int|
                        declared_by(defs, schema@) && 0 <= k < records@.len() && #[trigger] record_error(e, records@, k, defs)
                },
            },
    {
        let s = match Schema::parse(schema) {
            Ok(s) => s,
            Err(e) => return Err(e),
        };
        let ghost defs = s.defs();
        match RecordSet::parse(s, records, floats) {
            Ok(sets) => {
                let doc = Document(sets);
                assert(doc.definitions() =~= defs);
                Ok(doc)
            },
            Err(e) => {
                let ghost k = choose|k: int| 0 <= k < records@.len() && record_error(e, records@, k, defs);
                assert(declared_by(defs, schema@) && 0 <= k < records@.len() && record_error(e, records@, k, defs));
                Err(e)
            },
        }
    }

    fn lookup(&self, label: &str) -> (r: Option<usize>)
        ensures
            match r {
                Some(i) => self.store_of(label@, i as int),
                None => forall|j: int| 0 <= j < self.stores().len() ==> (#[trigger] self.stores()[j]).definition().label_view() != label@,
            },
    {
        let mut i: usize = 0;
        while i < self.0.len()
            invariant
                0 <= i <= self.0@.len(),
                forall|j: int| 0 <= j < i ==> (#[trigger] self.stores()[j]).definition().label_view() != label@,
            decreases self.0@.len() - i,
        {
            if same_text(self.0[i].schema().label(), label) {
                return Some(i);
            }
            i = i + 1;
        }
        None
    }

    /// Every record that matches `filter`, in no particular order.
    pub fn find(&self, filter: Filter) -> (r: Result<Vec<&Record>, Error>)
        requires
            self.wf(),
        ensures
            match r {
                Err(Error::NoDefinition { label }) => label@ == filter.label_view() && forall|j: int|
                    0 <= j < self.stores().len() ==> (#[trigger] self.stores()[j]).definition().label_view() != filter.label_view(),
                _ => exists|i: int| self.store_of(filter.label_view(), i) && find_post(self.stores()[i], filter, r),
            },
    {
        match self.lookup(filter.record()) {
            Some(i) => self.0[i].find(filter),
            None => Err(Error::NoDefinition { label: filter.record().to_owned() }),
        }
    }

    /// One record that matches `filter`, if any does.
    pub fn find_one(&self, filter: Filter) -> (r: Result<Option<&Record>, Error>)
        requires
            self.wf(),
        ensures
            match r {
                Err(Error::NoDefinition { label }) => label@ == filter.label_view() && forall|j: int|
                    0 <= j < self.stores().len() ==> (#[trigger] self.stores()[j]).definition().label_view() != filter.label_view(),
                _ => exists|i: int| self.store_of(filter.label_view(), i) && find_one_post(self.stores()[i], filter, r),
            },
    {
        match self.lookup(filter.record()) {
            Some(i) => self.0[i].find_one(filter),
            None => Err(Error::NoDefinition { label: filter.record().to_owned() }),
        }
    }
}

} // verus!

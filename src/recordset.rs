use crate::error::{Error, ParseError};
use crate::field::{Field, Key};
use crate::filter::{applied, Filter};
use crate::record::Record;
use crate::schema::{fits, readable, typed, Schema, SchemaOne};
use crate::signature::{is_float, type_error_at, typed_key};
use crate::signature::FloatSyntax;
use crate::text::same_text;
use crate::signature::Signature;
use crate::tree::{key_path, lemma_found_iff_path, path_matches, single_paths, RecordTree};
use vstd::prelude::*;

verus! {

/// The key by which a field of kind `k` is indexed: the lower-cased form of a
/// case-insensitive string, the widest form of anything else.
///
/// A case-insensitive position is keyed by the lower-cased form, not by the
/// widest form (a case-sensitive string with the text as written), so that a
/// query matches it without regard to case, and `joe` and `JOE` are the same
/// key: two such records of one label are duplicates.
pub open spec fn index_key(f: Field, k: Signature) -> Key {
    if k == Signature::UStr {
        f.key()
    } else {
        f.canonical()
    }
}

/// The keys by which a record with fields `args` of kinds `ks` is indexed.
pub open spec fn record_path(args: Seq<Field>, ks: Seq<Signature>) -> Seq<Key> {
    Seq::new(args.len(), |i: int| index_key(args[i], ks[i]))
}

/// Putting `rec` into the store `s` gave the store `t` and handed back `ret`:
/// `rec` now stands at its path, in place of what stood there, which is `ret`.
pub open spec fn put_post(s: RecordSet, rec: Record, t: RecordSet, ret: Option<Record>) -> bool {
    let p = record_path(rec.fields(), s.kinds());
    &&& t.kinds() == s.kinds()
    &&& t.wf()
    &&& forall|x: Record| #[trigger] t.stored(x) <==> (x == rec || (s.stored(x) && record_path(x.fields(), s.kinds()) != p))
    &&& match ret {
        Some(y) => s.stored(y) && record_path(y.fields(), s.kinds()) == p,
        None => forall|y: Record| #[trigger] s.stored(y) ==> record_path(y.fields(), s.kinds()) != p,
    }
}

/// Record `x` is an answer of store `s` to a filter whose values, once applied
/// to the store's definition, are `vs`.
pub open spec fn answers(s: RecordSet, vs: Seq<Option<Field>>, x: Record) -> bool {
    s.stored(x) && path_matches(record_path(x.fields(), s.kinds()), vs, 0)
}

/// `r` is what querying the store `s` for all matches of `filter` gives.
pub open spec fn find_post<'a>(s: RecordSet, filter: Filter, r: Result<Vec<&'a Record>, Error>) -> bool {
    &&& exists|vs: Seq<Option<Field>>| {
        &&& applied(filter.values(), s.kinds(), vs)
        &&& (r is Ok <==> fits(s.kinds(), vs))
        &&& r matches Ok(v) ==> v@.no_duplicates() && forall|x: Record| v@.contains(&x) <==> answers(s, vs, x)
    }
    &&& r matches Err(e) ==> mismatch_of(e, s)
}

/// `e` reports a filter that does not fit the store `s`, and carries a copy of
/// its definition.
pub open spec fn mismatch_of(e: Error, s: RecordSet) -> bool {
    match e {
        Error::FilterMismatch { expected, .. } => {
            &&& expected.label_view() == s.definition().label_view()
            &&& expected.location_view() == s.definition().location_view()
            &&& expected.line_view() == s.definition().line_view()
            &&& expected.kinds() == s.kinds()
        },
        _ => false,
    }
}

/// `r` is what querying the store `s` for one match of `filter` gives.
pub open spec fn find_one_post<'a>(s: RecordSet, filter: Filter, r: Result<Option<&'a Record>, Error>) -> bool {
    &&& exists|vs: Seq<Option<Field>>| {
        &&& applied(filter.values(), s.kinds(), vs)
        &&& (r is Ok <==> fits(s.kinds(), vs))
        &&& r matches Ok(o) ==> match o {
            Some(x) => answers(s, vs, *x),
            None => forall|x: Record| !answers(s, vs, x),
        }
    }
    &&& r matches Err(e) ==> mismatch_of(e, s)
}

/// Every record of one label, indexed field by field.
#[derive(Debug)]
pub struct RecordSet {
    tree: RecordTree,
    schema: SchemaOne,
}

impl RecordSet {
    pub closed spec fn kinds(self) -> Seq<Signature> {
        self.schema.kinds()
    }

    pub closed spec fn definition(self) -> SchemaOne {
        self.schema
    }

    /// Record `x` is in the store.
    pub closed spec fn stored(self, x: Record) -> bool {
        self.tree.holds(record_path(x.fields(), self.kinds()), x)
    }

    /// The index has one level per field, and each record stands at the path
    /// of its own fields' keys.
    pub closed spec fn wf(self) -> bool {
        &&& self.tree.wf(self.kinds().len())
        &&& forall|p: Seq<Key>, x: Record| #[trigger] self.tree.holds(p, x) ==> p == record_path(x.fields(), self.kinds())
            && x.fields().len() == self.kinds().len()
    }

    /// An empty store for the records of `schema`.
    pub fn new(schema: SchemaOne) -> (r: RecordSet)
        ensures
            r.wf(),
            r.definition() == schema,
            forall|x: Record| !r.stored(x),
    {
        RecordSet { tree: RecordTree::Void, schema }
    }

    /// The definition of the stored label.
    pub fn schema(&self) -> (r: &SchemaOne)
        ensures
            *r == self.definition(),
            r.kinds() == self.kinds(),
    {
        &self.schema
    }

    /// Puts `record` into the store; hands back the record with the same keys
    /// that it replaces, if any.
    pub fn put(&mut self, record: Record) -> (r: Option<Record>)
        requires
            old(self).wf(),
            record.fields().len() == old(self).kinds().len(),
        ensures
            put_post(*old(self), record, *final(self), r),
            final(self).definition() == old(self).definition(),
    {
        let args = record.args();
        let kinds = self.schema.sig();
        let mut keys: Vec<Field> = Vec::new();
        let mut i: usize = 0;
        while i < args.len()
            invariant
                0 <= i <= args@.len(),
                args@ == record.fields(),
                kinds@ == self.kinds(),
                args@.len() == kinds@.len(),
                keys@.len() == i,
                forall|j: int| 0 <= j < i ==> (#[trigger] keys@[j]).key() == index_key(args@[j], kinds@[j]),
            decreases args@.len() - i,
        {
            let k = if kinds[i] == Signature::UStr {
                args[i].copy()
            } else {
                args[i].upcast()
            };
            keys.push(k);
            i = i + 1;
        }
        let ghost p = record_path(record.fields(), self.kinds());
        assert(key_path(keys@, 0) =~= p);
        let ghost before = *self;
        let mut t = RecordTree::Void;
        std::mem::swap(&mut t, &mut self.tree);
        let (t2, prev) = t.put(keys.as_slice(), 0, record);
        self.tree = t2;
        assert forall|x: Record| #[trigger] self.stored(x) <==> (x == record || (before.stored(x) && record_path(x.fields(), before.kinds()) != p)) by {
            let q = record_path(x.fields(), self.kinds());
            if before.stored(x) && q == p {
                assert(before.tree.holds(q, x));
            }
        }
        assert forall|q: Seq<Key>, x: Record| #[trigger] self.tree.holds(q, x) implies q == record_path(x.fields(), self.kinds())
            && x.fields().len() == self.kinds().len() by {
            if q != p {
                assert(before.tree.holds(q, x));
            }
        }
        proof {
            match &prev {
                Some(y) => {
                    assert(before.tree.holds(p, *y));
                },
                None => {
                    assert forall|y: Record| #[trigger] before.stored(y) implies record_path(y.fields(), before.kinds()) != p by {
                        if record_path(y.fields(), before.kinds()) == p {
                            assert(before.tree.holds(p, y));
                        }
                    }
                },
            }
        }
        prev
    }

    /// Every stored record that matches `filter`, in no particular order.
    pub fn find(&self, filter: Filter) -> (r: Result<Vec<&Record>, Error>)
        requires
            self.wf(),
        ensures
            find_post(*self, filter, r),
    {
        let mut filter = filter;
        filter.apply(&self.schema);
        if !self.schema.match_filter(&filter) {
            return Err(Error::FilterMismatch { expected: Box::new(self.schema.copy()), got: filter });
        }
        let vs = filter.args();
        assert(single_paths(self.tree));
        let r = self.tree.find(vs, 0);
        proof {
            self.lemma_answers(vs@);
        }
        Ok(r)
    }

    /// One stored record that matches `filter`, if any does.
    pub fn find_one(&self, filter: Filter) -> (r: Result<Option<&Record>, Error>)
        requires
            self.wf(),
        ensures
            find_one_post(*self, filter, r),
    {
        let mut filter = filter;
        filter.apply(&self.schema);
        if !self.schema.match_filter(&filter) {
            return Err(Error::FilterMismatch { expected: Box::new(self.schema.copy()), got: filter });
        }
        let vs = filter.args();
        let r = self.tree.find_one(vs, 0);
        proof {
            self.lemma_answers(vs@);
        }
        Ok(r)
    }

    /// The kinds of a store are those of its definition.
    pub proof fn lemma_kinds_of_definition(self)
        ensures
            self.kinds() == self.definition().kinds(),
    {
    }

    /// A stored record has one field per kind of the definition.
    pub proof fn lemma_stored_arity(self, x: Record)
        requires
            self.wf(),
            self.stored(x),
        ensures
            x.fields().len() == self.kinds().len(),
    {
    }

    proof fn lemma_answers(self, vs: Seq<Option<Field>>)
        requires
            self.wf(),
            fits(self.kinds(), vs),
        ensures
            forall|x: Record| self.tree.found(vs, 0, x) <==> answers(self, vs, x),
    {
        assert forall|x: Record| self.tree.found(vs, 0, x) <==> answers(self, vs, x) by {
            lemma_found_iff_path(self.tree, vs, 0, x);
            if self.tree.found(vs, 0, x) {
                let p = choose|p: Seq<Key>| #[trigger] self.tree.holds(p, x) && path_matches(p, vs, 0);
                assert(p == record_path(x.fields(), self.kinds()));
            }
            if answers(self, vs, x) {
                assert(self.tree.holds(record_path(x.fields(), self.kinds()), x));
            }
        }
    }
}

/// Record `x` is what the record entry `e` gives under definition `d`.
pub open spec fn built(e: (String, u32, String, Vec<String>), d: SchemaOne, x: Record) -> bool {
    &&& e.2@ == d.label_view()
    &&& x.label_view() == e.2@
    &&& x.location_view() == e.0@
    &&& x.line_view() == e.1
    &&& x.fields().len() == e.3@.len()
    &&& x.fields().len() == d.kinds().len()
    &&& forall|j: int| 0 <= j < x.fields().len() ==> typed(#[trigger] x.fields()[j], d.kinds()[j], e.3@[j]@)
}

/// `e` is reported at the place where entry `en` was written.
pub open spec fn at_entry(e: Error, en: (String, u32, String, Vec<String>)) -> bool {
    e matches Error::ParseError { location, line, .. } && location@ == en.0@ && line == en.1
}

/// No two definitions share a label.
pub open spec fn labels_unique(defs: Seq<SchemaOne>) -> bool {
    forall|i: int, j: int| 0 <= i < j < defs.len() ==> (#[trigger] defs[i]).label_view() != (#[trigger] defs[j]).label_view()
}

/// Definition `i` of `defs` is that of label `l`.
pub open spec fn defines(defs: Seq<SchemaOne>, l: Seq<char>, i: int) -> bool {
    0 <= i < defs.len() && defs[i].label_view() == l
}

/// The definition of each store, in order.
pub open spec fn defs_of(sets: Seq<RecordSet>) -> Seq<SchemaOne> {
    Seq::new(sets.len(), |i: int| sets[i].definition())
}

/// The words of entry `en` are as many as the kinds of `d`, and each reads as
/// a value of its kind.
pub open spec fn fits_entry(en: (String, u32, String, Vec<String>), d: SchemaOne) -> bool {
    &&& en.3@.len() == d.kinds().len()
    &&& forall|t: int| 0 <= t < en.3@.len() ==> readable(d.kinds()[t], #[trigger] en.3@[t]@)
}

/// Entry `en` names a definition of `defs` and types against it.
pub open spec fn accepted(en: (String, u32, String, Vec<String>), defs: Seq<SchemaOne>) -> bool {
    exists|i: int| #[trigger] defines(defs, en.2@, i) && fits_entry(en, defs[i])
}

/// The widest key of the same family as `k`.
pub open spec fn widen(k: Key) -> Key {
    match k {
        Key::I8(v) => Key::I64(v as i64),
        Key::I16(v) => Key::I64(v as i64),
        Key::I32(v) => Key::I64(v as i64),
        Key::U8(v) => Key::U64(v as u64),
        Key::U16(v) => Key::U64(v as u64),
        Key::U32(v) => Key::U64(v as u64),
        _ => k,
    }
}

/// No kind of `d` is a float kind, so the text of an entry alone fixes its keys.
pub open spec fn no_float(d: SchemaOne) -> bool {
    forall|t: int| 0 <= t < d.kinds().len() ==> !is_float(#[trigger] d.kinds()[t])
}

/// The keys by which the entry `en` is indexed under `d`, read from its text.
pub open spec fn entry_path(en: (String, u32, String, Vec<String>), d: SchemaOne) -> Seq<Key> {
    Seq::new(
        en.3@.len(),
        |t: int|
            if d.kinds()[t] == Signature::UStr {
                typed_key(d.kinds()[t], en.3@[t]@)->Some_0
            } else {
                widen(typed_key(d.kinds()[t], en.3@[t]@)->Some_0)
            },
    )
}

/// Entries `a` and `b` of a label without float kinds have the same keys.
pub open spec fn keys_clash(a: (String, u32, String, Vec<String>), b: (String, u32, String, Vec<String>), defs: Seq<SchemaOne>) -> bool {
    exists|i: int| #[trigger] defines(defs, b.2@, i) && no_float(defs[i]) && entry_path(a, defs[i]) == entry_path(b, defs[i])
}

/// Each of the first `k` entries of `es` is accepted, and none repeats the
/// keys of an earlier entry of its label (where the text fixes the keys).
pub open spec fn prior_ok(es: Seq<(String, u32, String, Vec<String>)>, k: int, defs: Seq<SchemaOne>) -> bool {
    &&& forall|m: int| 0 <= m < k ==> accepted(#[trigger] es[m], defs)
    &&& forall|j: int, m: int| 0 <= j < m < k && (#[trigger] es[j]).2@ == (#[trigger] es[m]).2@ ==> !keys_clash(es[j], es[m], defs)
}

/// `prior_ok`, kept folded while loading.
#[verifier::opaque]
spec fn prior_ok_at(es: Seq<(String, u32, String, Vec<String>)>, k: int, defs: Seq<SchemaOne>) -> bool {
    prior_ok(es, k, defs)
}

/// `reason` is why the entry `en` does not type against `defs`: its label has
/// no definition; or its arity is wrong; or a word, the first that fails, is
/// not a value of its kind.
pub open spec fn typing_failure(reason: ParseError, en: (String, u32, String, Vec<String>), defs: Seq<SchemaOne>) -> bool {
    match reason {
        ParseError::NoDefinition { label } => label@ == en.2@ && forall|i: int|
            0 <= i < defs.len() ==> (#[trigger] defs[i]).label_view() != en.2@,
        ParseError::ArgumentLengthMismatch { expected, got } => exists|i: int|
            #[trigger] defines(defs, en.2@, i) && got as int == en.3@.len() && expected as int == defs[i].kinds().len() && got != expected,
        ParseError::TypeError { target, value, .. } => exists|i: int|
            #[trigger] defines(defs, en.2@, i) && en.3@.len() == defs[i].kinds().len() && exists|t: int|
                0 <= t < en.3@.len() && target == defs[i].kinds()[t] && value@ == #[trigger] en.3@[t]@ && (!is_float(target)
                    ==> typed_key(target, value@) is None) && forall|u: int| 0 <= u < t ==> readable(defs[i].kinds()[u], #[trigger] en.3@[u]@),
        _ => false,
    }
}

/// Entries `a` and `b` give records with the same keys under `d`.
pub open spec fn same_keys(a: (String, u32, String, Vec<String>), b: (String, u32, String, Vec<String>), d: SchemaOne) -> bool {
    exists|x: Record, y: Record| #[trigger] built(a, d, y) && #[trigger] built(b, d, x) && record_path(x.fields(), d.kinds()) == record_path(y.fields(), d.kinds())
}

/// `e` is what loading reports for record entry `k` of `es` under definitions
/// `defs`: every earlier entry was stored, and entry `k` fails to type, or
/// repeats the keys of an earlier entry `j` of its label, whose place it names.
pub open spec fn record_error(e: Error, es: Seq<(String, u32, String, Vec<String>)>, k: int, defs: Seq<SchemaOne>) -> bool {
    match e {
        Error::ParseError { location, line, reason } => {
            &&& location@ == es[k].0@
            &&& line == es[k].1
            &&& prior_ok(es, k, defs)
            &&& typing_failure(reason, es[k], defs) || match reason {
                ParseError::DuplicatedEntry { first_appear, line, label } => {
                    &&& label@ == es[k].2@
                    &&& accepted(es[k], defs)
                    &&& exists|j: int, i: int|
                        0 <= j < k && (#[trigger] es[j]).2@ == es[k].2@ && es[j].0@ == first_appear@ && es[j].1 == line
                            && #[trigger] defines(defs, es[k].2@, i) && same_keys(es[j], es[k], defs[i])
                },
                _ => false,
            }
        },
        _ => false,
    }
}

impl RecordSet {
    /// Types the record entries against `schema` and puts each into the store of
    /// its label. The first entry, in order, that has no definition, does not
    /// type, or repeats the fields of an earlier record of its label is
    /// reported.
    pub fn parse<F: FloatSyntax>(schema: Schema, entries: Vec<(String, u32, String, Vec<String>)>, floats: &F) -> (r: Result<
        Vec<RecordSet>,
        Error,
    >)
        requires
            labels_unique(schema.defs()),
        ensures
            match r {
                Ok(sets) => {
                    &&& sets@.len() == schema.defs().len()
                    &&& forall|i: int| 0 <= i < sets@.len() ==> (#[trigger] sets@[i]).definition() == schema.defs()[i] && sets@[i].wf()
                    &&& forall|i: int, x: Record| 0 <= i < sets@.len() && #[trigger] sets@[i].stored(x) ==> from_entries(
                        entries@,
                        entries@.len() as int,
                        schema.defs()[i],
                        x,
                    )
                    &&& forall|k: int| 0 <= k < entries@.len() ==> entry_stored(sets@, #[trigger] entries@[k], schema.defs())
                },
                Err(e) => exists|k: int| 0 <= k < entries@.len() && record_error(e, entries@, k, schema.defs()),
            },
    {
        let ghost defs = schema.defs();
        let mut sets = schema.as_template();
        let mut k: usize = 0;
        proof {
            reveal(sound);
            reveal(complete);
            reveal(prior_ok_at);
        }
        while k < entries.len()
            invariant
                0 <= k <= entries@.len(),
                defs == schema.defs(),
                sets@.len() == defs.len(),
                forall|j: int| 0 <= j < sets@.len() ==> (#[trigger] sets@[j]).definition() == defs[j] && sets@[j].wf(),
                sound(sets@, entries@, k as int, defs),
                complete(sets@, entries@, k as int, defs),
                prior_ok_at(entries@, k as int, defs),
                labels_unique(defs),
            decreases entries@.len() - k,
        {
            let ghost old_sets = sets@;
            match store_entry(&mut sets, &entries[k], floats) {
                Ok(()) => {
                    proof {
                        reveal(prior_ok_at);
                        lemma_prior_step(old_sets, entries@, k as int, defs);
                        lemma_stored_sound(old_sets, sets@, entries@, k as int, defs);
                        lemma_stored_complete(old_sets, sets@, entries@, k as int, defs);
                    }
                },
                Err(err) => {
                    proof {
                        reveal(prior_ok_at);
                        lemma_error_step(old_sets, entries@, k as int, defs, err);
                    }
                    return Err(err);
                },
            }
            k = k + 1;
        }
        proof {
            lemma_loaded_done(sets@, entries@, defs);
        }
        Ok(sets)
    }
}

/// `e` reports a record with the fields of the earlier record `y`.
pub open spec fn dup_of(e: Error, y: Record) -> bool {
    e matches Error::ParseError { reason: ParseError::DuplicatedEntry { first_appear, line, .. }, .. }
        && y.location_view() == first_appear@ && y.line_view() == line
}

/// `e` is what storing the record entry `en` into `sets` reports: `en` fails
/// to type, or repeats the keys of a stored record `y` of its label, whose
/// place it names.
pub open spec fn entry_error(e: Error, en: (String, u32, String, Vec<String>), sets: Seq<RecordSet>) -> bool {
    match e {
        Error::ParseError { location, line, reason } => {
            &&& location@ == en.0@
            &&& line == en.1
            &&& typing_failure(reason, en, defs_of(sets)) || match reason {
                ParseError::DuplicatedEntry { label, .. } => {
                    &&& label@ == en.2@
                    &&& accepted(en, defs_of(sets))
                    &&& exists|i: int, y: Record, x: Record|
                        #[trigger] defines(defs_of(sets), en.2@, i) && #[trigger] sets[i].stored(y) && #[trigger] built(en, sets[i].definition(), x)
                            && record_path(x.fields(), sets[i].kinds()) == record_path(y.fields(), sets[i].kinds()) && dup_of(e, y)
                },
                _ => false,
            }
        },
        _ => false,
    }
}

/// Types the record entry `e` and puts it into the store of its label.
fn store_entry<F: FloatSyntax>(sets: &mut Vec<RecordSet>, e: &(String, u32, String, Vec<String>), floats: &F) -> (r: Result<(), Error>)
    requires
        forall|j: int| 0 <= j < old(sets)@.len() ==> (#[trigger] old(sets)@[j]).wf(),
    ensures
        final(sets)@.len() == old(sets)@.len(),
        forall|j: int| 0 <= j < final(sets)@.len() ==> (#[trigger] final(sets)@[j]).definition() == old(sets)@[j].definition() && final(sets)@[j].wf(),
        match r {
            Ok(()) => {
                &&& forall|j: int, x: Record| 0 <= j < final(sets)@.len() && #[trigger] final(sets)@[j].stored(x) ==> old(sets)@[j].stored(x) || built(*e, old(sets)@[j].definition(), x)
                &&& forall|j: int, x: Record| 0 <= j < final(sets)@.len() && #[trigger] old(sets)@[j].stored(x) ==> final(sets)@[j].stored(x)
                &&& exists|j: int, x: Record| 0 <= j < final(sets)@.len() && #[trigger] final(sets)@[j].stored(x) && built(*e, old(sets)@[j].definition(), x)
                &&& accepted(*e, defs_of(old(sets)@))
                &&& exists|i: int, x: Record|
                    #[trigger] defines(defs_of(old(sets)@), e.2@, i) && #[trigger] built(*e, old(sets)@[i].definition(), x) && forall|y: Record|
                        #[trigger] old(sets)@[i].stored(y) ==> record_path(y.fields(), old(sets)@[i].kinds()) != record_path(x.fields(), old(sets)@[i].kinds())
            },
            Err(err) => entry_error(err, *e, old(sets)@),
        },
{
    let ghost defs = defs_of(sets@);
    let mut i: usize = 0;
    while i < sets.len()
        invariant
            0 <= i <= sets@.len(),
            forall|j: int| 0 <= j < i ==> (#[trigger] sets@[j]).definition().label_view() != e.2@,
        ensures
            0 <= i <= sets@.len(),
            forall|j: int| 0 <= j < i ==> (#[trigger] sets@[j]).definition().label_view() != e.2@,
            i < sets@.len() ==> sets@[i as int].definition().label_view() == e.2@,
        decreases sets@.len() - i,
    {
        if same_text(sets[i].schema().label(), e.2.as_str()) {
            break;
        }
        i = i + 1;
    }
    if i == sets.len() {
        let err = Error::ParseError { location: e.0.clone(), line: e.1, reason: ParseError::NoDefinition { label: e.2.clone() } };
        assert forall|j: int| 0 <= j < defs.len() implies (#[trigger] defs[j]).label_view() != e.2@ by {
            assert(defs[j] == sets@[j].definition());
        }
        return Err(err);
    }
    assert(defines(defs, e.2@, i as int));
    let ghost d = sets@[i as int].definition();
    assert(defs[i as int] == d);
    // Both lengths are read here so that the proof knows they fit a `usize`.
    let _nargs: usize = e.3.len();
    let _nkinds: usize = sets[i].schema().sig().len();
    let fields = match sets[i].schema().parse(&e.3, e.0.as_str(), e.1, floats) {
        Ok(v) => v,
        Err(err) => {
            let reason = match err {
                Error::ParseError { reason, .. } => reason,
                _ => ParseError::ArgumentLengthMismatch { expected: 0, got: 0 },
            };
            let ghost gr = reason;
            let err2 = Error::ParseError { location: e.0.clone(), line: e.1, reason };
            proof {
                if e.3@.len() == d.kinds().len() {
                    let t = choose|t: int|
                        0 <= t < e.3@.len() && type_error_at(err, d.kinds()[t], e.3@[t]@, e.0@, e.1) && (!is_float(d.kinds()[t])
                            ==> typed_key(d.kinds()[t], e.3@[t]@) is None) && forall|u: int| 0 <= u < t ==> #[trigger] readable(d.kinds()[u], e.3@[u]@);
                    if let ParseError::TypeError { target, value, .. } = gr {
                        assert(target == d.kinds()[t] && value@ == e.3@[t]@);
                        assert(forall|u: int| 0 <= u < t ==> readable(defs[i as int].kinds()[u], #[trigger] e.3@[u]@));
                        assert(exists|t2: int|
                            0 <= t2 < e.3@.len() && target == defs[i as int].kinds()[t2] && value@ == #[trigger] e.3@[t2]@ && (!is_float(target)
                                ==> typed_key(target, value@) is None) && forall|u: int| 0 <= u < t2 ==> readable(defs[i as int].kinds()[u], #[trigger] e.3@[u]@));
                    }
                    assert(typing_failure(gr, *e, defs));
                } else {
                    assert(typing_failure(gr, *e, defs));
                }
            }
            return Err(err2);
        },
    };
    assert forall|t: int| 0 <= t < e.3@.len() implies readable(d.kinds()[t], #[trigger] e.3@[t]@) by {
        assert(typed(fields@[t], d.kinds()[t], e.3@[t]@));
    }
    assert(fits_entry(*e, defs[i as int]));
    assert(accepted(*e, defs));
    let rec = Record::new(e.2.clone(), e.0.clone(), e.1, fields);
    assert(built(*e, sets@[i as int].definition(), rec));
    let ghost old_sets = sets@;
    let mut set = sets.remove(i);
    let prev = set.put(rec);
    sets.insert(i, set);
    assert(sets@ == old_sets.update(i as int, set));
    match prev {
        Some(dup) => {
            let err = Error::ParseError {
                location: e.0.clone(),
                line: e.1,
                reason: ParseError::DuplicatedEntry { first_appear: dup.location().to_owned(), line: dup.line(), label: e.2.clone() },
            };
            assert(old_sets[i as int].stored(dup));
            assert(dup_of(err, dup));
            assert(defines(defs_of(old_sets), e.2@, i as int) && old_sets[i as int].stored(dup) && built(*e, old_sets[i as int].definition(), rec)
                && record_path(rec.fields(), old_sets[i as int].kinds()) == record_path(dup.fields(), old_sets[i as int].kinds()) && dup_of(err, dup));
            Err(err)
        },
        None => {
            assert(sets@[i as int].stored(rec));
            assert forall|j: int, x: Record| 0 <= j < sets@.len() && #[trigger] sets@[j].stored(x) implies old_sets[j].stored(x) || built(*e, old_sets[j].definition(), x) by {
                if j != i {
                    assert(sets@[j] == old_sets[j]);
                }
            }
            assert forall|j: int, x: Record| 0 <= j < sets@.len() && #[trigger] old_sets[j].stored(x) implies sets@[j].stored(x) by {
                if j != i {
                    assert(sets@[j] == old_sets[j]);
                }
            }
            assert(old_sets == old(sets)@);
            assert(built(*e, old_sets[i as int].definition(), rec));
            assert(exists|j: int, x: Record| 0 <= j < sets@.len() && #[trigger] sets@[j].stored(x) && built(*e, old_sets[j].definition(), x));
            assert(forall|y: Record| #[trigger] old_sets[i as int].stored(y) ==> record_path(y.fields(), old_sets[i as int].kinds()) != record_path(rec.fields(), old_sets[i as int].kinds()));
            Ok(())
        },
    }
}

/// Record `x` is what one of the first `k` entries of `es` gives under `d`.
pub open spec fn from_entries(es: Seq<(String, u32, String, Vec<String>)>, k: int, d: SchemaOne, x: Record) -> bool {
    exists|m: int| 0 <= m < k && built(#[trigger] es[m], d, x)
}

/// Some store of `sets`, whose definitions are `defs`, holds what entry `e`
/// gives.
pub open spec fn entry_stored(sets: Seq<RecordSet>, e: (String, u32, String, Vec<String>), defs: Seq<SchemaOne>) -> bool {
    exists|j: int, x: Record| 0 <= j < sets.len() && #[trigger] sets[j].stored(x) && built(e, defs[j], x)
}

/// Every record in `sets` comes from one of the first `k` entries of `es`.
#[verifier::opaque]
pub open spec fn sound(sets: Seq<RecordSet>, es: Seq<(String, u32, String, Vec<String>)>, k: int, defs: Seq<SchemaOne>) -> bool {
    forall|j: int, x: Record| 0 <= j < sets.len() && #[trigger] sets[j].stored(x) ==> from_entries(es, k, defs[j], x)
}

/// Each of the first `k` entries of `es` is held in `sets`.
#[verifier::opaque]
pub open spec fn complete(sets: Seq<RecordSet>, es: Seq<(String, u32, String, Vec<String>)>, k: int, defs: Seq<SchemaOne>) -> bool {
    forall|m: int| 0 <= m < k ==> entry_stored(sets, #[trigger] es[m], defs)
}

proof fn lemma_stored_sound(
    old_sets: Seq<RecordSet>,
    sets: Seq<RecordSet>,
    es: Seq<(String, u32, String, Vec<String>)>,
    k: int,
    defs: Seq<SchemaOne>,
)
    requires
        0 <= k < es.len(),
        sets.len() == old_sets.len(),
        old_sets.len() == defs.len(),
        forall|j: int| 0 <= j < sets.len() ==> (#[trigger] old_sets[j]).definition() == defs[j],
        sound(old_sets, es, k, defs),
        forall|j: int, x: Record| 0 <= j < sets.len() && #[trigger] sets[j].stored(x) ==> old_sets[j].stored(x) || built(es[k], old_sets[j].definition(), x),
    ensures
        sound(sets, es, k + 1, defs),
{
    reveal(sound);
    assert forall|j: int, x: Record| 0 <= j < sets.len() && #[trigger] sets[j].stored(x) implies from_entries(es, k + 1, defs[j], x) by {
        if old_sets[j].stored(x) {
            let m = choose|m: int| 0 <= m < k && built(#[trigger] es[m], defs[j], x);
            assert(0 <= m < k + 1 && built(es[m], defs[j], x));
        } else {
            assert(0 <= k < k + 1 && built(es[k], defs[j], x));
        }
    }
}

proof fn lemma_stored_complete(
    old_sets: Seq<RecordSet>,
    sets: Seq<RecordSet>,
    es: Seq<(String, u32, String, Vec<String>)>,
    k: int,
    defs: Seq<SchemaOne>,
)
    requires
        0 <= k < es.len(),
        sets.len() == old_sets.len(),
        old_sets.len() == defs.len(),
        forall|j: int| 0 <= j < sets.len() ==> (#[trigger] old_sets[j]).definition() == defs[j],
        complete(old_sets, es, k, defs),
        forall|j: int, x: Record| 0 <= j < sets.len() && #[trigger] old_sets[j].stored(x) ==> sets[j].stored(x),
        exists|j: int, x: Record| 0 <= j < sets.len() && #[trigger] sets[j].stored(x) && built(es[k], old_sets[j].definition(), x),
    ensures
        complete(sets, es, k + 1, defs),
{
    reveal(complete);
    assert forall|m: int| 0 <= m < k + 1 implies entry_stored(sets, #[trigger] es[m], defs) by {
        if m < k {
            assert(entry_stored(old_sets, es[m], defs));
            let (j, x) = choose|j: int, x: Record| 0 <= j < old_sets.len() && #[trigger] old_sets[j].stored(x) && built(es[m], defs[j], x);
            assert(sets[j].stored(x));
        } else {
            let (j, x) = choose|j: int, x: Record| 0 <= j < sets.len() && #[trigger] sets[j].stored(x) && built(es[k], old_sets[j].definition(), x);
            assert(built(es[m], defs[j], x));
        }
    }
}

proof fn lemma_loaded_done(sets: Seq<RecordSet>, es: Seq<(String, u32, String, Vec<String>)>, defs: Seq<SchemaOne>)
    requires
        sound(sets, es, es.len() as int, defs),
        complete(sets, es, es.len() as int, defs),
    ensures
        forall|i: int, x: Record| 0 <= i < sets.len() && #[trigger] sets[i].stored(x) ==> from_entries(es, es.len() as int, defs[i], x),
        forall|k: int| 0 <= k < es.len() ==> entry_stored(sets, #[trigger] es[k], defs),
{
    reveal(sound);
    reveal(complete);
}

proof fn lemma_error_step(
    old_sets: Seq<RecordSet>,
    es: Seq<(String, u32, String, Vec<String>)>,
    k: int,
    defs: Seq<SchemaOne>,
    err: Error,
)
    requires
        0 <= k < es.len(),
        sound(old_sets, es, k, defs),
        prior_ok(es, k, defs),
        old_sets.len() == defs.len(),
        forall|j: int| 0 <= j < old_sets.len() ==> (#[trigger] old_sets[j]).definition() == defs[j],
        entry_error(err, es[k], old_sets),
    ensures
        record_error(err, es, k, defs),
{
    reveal(sound);
    assert(defs_of(old_sets) =~= defs);
    if let Error::ParseError { reason: ParseError::DuplicatedEntry { first_appear, line, label }, .. } = err {
        if !typing_failure(err->ParseError_reason, es[k], defs) {
            let (i, y, x) = choose|i: int, y: Record, x: Record|
                #[trigger] defines(defs_of(old_sets), es[k].2@, i) && #[trigger] old_sets[i].stored(y) && #[trigger] built(es[k], old_sets[i].definition(), x)
                    && record_path(x.fields(), old_sets[i].kinds()) == record_path(y.fields(), old_sets[i].kinds()) && dup_of(err, y);
            assert(from_entries(es, k, defs[i], y));
            let m = choose|m: int| 0 <= m < k && built(#[trigger] es[m], defs[i], y);
            assert(same_keys(es[m], es[k], defs[i]));
            assert(0 <= m < k && es[m].2@ == es[k].2@ && es[m].0@ == first_appear@ && es[m].1 == line && defines(defs, es[k].2@, i));
        }
    }
}

/// The keys that a record built from an entry is indexed by are those that the
/// entry's text gives, when no kind is a float kind.
pub(crate) proof fn lemma_built_path(en: (String, u32, String, Vec<String>), d: SchemaOne, x: Record)
    requires
        built(en, d, x),
        no_float(d),
    ensures
        record_path(x.fields(), d.kinds()) == entry_path(en, d),
{
    assert forall|t: int| 0 <= t < x.fields().len() implies #[trigger] record_path(x.fields(), d.kinds())[t] == entry_path(en, d)[t] by {
        let f = x.fields()[t];
        assert(typed(f, d.kinds()[t], en.3@[t]@));
        assert(!is_float(d.kinds()[t]));
    }
    assert(record_path(x.fields(), d.kinds()) =~= entry_path(en, d));
}

proof fn lemma_prior_step(
    old_sets: Seq<RecordSet>,
    es: Seq<(String, u32, String, Vec<String>)>,
    k: int,
    defs: Seq<SchemaOne>,
)
    requires
        0 <= k < es.len(),
        prior_ok(es, k, defs),
        complete(old_sets, es, k, defs),
        labels_unique(defs),
        old_sets.len() == defs.len(),
        forall|j: int| 0 <= j < old_sets.len() ==> (#[trigger] old_sets[j]).definition() == defs[j],
        accepted(es[k], defs_of(old_sets)),
        exists|i: int, x: Record|
            #[trigger] defines(defs_of(old_sets), es[k].2@, i) && #[trigger] built(es[k], old_sets[i].definition(), x) && forall|y: Record|
                #[trigger] old_sets[i].stored(y) ==> record_path(y.fields(), old_sets[i].kinds()) != record_path(x.fields(), old_sets[i].kinds()),
    ensures
        prior_ok(es, k + 1, defs),
{
    reveal(complete);
    assert(defs_of(old_sets) =~= defs);
    let (i, x) = choose|i: int, x: Record|
        #[trigger] defines(defs_of(old_sets), es[k].2@, i) && #[trigger] built(es[k], old_sets[i].definition(), x) && forall|y: Record|
            #[trigger] old_sets[i].stored(y) ==> record_path(y.fields(), old_sets[i].kinds()) != record_path(x.fields(), old_sets[i].kinds());
    assert forall|m: int| 0 <= m < k + 1 implies accepted(#[trigger] es[m], defs) by {}
    assert forall|j: int, m: int| 0 <= j < m < k + 1 && (#[trigger] es[j]).2@ == (#[trigger] es[m]).2@ implies !keys_clash(es[j], es[m], defs) by {
        if m == k && keys_clash(es[j], es[m], defs) {
            let i2 = choose|i2: int| #[trigger] defines(defs, es[m].2@, i2) && no_float(defs[i2]) && entry_path(es[j], defs[i2]) == entry_path(es[m], defs[i2]);
            if i2 != i {
                if i2 < i {
                    assert(defs[i2].label_view() != defs[i].label_view());
                } else {
                    assert(defs[i].label_view() != defs[i2].label_view());
                }
            }
            assert(entry_stored(old_sets, es[j], defs));
            let (j2, y) = choose|j2: int, y: Record| 0 <= j2 < old_sets.len() && #[trigger] old_sets[j2].stored(y) && built(es[j], defs[j2], y);
            if j2 != i {
                if j2 < i {
                    assert(defs[j2].label_view() != defs[i].label_view());
                } else {
                    assert(defs[i].label_view() != defs[j2].label_view());
                }
            }
            lemma_built_path(es[j], defs[i], y);
            lemma_built_path(es[k], defs[i], x);
            assert(old_sets[i].stored(y));
        }
    }
}

} // verus!

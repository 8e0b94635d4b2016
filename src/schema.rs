use crate::error::{Error, ParseError};
use crate::field::Field;
use crate::filter::Filter;
use crate::recordset::RecordSet;
use crate::record::Record;
use crate::signature::{is_float, kind_named, type_error_at, typed_key, FloatSyntax, Signature};
use crate::text::{blank, chars_of, is_blank, same_text};
use vstd::prelude::*;

verus! {

/// The definition of one label: the ordered kinds of its fields, and where it
/// was written.
#[derive(Clone, Debug, PartialEq, Eq)]
pub struct SchemaOne {
    label: String,
    location: String,
    line: u32,
    sig: Vec<Signature>,
}

/// The kinds named by the words of a definition, skipping empty words; or the
/// first word that names no kind.
pub open spec fn kinds_of(words: Seq<Seq<char>>) -> Result<Seq<Signature>, Seq<char>>
    decreases words.len(),
{
    if words.len() == 0 {
        Ok(Seq::empty())
    } else {
        match kinds_of(words.drop_last()) {
            Err(w) => Err(w),
            Ok(ks) => if words.last().len() == 0 {
                Ok(ks)
            } else {
                match kind_named(words.last()) {
                    Some(k) => Ok(ks.push(k)),
                    None => Err(words.last()),
                }
            },
        }
    }
}

/// A label may be neither the directive word nor hold white space.
pub open spec fn legal_label(l: Seq<char>) -> bool {
    &&& l != seq!['i', 'n', 'c', 'l', 'u', 'd', 'e']
    &&& forall|i: int| 0 <= i < l.len() ==> !is_blank(#[trigger] l[i])
}

pub open spec fn strings(v: Seq<String>) -> Seq<Seq<char>> {
    v.map_values(|s: String| s@)
}

proof fn lemma_strings_push(v: Seq<String>, s: String)
    ensures
        strings(v.push(s)) == strings(v).push(s@),
{
    assert(strings(v.push(s)) =~= strings(v).push(s@));
}

impl SchemaOne {
    pub closed spec fn label_view(&self) -> Seq<char> {
        self.label@
    }

    pub closed spec fn location_view(&self) -> Seq<char> {
        self.location@
    }

    pub closed spec fn line_view(&self) -> u32 {
        self.line
    }

    pub closed spec fn kinds(&self) -> Seq<Signature> {
        self.sig@
    }

    /// A copy of this definition.
    pub fn copy(&self) -> (r: SchemaOne)
        ensures
            r.label_view() == self.label_view(),
            r.location_view() == self.location_view(),
            r.line_view() == self.line_view(),
            r.kinds() == self.kinds(),
    {
        let mut kinds: Vec<Signature> = Vec::new();
        let mut i: usize = 0;
        while i < self.sig.len()
            invariant
                0 <= i <= self.sig@.len(),
                kinds@ == self.sig@.take(i as int),
            decreases self.sig@.len() - i,
        {
            kinds.push(self.sig[i]);
            assert(self.sig@.take(i + 1) =~= self.sig@.take(i as int).push(self.sig@[i as int]));
            i = i + 1;
        }
        assert(self.sig@.take(self.sig@.len() as int) =~= self.sig@);
        SchemaOne { label: self.label.clone(), location: self.location.clone(), line: self.line, sig: kinds }
    }

    /// The label defined.
    pub fn label(&self) -> (r: &str)
        ensures
            r@ == self.label_view(),
    {
        self.label.as_str()
    }

    /// The line of the definition.
    pub fn line(&self) -> (r: u32)
        ensures
            r == self.line_view(),
    {
        self.line
    }

    /// The location of the definition.
    pub fn location(&self) -> (r: &str)
        ensures
            r@ == self.location_view(),
    {
        self.location.as_str()
    }

    /// The kinds of the fields, in order.
    pub fn sig(&self) -> (r: &[Signature])
        ensures
            r@ == self.kinds(),
    {
        self.sig.as_slice()
    }

    /// A definition of `label` from the words that follow its colon; or the
    /// reason a word names no kind.
    pub fn from_sig(label: String, location: String, line: u32, sig: &[String]) -> (r: Result<SchemaOne, ParseError>)
        ensures
            match r {
                Ok(d) => {
                    &&& kinds_of(strings(sig@)) == Ok::<Seq<Signature>, Seq<char>>(d.kinds())
                    &&& d.label_view() == label@ && d.location_view() == location@ && d.line_view() == line
                },
                Err(e) => match e {
                    ParseError::UnrecognisedType { got } => kinds_of(strings(sig@)) == Err::<Seq<Signature>, Seq<char>>(got@),
                    _ => false,
                },
            },
    {
        let mut kinds: Vec<Signature> = Vec::new();
        let mut i: usize = 0;
        assert(strings(sig@).take(0) =~= Seq::<Seq<char>>::empty());
        while i < sig.len()
            invariant
                0 <= i <= sig.len(),
                kinds_of(strings(sig@).take(i as int)) == Ok::<Seq<Signature>, Seq<char>>(kinds@),
            decreases sig.len() - i,
        {
            assert(strings(sig@).take(i + 1).drop_last() =~= strings(sig@).take(i as int));
            let word = sig[i].as_str();
            if !word.is_empty() {
                match Signature::from_str(word) {
                    Ok(k) => kinds.push(k),
                    Err(e) => {
                        proof {
                            lemma_kinds_err_stays(strings(sig@), i + 1);
                            assert(strings(sig@).take(sig@.len() as int) =~= strings(sig@));
                        }
                        return Err(e);
                    },
                }
            } else {
                assert(sig@[i as int]@.len() == 0);
            }
            i = i + 1;
        }
        assert(strings(sig@).take(sig@.len() as int) =~= strings(sig@));
        Ok(SchemaOne { label, location, line, sig: kinds })
    }

    /// Types the words of a record of this label, written at `location`,
    /// `line`.
    pub fn parse<F: FloatSyntax>(&self, args: &Vec<String>, location: &str, line: u32, floats: &F) -> (r: Result<Vec<Field>, Error>)
        ensures
            match r {
                Ok(v) => v@.len() == args@.len() && v@.len() == self.kinds().len() && forall|i: int|
                    0 <= i < v@.len() ==> typed(#[trigger] v@[i], self.kinds()[i], args@[i]@),
                Err(e) => if args@.len() != self.kinds().len() {
                    e == (Error::ParseError {
                        location: e->location,
                        line,
                        reason: ParseError::ArgumentLengthMismatch { expected: self.kinds().len() as usize, got: args@.len() as usize },
                    }) && (e->location)@ == location@
                } else {
                    exists|i: int|
                        0 <= i < args@.len() && type_error_at(e, self.kinds()[i], args@[i]@, location@, line)
                            && (!is_float(self.kinds()[i]) ==> typed_key(self.kinds()[i], args@[i]@) is None)
                            && forall|j: int| 0 <= j < i ==> #[trigger] readable(self.kinds()[j], args@[j]@)
                },
            },
    {
        if args.len() != self.sig.len() {
            return Err(Error::ParseError {
                location: location.to_owned(),
                line,
                reason: ParseError::ArgumentLengthMismatch { expected: self.sig.len(), got: args.len() },
            });
        }
        let mut out: Vec<Field> = Vec::new();
        let mut i: usize = 0;
        while i < args.len()
            invariant
                0 <= i <= args.len(),
                args.len() == self.sig.len(),
                out@.len() == i,
                forall|j: int| 0 <= j < i ==> typed(#[trigger] out@[j], self.kinds()[j], args@[j]@),
                forall|j: int| 0 <= j < i ==> #[trigger] readable(self.kinds()[j], args@[j]@),
            decreases args.len() - i,
        {
            match self.sig[i].parse(args[i].as_str(), location, line, floats) {
                Ok(f) => {
                    out.push(f);
                    assert(typed(out@[i as int], self.kinds()[i as int], args@[i as int]@));
                },
                Err(e) => {
                    assert(type_error_at(e, self.kinds()[i as int], args@[i as int]@, location@, line));
                    return Err(e);
                },
            }
            i = i + 1;
        }
        Ok(out)
    }

    /// Whether `filter` has this definition's shape: one position per field,
    /// and at each given position a value whose kind, in its widest form, is
    /// the declared kind.
    pub fn match_filter(&self, filter: &Filter) -> (r: bool)
        ensures
            r == fits(self.kinds(), filter.values()),
    {
        let args = filter.args();
        if args.len() != self.sig.len() {
            return false;
        }
        let mut i: usize = 0;
        while i < args.len()
            invariant
                0 <= i <= args.len(),
                args@ == filter.values(),
                args.len() == self.sig.len(),
                forall|j: int| 0 <= j < i ==> fits_at(self.kinds()[j], #[trigger] args@[j]),
            decreases args.len() - i,
        {
            if let Some(f) = &args[i] {
                if f.sig() != self.sig[i] {
                    return false;
                }
            }
            i = i + 1;
        }
        true
    }
}

/// Every definition, at most one per label.
pub struct Schema(Vec<SchemaOne>);

/// An entry of a stream: location, line, label, and the words that follow.
pub open spec fn entry_label(e: (String, u32, String, Vec<String>)) -> Seq<char> {
    e.2@
}

/// Entry `i` of a definition stream is accepted once those before it are.
pub open spec fn definition_ok(es: Seq<(String, u32, String, Vec<String>)>, i: int) -> bool {
    &&& legal_label(es[i].2@)
    &&& kinds_of(strings(es[i].3@)) is Ok
    &&& forall|j: int| 0 <= j < i ==> entry_label(#[trigger] es[j]) != es[i].2@
}

/// `e` reports why entry `i` of a definition stream is refused.
pub open spec fn definition_error(e: Error, es: Seq<(String, u32, String, Vec<String>)>, i: int) -> bool {
    match e {
        Error::ParseError { location, line, reason } => {
            &&& location@ == es[i].0@
            &&& line == es[i].1
            &&& if !legal_label(es[i].2@) {
                reason matches ParseError::IllegalName { label } && label@ == es[i].2@
            } else if kinds_of(strings(es[i].3@)) is Err {
                reason matches ParseError::UnrecognisedType { got } && kinds_of(strings(es[i].3@)) == Err::<
                    Seq<Signature>,
                    Seq<char>,
                >(got@)
            } else {
                exists|j: int|
                    0 <= j < i && entry_label(#[trigger] es[j]) == es[i].2@ && (reason matches ParseError::DuplicatedDefinition {
                        first_appear,
                        line,
                        label,
                    } && first_appear@ == es[j].0@ && line == es[j].1 && label@ == es[i].2@)
            }
        },
        _ => false,
    }
}

/// Definition `d` is what entry `e` of a definition stream declares.
pub open spec fn declares(d: SchemaOne, e: (String, u32, String, Vec<String>)) -> bool {
    &&& d.label_view() == e.2@
    &&& d.location_view() == e.0@
    &&& d.line_view() == e.1
    &&& kinds_of(strings(e.3@)) == Ok::<Seq<Signature>, Seq<char>>(d.kinds())
}

fn legal_name(l: &str) -> (r: bool)
    ensures
        r == legal_label(l@),
{
    proof {
        reveal_strlit("include");
        assert("include"@ =~= seq!['i', 'n', 'c', 'l', 'u', 'd', 'e']);
    }
    if same_text(l, "include") {
        return false;
    }
    let v = chars_of(l);
    let mut i: usize = 0;
    while i < v.len()
        invariant
            v@ == l@,
            0 <= i <= v.len(),
            forall|j: int| 0 <= j < i ==> !is_blank(#[trigger] v@[j]),
        decreases v.len() - i,
    {
        if blank(v[i]) {
            return false;
        }
        i = i + 1;
    }
    true
}

impl Schema {
    pub closed spec fn defs(&self) -> Seq<SchemaOne> {
        self.0@
    }

    /// Reads a stream of definitions: each label legal, each kind known, no label
    /// twice. The first entry, in order, that breaks a rule is reported.
    pub fn parse(entries: Vec<(String, u32, String, Vec<String>)>) -> (r: Result<Schema, Error>)
        ensures
            match r {
                Ok(s) => {
                    &&& forall|i: int| 0 <= i < entries@.len() ==> definition_ok(entries@, i)
                    &&& s.defs().len() == entries@.len()
                    &&& forall|i: int| 0 <= i < entries@.len() ==> declares(#[trigger] s.defs()[i], entries@[i])
                    &&& crate::recordset::labels_unique(s.defs())
                },
                Err(e) => exists|i: int|
                    0 <= i < entries@.len() && !definition_ok(entries@, i) && definition_error(e, entries@, i)
                        && forall|j: int| 0 <= j < i ==> definition_ok(entries@, j),
            },
    {
        let mut defs: Vec<SchemaOne> = Vec::new();
        let mut i: usize = 0;
        while i < entries.len()
            invariant
                0 <= i <= entries.len(),
                defs@.len() == i,
                forall|j: int| 0 <= j < i ==> definition_ok(entries@, j),
                forall|j: int| 0 <= j < i ==> declares(#[trigger] defs@[j], entries@[j]),
            decreases entries.len() - i,
        {
            let e = &entries[i];
            if !legal_name(e.2.as_str()) {
                let err = Error::ParseError {
                    location: e.0.clone(),
                    line: e.1,
                    reason: ParseError::IllegalName { label: e.2.clone() },
                };
                assert(definition_error(err, entries@, i as int));
                assert(!definition_ok(entries@, i as int));
                return Err(err);
            }
            let d = match SchemaOne::from_sig(e.2.clone(), e.0.clone(), e.1, e.3.as_slice()) {
                Ok(d) => d,
                Err(reason) => {
                    let err = Error::ParseError { location: e.0.clone(), line: e.1, reason };
                    assert(definition_error(err, entries@, i as int));
                    assert(!definition_ok(entries@, i as int));
                    return Err(err);
                },
            };
            let mut j: usize = 0;
            while j < defs.len()
                invariant
                    0 <= j <= defs.len(),
                    defs@.len() == i,
                    i < entries@.len(),
                    e == entries@[i as int],
                    legal_label(e.2@),
                    declares(d, *e),
                    forall|k: int| 0 <= k < i ==> definition_ok(entries@, k),
                    forall|k: int| 0 <= k < i ==> declares(#[trigger] defs@[k], entries@[k]),
                    forall|k: int| 0 <= k < j ==> entry_label(#[trigger] entries@[k]) != e.2@,
                decreases defs.len() - j,
            {
                if same_text(defs[j].label(), e.2.as_str()) {
                    let first = &defs[j];
                    let err = Error::ParseError {
                        location: e.0.clone(),
                        line: e.1,
                        reason: ParseError::DuplicatedDefinition {
                            first_appear: first.location().to_owned(),
                            line: first.line(),
                            label: e.2.clone(),
                        },
                    };
                    assert(declares(defs@[j as int], entries@[j as int]));
                    assert(entry_label(entries@[j as int]) == e.2@);
                    assert(definition_error(err, entries@, i as int));
                    assert(!definition_ok(entries@, i as int));
                    return Err(err);
                }
                assert(declares(defs@[j as int], entries@[j as int]));
                j = j + 1;
            }
            defs.push(d);
            i = i + 1;
        }
        assert forall|a: int, b: int| 0 <= a < b < defs@.len() implies (#[trigger] defs@[a]).label_view() != (#[trigger] defs@[b]).label_view() by {
            assert(declares(defs@[a], entries@[a]));
            assert(declares(defs@[b], entries@[b]));
            assert(definition_ok(entries@, b));
            assert(entry_label(entries@[a]) != entries@[b].2@);
        }
        Ok(Schema(defs))
    }

    /// An empty store for each definition, in order.
    pub fn as_template(self) -> (r: Vec<RecordSet>)
        ensures
            r@.len() == self.defs().len(),
            forall|j: int| 0 <= j < r@.len() ==> (#[trigger] r@[j]).definition() == self.defs()[j] && r@[j].wf()
                && forall|x: Record| !r@[j].stored(x),
    {
        let ghost defs = self.defs();
        let mut rest = self.0;
        let n = rest.len();
        let mut sets: Vec<RecordSet> = Vec::new();
        let mut i: usize = 0;
        while i < n
            invariant
                0 <= i <= n,
                n == defs.len(),
                rest@ == defs.subrange(i as int, n as int),
                sets@.len() == i,
                forall|j: int| 0 <= j < i ==> (#[trigger] sets@[j]).definition() == defs[j] && sets@[j].wf()
                    && forall|x: Record| !sets@[j].stored(x),
            decreases n - i,
        {
            let d = rest.remove(0);
            sets.push(RecordSet::new(d));
            i = i + 1;
        }
        sets
    }

    /// Every definition, each once.
    pub fn definitions(&self) -> (r: &[SchemaOne])
        ensures
            r@ == self.defs(),
    {
        self.0.as_slice()
    }
}

/// `f` is what the text `s` of a field of kind `k` gives.
pub open spec fn typed(f: Field, k: Signature, s: Seq<char>) -> bool {
    &&& f.wf()
    &&& f.kind() == k
    &&& !is_float(k) ==> typed_key(k, s) == Some(f.key())
    &&& f matches Field::UStr { original, .. } ==> original@ == s
}

/// The text `s` is a value of kind `k`, as far as this library decides it.
pub open spec fn readable(k: Signature, s: Seq<char>) -> bool {
    !is_float(k) ==> typed_key(k, s) is Some
}

pub open spec fn fits_at(k: Signature, v: Option<Field>) -> bool {
    v matches Some(f) ==> f.wide_kind() == k
}

/// A filter fits a definition with kinds `ks` when it has one position per
/// kind and each value it gives is, in its widest form, of its position's kind.
pub open spec fn fits(ks: Seq<Signature>, vs: Seq<Option<Field>>) -> bool {
    vs.len() == ks.len() && forall|i: int| 0 <= i < vs.len() ==> fits_at(ks[i], #[trigger] vs[i])
}

proof fn lemma_kinds_err_stays(s: Seq<Seq<char>>, j: int)
    requires
        0 <= j <= s.len(),
        kinds_of(s.take(j)) is Err,
    ensures
        kinds_of(s) == kinds_of(s.take(j)),
    decreases s.len(),
{
    if j == s.len() {
        assert(s.take(j) =~= s);
    } else {
        assert(s.drop_last().take(j) =~= s.take(j));
        lemma_kinds_err_stays(s.drop_last(), j);
    }
}

} // verus!

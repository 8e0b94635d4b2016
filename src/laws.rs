use crate::field::{escaped, quoted, Field};
use crate::lexer::{word_run, word_step, words_of, WordState};
use crate::record::Record;
use crate::recordset::{
    answers, defines, entry_path, index_key, labels_unique, lemma_built_path, no_float, prior_ok, put_post, record_error, record_path,
    same_keys, RecordSet,
};
use crate::schema::SchemaOne;
use crate::document::{declared_by, definitions_ok, Document};
use crate::record::same_record;
use crate::recordset::{built, entry_stored, from_entries};
use crate::tree::path_matches;
use crate::schema::{declares, definition_error, definition_ok, entry_label, kinds_of, legal_label, strings};
use crate::signature::{typed_key, Signature};
use vstd::prelude::*;

verus! {

proof fn lemma_run_push(s: Seq<char>, c: char)
    ensures
        word_run(s.push(c)) == match word_run(s) {
            Ok(st) => word_step(st, c),
            Err(e) => Err(e),
        },
{
    assert(s.push(c).drop_last() =~= s);
    assert(s.push(c).last() == c);
}

proof fn lemma_quoted_prefix(s: Seq<char>, k: int)
    requires
        0 <= k <= s.len(),
    ensures
        word_run(seq!['"'] + escaped('"', s.take(k))) == Ok::<WordState, crate::error::ParseError>(
            WordState { word: s.take(k), words: Seq::empty(), open: Some('"'), closed: false, escaped: false },
        ),
    decreases k,
{
    if k == 0 {
        assert(s.take(0) =~= Seq::<char>::empty());
        assert(seq!['"'] + escaped('"', Seq::<char>::empty()) =~= Seq::<char>::empty().push('"'));
        lemma_run_push(Seq::empty(), '"');
    } else {
        lemma_quoted_prefix(s, k - 1);
        let p = seq!['"'] + escaped('"', s.take(k - 1));
        let c = s[k - 1];
        assert(s.take(k).drop_last() =~= s.take(k - 1));
        assert(s.take(k).last() == c);
        assert(s.take(k - 1).push(c) =~= s.take(k));
        if c == '\\' || c == ':' || c == '"' {
            assert(seq!['"'] + escaped('"', s.take(k)) =~= p.push('\\').push(c));
            lemma_run_push(p, '\\');
            lemma_run_push(p.push('\\'), c);
        } else {
            assert(seq!['"'] + escaped('"', s.take(k)) =~= p.push(c));
            lemma_run_push(p, c);
        }
    }
}

/// A text value written as a double-quoted word reads back as exactly that
/// one word, so a string field of either case kind, parsed, written and parsed
/// again, has the same text as written and the same value.
pub proof fn lemma_text_round_trip(s: Seq<char>)
    ensures
        words_of(quoted(s)) == Ok::<Seq<Seq<char>>, crate::error::ParseError>(seq![s]),
        typed_key(Signature::IStr, s) == typed_key(Signature::IStr, words_of(quoted(s))->Ok_0[0]),
        typed_key(Signature::UStr, s) == typed_key(Signature::UStr, words_of(quoted(s))->Ok_0[0]),
{
    lemma_quoted_prefix(s, s.len() as int);
    assert(s.take(s.len() as int) =~= s);
    let p = seq!['"'] + escaped('"', s);
    assert(quoted(s) =~= p.push('"'));
    lemma_run_push(p, '"');
    assert(Seq::<Seq<char>>::empty().push(s) =~= seq![s]);
}

/// Putting one record after another with different keys leaves the same
/// records as putting them the other way round: what a store holds does not
/// depend on the order of insertion.
pub proof fn lemma_put_order_irrelevant(
    s0: RecordSet,
    a: Record,
    b: Record,
    s1: RecordSet,
    s2: RecordSet,
    t1: RecordSet,
    t2: RecordSet,
    r1: Option<Record>,
    r2: Option<Record>,
    q1: Option<Record>,
    q2: Option<Record>,
)
    requires
        put_post(s0, a, s1, r1),
        put_post(s1, b, s2, r2),
        put_post(s0, b, t1, q1),
        put_post(t1, a, t2, q2),
        record_path(a.fields(), s0.kinds()) != record_path(b.fields(), s0.kinds()),
    ensures
        forall|x: Record| s2.stored(x) <==> t2.stored(x),
{
    assert forall|x: Record| s2.stored(x) <==> t2.stored(x) by {
        assert(s2.stored(x) <==> (x == b || (s1.stored(x) && record_path(x.fields(), s0.kinds()) != record_path(b.fields(), s0.kinds()))));
        assert(t2.stored(x) <==> (x == a || (t1.stored(x) && record_path(x.fields(), s0.kinds()) != record_path(a.fields(), s0.kinds()))));
    }
}

/// Putting a record whose keys equal those of a record put before hands that
/// earlier record back, which is how loading names the first occurrence of a
/// duplicated entry.
pub proof fn lemma_repeat_hands_back_first(
    s0: RecordSet,
    a: Record,
    b: Record,
    s1: RecordSet,
    s2: RecordSet,
    r1: Option<Record>,
    r2: Option<Record>,
)
    requires
        put_post(s0, a, s1, r1),
        put_post(s1, b, s2, r2),
        record_path(a.fields(), s0.kinds()) == record_path(b.fields(), s0.kinds()),
    ensures
        r2 == Some(a),
{
    assert(s1.stored(a));
}

/// A store answers a filter with exactly the stored records whose fields
/// equal the filter's given values, position by position: by lower-cased
/// form where the definition declares a case-insensitive string, by widest
/// form elsewhere.
pub proof fn lemma_answers_are_field_matches(s: RecordSet, vs: Seq<Option<Field>>, x: Record)
    requires
        s.wf(),
        vs.len() == s.kinds().len(),
    ensures
        answers(s, vs, x) <==> s.stored(x) && forall|i: int|
            0 <= i < vs.len() ==> (#[trigger] vs[i] matches Some(g) ==> index_key(x.fields()[i], s.kinds()[i]) == g.key()),
{
    if s.stored(x) {
        s.lemma_stored_arity(x);
        let p = record_path(x.fields(), s.kinds());
        assert(p.len() == vs.len());
        if path_matches(p, vs, 0) {
            assert forall|i: int| 0 <= i < vs.len() implies (#[trigger] vs[i] matches Some(g) ==> index_key(x.fields()[i], s.kinds()[i]) == g.key()) by {
                assert(vs[0 + i] == vs[i]);
                assert(p[i] == index_key(x.fields()[i], s.kinds()[i]));
            }
        }
        if forall|i: int| 0 <= i < vs.len() ==> (#[trigger] vs[i] matches Some(g) ==> index_key(x.fields()[i], s.kinds()[i]) == g.key()) {
            assert forall|i: int| 0 <= i < p.len() implies (#[trigger] vs[0 + i] matches Some(g) ==> p[i] == g.key()) by {
                assert(vs[0 + i] == vs[i]);
                assert(p[i] == index_key(x.fields()[i], s.kinds()[i]));
            }
            assert(path_matches(p, vs, 0));
        }
    }
}

/// Putting records one after another into an empty store, no two with the same
/// keys, leaves exactly those records in it, whatever the order of the puts.
pub proof fn lemma_puts_hold_exactly(ss: Seq<RecordSet>, rs: Seq<Record>, rets: Seq<Option<Record>>)
    requires
        ss.len() == rs.len() + 1,
        rets.len() == rs.len(),
        forall|x: Record| !ss[0].stored(x),
        forall|i: int| 0 <= i < rs.len() ==> put_post(#[trigger] ss[i], rs[i], ss[i + 1], rets[i]),
        forall|i: int, j: int|
            0 <= i < j < rs.len() ==> record_path((#[trigger] rs[i]).fields(), ss[0].kinds()) != record_path(
                (#[trigger] rs[j]).fields(),
                ss[0].kinds(),
            ),
    ensures
        forall|x: Record| ss[rs.len() as int].stored(x) <==> rs.contains(x),
{
    lemma_puts_prefix(ss, rs, rets, rs.len() as int);
    assert forall|x: Record| ss[rs.len() as int].stored(x) <==> rs.contains(x) by {
        if rs.contains(x) {
            let i = choose|i: int| 0 <= i < rs.len() && rs[i] == x;
            assert(0 <= i < rs.len() && rs[i] == x);
        }
    }
}

/// Two stores filled from empty stores of one definition with the same records,
/// no two with the same keys, put in any two orders, answer every filter alike.
pub proof fn lemma_put_orders_answer_alike(
    ss: Seq<RecordSet>,
    rs: Seq<Record>,
    rets: Seq<Option<Record>>,
    tt: Seq<RecordSet>,
    qs: Seq<Record>,
    qrets: Seq<Option<Record>>,
    vs: Seq<Option<Field>>,
)
    requires
        ss.len() == rs.len() + 1,
        rets.len() == rs.len(),
        forall|x: Record| !ss[0].stored(x),
        forall|i: int| 0 <= i < rs.len() ==> put_post(#[trigger] ss[i], rs[i], ss[i + 1], rets[i]),
        forall|i: int, j: int|
            0 <= i < j < rs.len() ==> record_path((#[trigger] rs[i]).fields(), ss[0].kinds()) != record_path(
                (#[trigger] rs[j]).fields(),
                ss[0].kinds(),
            ),
        tt.len() == qs.len() + 1,
        qrets.len() == qs.len(),
        forall|x: Record| !tt[0].stored(x),
        tt[0].kinds() == ss[0].kinds(),
        forall|i: int| 0 <= i < qs.len() ==> put_post(#[trigger] tt[i], qs[i], tt[i + 1], qrets[i]),
        forall|i: int, j: int|
            0 <= i < j < qs.len() ==> record_path((#[trigger] qs[i]).fields(), tt[0].kinds()) != record_path(
                (#[trigger] qs[j]).fields(),
                tt[0].kinds(),
            ),
        forall|x: Record| rs.contains(x) <==> qs.contains(x),
    ensures
        forall|x: Record|
            answers(ss[rs.len() as int], vs, x) <==> answers(tt[qs.len() as int], vs, x),
{
    lemma_puts_hold_exactly(ss, rs, rets);
    lemma_puts_hold_exactly(tt, qs, qrets);
    lemma_puts_keep_kinds(ss, rs, rets, rs.len() as int);
    lemma_puts_keep_kinds(tt, qs, qrets, qs.len() as int);
    assert forall|x: Record| ss[rs.len() as int].stored(x) <==> tt[qs.len() as int].stored(x) by {
        assert(ss[rs.len() as int].stored(x) <==> rs.contains(x));
        assert(tt[qs.len() as int].stored(x) <==> qs.contains(x));
    }
    lemma_same_records_same_answers(ss[rs.len() as int], tt[qs.len() as int], vs);
}

proof fn lemma_puts_prefix(ss: Seq<RecordSet>, rs: Seq<Record>, rets: Seq<Option<Record>>, n: int)
    requires
        ss.len() == rs.len() + 1,
        rets.len() == rs.len(),
        0 <= n <= rs.len(),
        forall|x: Record| !ss[0].stored(x),
        forall|i: int| 0 <= i < rs.len() ==> put_post(#[trigger] ss[i], rs[i], ss[i + 1], rets[i]),
        forall|i: int, j: int|
            0 <= i < j < rs.len() ==> record_path((#[trigger] rs[i]).fields(), ss[0].kinds()) != record_path(
                (#[trigger] rs[j]).fields(),
                ss[0].kinds(),
            ),
    ensures
        forall|x: Record| #[trigger] ss[n].stored(x) <==> exists|i: int| 0 <= i < n && rs[i] == x,
    decreases n,
{
    if n > 0 {
        lemma_puts_prefix(ss, rs, rets, n - 1);
        lemma_puts_keep_kinds(ss, rs, rets, n - 1);
        assert(put_post(ss[n - 1], rs[n - 1], ss[n], rets[n - 1]));
        assert forall|x: Record| #[trigger] ss[n].stored(x) <==> exists|i: int| 0 <= i < n && rs[i] == x by {
            if exists|i: int| 0 <= i < n && rs[i] == x {
                let i = choose|i: int| 0 <= i < n && rs[i] == x;
                if i < n - 1 {
                    assert(ss[n - 1].stored(x));
                    assert(record_path(rs[i].fields(), ss[0].kinds()) != record_path(rs[n - 1].fields(), ss[0].kinds()));
                }
            }
            if ss[n].stored(x) && x != rs[n - 1] {
                assert(ss[n - 1].stored(x));
                let i = choose|i: int| 0 <= i < n - 1 && rs[i] == x;
                assert(0 <= i < n && rs[i] == x);
            }
        }
    }
}

proof fn lemma_puts_keep_kinds(ss: Seq<RecordSet>, rs: Seq<Record>, rets: Seq<Option<Record>>, n: int)
    requires
        ss.len() == rs.len() + 1,
        rets.len() == rs.len(),
        0 <= n <= rs.len(),
        forall|i: int| 0 <= i < rs.len() ==> put_post(#[trigger] ss[i], rs[i], ss[i + 1], rets[i]),
    ensures
        ss[n].kinds() == ss[0].kinds(),
    decreases n,
{
    if n > 0 {
        lemma_puts_keep_kinds(ss, rs, rets, n - 1);
        assert(put_post(ss[n - 1], rs[n - 1], ss[n], rets[n - 1]));
    }
}

/// When loading reports entry `k` as a duplicated record, and entry `i` before
/// it, of the same label without float kinds, has the same keys, the report
/// names exactly entry `i`: its location and line.
pub proof fn lemma_duplicate_names_the_earlier(
    e: crate::error::Error,
    es: Seq<(String, u32, String, Vec<String>)>,
    k: int,
    i: int,
    d: int,
    defs: Seq<SchemaOne>,
)
    requires
        0 <= i < k < es.len(),
        labels_unique(defs),
        record_error(e, es, k, defs),
        e matches crate::error::Error::ParseError { reason: crate::error::ParseError::DuplicatedEntry { .. }, .. },
        es[i].2@ == es[k].2@,
        defines(defs, es[k].2@, d),
        no_float(defs[d]),
        entry_path(es[i], defs[d]) == entry_path(es[k], defs[d]),
    ensures
        match e {
            crate::error::Error::ParseError {
                reason: crate::error::ParseError::DuplicatedEntry { first_appear, line, .. },
                ..
            } => first_appear@ == es[i].0@ && line == es[i].1,
            _ => false,
        },
{
    if let crate::error::Error::ParseError { reason: crate::error::ParseError::DuplicatedEntry { first_appear, line, .. }, .. } = e {
        let (j, d2) = choose|j: int, d2: int|
            0 <= j < k && (#[trigger] es[j]).2@ == es[k].2@ && es[j].0@ == first_appear@ && es[j].1 == line
                && #[trigger] defines(defs, es[k].2@, d2) && same_keys(es[j], es[k], defs[d2]);
        if d2 != d {
            if d2 < d {
                assert(defs[d2].label_view() != defs[d].label_view());
            } else {
                assert(defs[d].label_view() != defs[d2].label_view());
            }
        }
        let (x, y) = choose|x: Record, y: Record|
            #[trigger] crate::recordset::built(es[j], defs[d], y) && #[trigger] crate::recordset::built(es[k], defs[d], x)
                && record_path(x.fields(), defs[d].kinds()) == record_path(y.fields(), defs[d].kinds());
        lemma_built_path(es[j], defs[d], y);
        lemma_built_path(es[k], defs[d], x);
        if j != i {
            assert(prior_ok(es, k, defs));
            if j < i {
                assert(defines(defs, es[i].2@, d));
                assert(crate::recordset::keys_clash(es[j], es[i], defs));
            } else {
                assert(defines(defs, es[j].2@, d));
                assert(crate::recordset::keys_clash(es[i], es[j], defs));
            }
        }
    }
}

/// Two documents built from the same streams hold the same records and answer
/// alike: a record that one answers to a filter has a record equal to it, by
/// value, that the other answers, in the store of the same label, where that
/// label has no float kinds (whose values the caller's reader gives).
pub proof fn lemma_rebuilt_document_answers_alike(
    a: Document,
    b: Document,
    schema: Seq<(String, u32, String, Vec<String>)>,
    records: Seq<(String, u32, String, Vec<String>)>,
    vs: Seq<Option<Field>>,
    i: int,
    x: Record,
)
    requires
        definitions_ok(schema),
        declared_by(a.definitions(), schema),
        declared_by(b.definitions(), schema),
        a.stores().len() == schema.len(),
        b.stores().len() == schema.len(),
        forall|j: int, y: Record| 0 <= j < a.stores().len() && #[trigger] a.stores()[j].stored(y) ==> from_entries(
            records,
            records.len() as int,
            a.definitions()[j],
            y,
        ),
        forall|k: int| 0 <= k < records.len() ==> entry_stored(b.stores(), #[trigger] records[k], b.definitions()),
        0 <= i < a.stores().len(),
        no_float(a.definitions()[i]),
        answers(a.stores()[i], vs, x),
    ensures
        exists|y: Record| #[trigger] b.stores()[i].stored(y) && same_record(x, y) && answers(b.stores()[i], vs, y),
{
    let da = a.definitions()[i];
    assert(from_entries(records, records.len() as int, da, x));
    let m = choose|m: int| 0 <= m < records.len() && built(#[trigger] records[m], da, x);
    assert(entry_stored(b.stores(), records[m], b.definitions()));
    let (j, y) = choose|j: int, y: Record|
        0 <= j < b.stores().len() && #[trigger] b.stores()[j].stored(y) && built(records[m], b.definitions()[j], y);
    assert(declares(a.definitions()[i], schema[i]));
    assert(declares(b.definitions()[j], schema[j]));
    if i != j {
        if i < j {
            assert(definition_ok(schema, j));
            assert(crate::schema::entry_label(schema[i]) != schema[j].2@);
        } else {
            assert(definition_ok(schema, i));
            assert(crate::schema::entry_label(schema[j]) != schema[i].2@);
        }
    }
    let db = b.definitions()[i];
    assert(declares(db, schema[i]));
    assert(db.kinds() == da.kinds());
    assert(no_float(db));
    lemma_built_path(records[m], da, x);
    lemma_built_path(records[m], db, y);
    assert(entry_path(records[m], da) =~= entry_path(records[m], db));
    a.stores()[i].lemma_kinds_of_definition();
    b.stores()[i].lemma_kinds_of_definition();
    assert forall|t: int| 0 <= t < x.fields().len() implies (#[trigger] x.fields()[t]).key() == y.fields()[t].key() by {
        assert(crate::schema::typed(x.fields()[t], da.kinds()[t], records[m].3@[t]@));
        assert(crate::schema::typed(y.fields()[t], db.kinds()[t], records[m].3@[t]@));
    }
    assert(same_record(x, y));
    assert(answers(b.stores()[i], vs, y));
}

/// Two stores of one definition that hold the same records answer every
/// filter alike.
pub proof fn lemma_same_records_same_answers(s: RecordSet, t: RecordSet, vs: Seq<Option<Field>>)
    requires
        s.kinds() == t.kinds(),
        forall|x: Record| s.stored(x) <==> t.stored(x),
    ensures
        forall|x: Record| answers(s, vs, x) <==> answers(t, vs, x),
{
}

/// A label defined a second time, after definitions that were all accepted and
/// with a legal label and known kinds, is refused as a duplicated definition
/// that names the first one.
pub proof fn lemma_second_definition_refused(es: Seq<(String, u32, String, Vec<String>)>, i: int, j: int, e: crate::error::Error)
    requires
        0 <= i < j < es.len(),
        es[i].2@ == es[j].2@,
        forall|k: int| 0 <= k < j ==> definition_ok(es, k),
        legal_label(es[j].2@),
        kinds_of(strings(es[j].3@)) is Ok,
        definition_error(e, es, j),
    ensures
        !definition_ok(es, j),
        e matches crate::error::Error::ParseError {
            reason: crate::error::ParseError::DuplicatedDefinition { first_appear, line, .. },
            ..
        } && first_appear@ == es[i].0@ && line == es[i].1,
{
    assert(entry_label(es[i]) == es[j].2@);
    let m = choose|m: int| 0 <= m < j && entry_label(#[trigger] es[m]) == es[j].2@ && names_first(e, es[m]);
    if m != i {
        if m < i {
            assert(definition_ok(es, i));
            assert(entry_label(es[m]) != es[i].2@);
        } else {
            assert(definition_ok(es, m));
            assert(entry_label(es[i]) != es[m].2@);
        }
    }
}

spec fn names_first(e: crate::error::Error, en: (String, u32, String, Vec<String>)) -> bool {
    match e {
        crate::error::Error::ParseError { reason: crate::error::ParseError::DuplicatedDefinition { first_appear, line, .. }, .. } =>
            first_appear@ == en.0@ && line == en.1,
        _ => false,
    }
}

} // verus!

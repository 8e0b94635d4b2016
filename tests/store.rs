use simplerecords::{
    read_integer, Document, Error, Field, Filter, FloatSyntax, IntError, Options, ParseError, Pass, Record, Signature,
    Statement,
};

struct StdFloats;

impl FloatSyntax for StdFloats {
    fn read_f32(&self, text: &str) -> Result<(u32, u64), String> {
        text.parse::<f32>().map(|v| (v.to_bits(), (v as f64).to_bits())).map_err(|e| e.to_string())
    }

    fn read_f64(&self, text: &str) -> Result<u64, String> {
        text.parse::<f64>().map(|v| v.to_bits()).map_err(|e| e.to_string())
    }
}

fn load(text: &str) -> Result<Document, Error> {
    let (stmts, err) = Pass::scan("t", text);
    if let Some(e) = err {
        return Err(e);
    }
    let mut pass = Pass::new();
    for st in stmts {
        pass.push(st);
    }
    let (schema, records) = pass.destruct();
    Document::from_streams(schema, records, &StdFloats)
}

fn istr(s: &str) -> Option<Field> {
    Some(Field::IStr(s.to_string()))
}

fn firsts(found: &[&Record]) -> Vec<String> {
    let mut v: Vec<String> = found
        .iter()
        .map(|r| match &r.args()[0] {
            Field::UStr { original, .. } => original.clone(),
            Field::IStr(s) => s.clone(),
            other => format!("{:?}", other),
        })
        .collect();
    v.sort();
    v
}

const WHITELIST: &str = "whitelist: ustr istr u64\nwhitelist joe 127.0.0.1 123456\nwhitelist BOB 127.0.0.1 123457\nwhitelist alice 127.0.0.3 123459\n";

#[test]
fn scenario_wildcards_around_address() {
    let doc = load(WHITELIST).unwrap();
    let f = Filter::new("whitelist".to_string(), &[None, istr("127.0.0.1"), None]);
    let found = doc.find(f).unwrap();
    assert_eq!(firsts(&found), vec!["BOB".to_string(), "joe".to_string()]);
}

#[test]
fn scenario_case_insensitive_field() {
    let doc = load(WHITELIST).unwrap();
    let f = Filter::new("whitelist".to_string(), &[istr("JOE"), None, None]);
    let found = doc.find(f.clone()).unwrap();
    assert_eq!(firsts(&found), vec!["joe".to_string()]);
    let one = doc.find_one(f).unwrap().unwrap();
    assert_eq!(one.line(), 2);
    assert_eq!(one.location(), "t");
}

#[test]
fn scenario_filter_shape_mismatch() {
    let doc = load(WHITELIST).unwrap();
    let f = Filter::new("whitelist".to_string(), &[None, None]);
    assert!(matches!(doc.find(f.clone()), Err(Error::FilterMismatch { .. })));
    assert!(matches!(doc.find_one(f), Err(Error::FilterMismatch { .. })));
}

#[test]
fn scenario_include_line_is_kept() {
    let (stmts, err) = Pass::scan("a", "foo: u8\nfoo 1\n\ninclude missing\n");
    assert_eq!(err, None);
    assert_eq!(stmts.len(), 3);
    assert_eq!(stmts[2], Statement::Include { line: 4, path: "missing".to_string() });
}

#[test]
fn scenario_duplicated_definition() {
    let err = load("foo: u8\nfoo: u16\n").err().unwrap();
    assert_eq!(
        err,
        Error::ParseError {
            location: "t".to_string(),
            line: 2,
            reason: ParseError::DuplicatedDefinition { first_appear: "t".to_string(), line: 1, label: "foo".to_string() },
        }
    );
}

#[test]
fn scenario_unclosed_string() {
    let (stmts, err) = Pass::scan("t", "foo: istr istr\nalice \"open");
    assert!(stmts.is_empty());
    assert_eq!(err, Some(Error::ParseError { location: "t".to_string(), line: 2, reason: ParseError::UnclosedString }));
}

#[test]
fn duplicated_record_names_first() {
    let err = load("foo: u8 istr\nfoo 1 a\nfoo 2 a\nfoo 1 a\n").err().unwrap();
    assert_eq!(
        err,
        Error::ParseError {
            location: "t".to_string(),
            line: 4,
            reason: ParseError::DuplicatedEntry { first_appear: "t".to_string(), line: 2, label: "foo".to_string() },
        }
    );
}

#[test]
fn duplicated_record_case_insensitive() {
    let err = load("foo: ustr\nfoo Ann\nfoo aNN\n").err().unwrap();
    assert!(matches!(err, Error::ParseError { line: 3, reason: ParseError::DuplicatedEntry { line: 2, .. }, .. }));
}

#[test]
fn unit_record_at_most_once() {
    let doc = load("flag:\nflag\n").unwrap();
    let found = doc.find(Filter::new("flag".to_string(), &[])).unwrap();
    assert_eq!(found.len(), 1);
    let err = load("flag:\nflag\nflag\n").err().unwrap();
    assert!(matches!(err, Error::ParseError { line: 3, reason: ParseError::DuplicatedEntry { line: 2, .. }, .. }));
}

#[test]
fn loading_twice_answers_alike() {
    let a = load(WHITELIST).unwrap();
    let b = load(WHITELIST).unwrap();
    for f in [
        Filter::new("whitelist".to_string(), &[None, None, None]),
        Filter::new("whitelist".to_string(), &[None, istr("127.0.0.3"), None]),
        Filter::new("whitelist".to_string(), &[istr("bob"), None, Some(Field::U64(123457))]),
    ] {
        assert_eq!(firsts(&a.find(f.clone()).unwrap()), firsts(&b.find(f).unwrap()));
    }
}

#[test]
fn full_query_independent_of_order() {
    let a = load("p: u64 istr\np 1 x\np 2 x\np 1 y\n").unwrap();
    let b = load("p: u64 istr\np 1 y\np 2 x\np 1 x\n").unwrap();
    let f = Filter::new("p".to_string(), &[Some(Field::U8(1)), None]);
    let mut ra: Vec<String> = a.find(f.clone()).unwrap().iter().map(|r| format!("{:?}", r.args())).collect();
    let mut rb: Vec<String> = b.find(f).unwrap().iter().map(|r| format!("{:?}", r.args())).collect();
    ra.sort();
    rb.sort();
    assert_eq!(ra.len(), 2);
    assert_eq!(ra, rb);
}

#[test]
fn narrower_integer_filter_matches_wider_column() {
    let doc = load("n: u64 i64\nn 7 -3\nn 8 -3\n").unwrap();
    let f = Filter::new("n".to_string(), &[Some(Field::U8(7)), Some(Field::I8(-3))]);
    assert_eq!(doc.find(f).unwrap().len(), 1);
    let f = Filter::new("n".to_string(), &[None, Some(Field::I64(-3))]);
    assert_eq!(doc.find(f).unwrap().len(), 2);
    let f = Filter::new("n".to_string(), &[Some(Field::I8(7)), None]);
    assert!(matches!(doc.find(f), Err(Error::FilterMismatch { .. })));
}

#[test]
fn filter_value_must_have_declared_kind() {
    let doc = load("n: u8 i16\nn 7 -3\n").unwrap();
    let f = Filter::new("n".to_string(), &[Some(Field::U8(7)), None]);
    assert!(matches!(doc.find(f), Err(Error::FilterMismatch { .. })));
    let f = Filter::new("n".to_string(), &[None, Some(Field::I16(-3))]);
    assert!(matches!(doc.find(f), Err(Error::FilterMismatch { .. })));
    let f = Filter::new("n".to_string(), &[None, None]);
    assert_eq!(doc.find(f).unwrap().len(), 1);
}

#[test]
fn float_fields() {
    let doc = load("v: f64 f64\nv 1.5 2\n").unwrap();
    let f = Filter::new(
        "v".to_string(),
        &[Some(Field::F32 { bits: 1.5f32.to_bits(), wide: 1.5f64.to_bits() }), Some(Field::F64(2.0f64.to_bits()))],
    );
    assert_eq!(doc.find(f).unwrap().len(), 1);
    let err = load("v: f32\nv abc\n").err().unwrap();
    assert!(matches!(err, Error::ParseError { line: 2, reason: ParseError::TypeError { target: Signature::F32, .. }, .. }));
}

#[test]
fn query_undeclared_label() {
    let doc = load(WHITELIST).unwrap();
    let f = Filter::new("blacklist".to_string(), &[None]);
    assert_eq!(doc.find(f).err().unwrap(), Error::NoDefinition { label: "blacklist".to_string() });
}

#[test]
fn record_without_definition() {
    let err = load("foo 1\n").err().unwrap();
    assert_eq!(
        err,
        Error::ParseError { location: "t".to_string(), line: 1, reason: ParseError::NoDefinition { label: "foo".to_string() } }
    );
}

#[test]
fn record_wrong_arity() {
    let err = load("foo: u8 u8\nfoo 1\n").err().unwrap();
    assert_eq!(
        err,
        Error::ParseError {
            location: "t".to_string(),
            line: 2,
            reason: ParseError::ArgumentLengthMismatch { expected: 2, got: 1 },
        }
    );
}

#[test]
fn record_type_errors() {
    for (kind, text) in [("u8", "256"), ("i8", "-129"), ("u16", "-1"), ("char", "ab"), ("bool", "yes"), ("i32", "")] {
        let src = format!("foo: {}\nfoo '{}'\n", kind, text);
        let err = load(&src).err().unwrap();
        match err {
            Error::ParseError { line, reason: ParseError::TypeError { value, .. }, .. } => {
                assert_eq!(line, 2);
                assert_eq!(value, text);
            },
            other => panic!("unexpected {:?}", other),
        }
    }
}

#[test]
fn empty_text_field_is_kept() {
    let doc = load("e: istr u8\ne \"\" 1\n").unwrap();
    let found = doc.find(Filter::new("e".to_string(), &[Some(Field::IStr(String::new())), None])).unwrap();
    assert_eq!(found.len(), 1);
}

#[test]
fn typed_values() {
    let doc = load("t: i8 u32 char bool istr\nt -128 4000000000 x true Hello\n").unwrap();
    let found = doc.find(Filter::new("t".to_string(), &[None, None, None, None, None])).unwrap();
    assert_eq!(found.len(), 1);
    assert_eq!(
        format!("{:?}", found[0].args()),
        format!(
            "{:?}",
            vec![Field::I8(-128), Field::U32(4000000000), Field::Char('x'), Field::Bool(true), Field::IStr("Hello".to_string())]
        )
    );
}

#[test]
fn illegal_names() {
    let err = load("include: u8\n").err().unwrap();
    assert!(matches!(err, Error::ParseError { line: 1, reason: ParseError::IllegalName { .. }, .. }));
    let err = load("'a b': u8\n").err().unwrap();
    assert!(matches!(err, Error::ParseError { line: 1, reason: ParseError::IllegalName { .. }, .. }));
}

#[test]
fn unrecognised_type() {
    let err = load("foo: u8 int\n").err().unwrap();
    assert_eq!(
        err,
        Error::ParseError { location: "t".to_string(), line: 1, reason: ParseError::UnrecognisedType { got: "int".to_string() } }
    );
}

#[test]
fn directive_arguments() {
    let (_, err) = Pass::scan("t", "include\n");
    assert_eq!(err, Some(Error::ParseError { location: "t".to_string(), line: 1, reason: ParseError::MissingArguments }));
    let (_, err) = Pass::scan("t", "\nINCLUDE a b\n");
    assert_eq!(err, Some(Error::ParseError { location: "t".to_string(), line: 2, reason: ParseError::TooManyArguments }));
    let (_, err) = Pass::scan("t", "scope a b\n");
    assert_eq!(err, Some(Error::ParseError { location: "t".to_string(), line: 1, reason: ParseError::TooManyArguments }));
    let (_, err) = Pass::scan("t", "foo a\\ b\n");
    assert_eq!(err, Some(Error::ParseError { location: "t".to_string(), line: 1, reason: ParseError::IllegalArgument }));
    let (_, err) = Pass::scan("t", "foo /* a\n");
    assert_eq!(err, Some(Error::ParseError { location: "t".to_string(), line: 2, reason: ParseError::UnclosedMultiLineComment }));
}

#[test]
fn scope_tags_location() {
    let (stmts, err) = Pass::scan("t", "scope s1\nfoo: u8\nfoo 1\nscope\nfoo 2\n");
    assert_eq!(err, None);
    assert_eq!(stmts.len(), 3);
    assert_eq!(stmts[0], Statement::Definition(("t<s1>".to_string(), 2, "foo".to_string(), vec!["u8".to_string()])));
    assert_eq!(stmts[1], Statement::Record(("t<s1>".to_string(), 3, "foo".to_string(), vec!["1".to_string()])));
    assert_eq!(stmts[2], Statement::Record(("t".to_string(), 5, "foo".to_string(), vec!["2".to_string()])));
}

#[test]
fn scopes_are_not_namespaces() {
    let err = load("foo: u8\nscope a\nfoo 1\nscope b\nfoo 1\n").err().unwrap();
    assert_eq!(
        err,
        Error::ParseError {
            location: "t<b>".to_string(),
            line: 5,
            reason: ParseError::DuplicatedEntry { first_appear: "t<a>".to_string(), line: 3, label: "foo".to_string() },
        }
    );
}

#[test]
fn integer_reading() {
    assert_eq!(read_integer("300", false, 0, 255), Err(IntError::PosOverflow));
    assert_eq!(read_integer("-5", false, 0, 255), Err(IntError::InvalidDigit));
    assert_eq!(read_integer("-129", true, -128, 127), Err(IntError::NegOverflow));
    assert_eq!(read_integer("-128", true, -128, 127), Ok(-128));
    assert_eq!(read_integer("+42", false, 0, 255), Ok(42));
    assert_eq!(read_integer("", true, -128, 127), Err(IntError::Empty));
    assert_eq!(read_integer("+", true, -128, 127), Err(IntError::InvalidDigit));
    assert_eq!(read_integer("18446744073709551615", false, 0, 18446744073709551615), Ok(18446744073709551615));
    assert_eq!(read_integer("99999999999999999999999", false, 0, 18446744073709551615), Err(IntError::PosOverflow));
}

#[test]
fn signature_keywords() {
    assert_eq!(Signature::from_str("ustr"), Ok(Signature::UStr));
    assert_eq!(Signature::from_str("f64"), Ok(Signature::F64));
    assert_eq!(Signature::from_str("U8"), Err(ParseError::UnrecognisedType { got: "U8".to_string() }));
    assert_eq!(Signature::U16.keyword(), "u16");
}

#[test]
fn case_insensitive_field_keeps_original() {
    let f = Signature::UStr.parse("MiXed", "t", 1, &StdFloats).unwrap();
    match &f {
        Field::UStr { original, lower } => {
            assert_eq!(original, "MiXed");
            assert_eq!(lower, "mixed");
        },
        other => panic!("unexpected {:?}", other),
    }
    assert!(f == Field::folded("mixed"));
    assert!(f != Field::IStr("mixed".to_string()));
    assert!(f.upcast() == Field::IStr("MiXed".to_string()));
}

#[test]
fn upcast_widens() {
    assert!(Field::I8(-3).upcast() == Field::I64(-3));
    assert!(Field::U16(9).upcast() == Field::U64(9));
    assert!(Field::I8(-3) != Field::I16(-3));
    assert_eq!(Field::U32(1).sig(), Signature::U64);
}

#[test]
fn options_gather_lines() {
    let mut o = Options::empty();
    o.with("foo: u8").with("foo 1");
    assert_eq!(o.init(), "foo: u8\nfoo 1\n");
}

#[test]
fn pass_streams() {
    let (stmts, _) = Pass::scan("t", "a: u8\na 1\n");
    let mut p = Pass::new();
    for st in stmts {
        p.push(st);
    }
    let (stmts2, _) = Pass::scan("u", "a 2\n");
    let mut q = Pass::new();
    for st in stmts2 {
        q.push(st);
    }
    p.append(q);
    let (s, r) = p.destruct();
    assert_eq!(s.len(), 1);
    assert_eq!(r.len(), 2);
    assert_eq!(r[1].0, "u");
}

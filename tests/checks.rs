use simplerecords::{Document, Error, Field, Filter, FloatSyntax, ParseError, Pass, Record, Schema};

struct NoFloats;

impl FloatSyntax for NoFloats {
    fn read_f32(&self, _text: &str) -> Result<(u32, u64), String> {
        Err("no floats".to_string())
    }

    fn read_f64(&self, _text: &str) -> Result<u64, String> {
        Err("no floats".to_string())
    }
}

fn load(text: &str) -> Result<Document, Error> {
    let (stmts, err) = Pass::scan("t", text);
    if let Some(e) = err {
        return Err(e);
    }
    let mut pass = Pass::new();
    for st in stmts {
        pass.push(st);
    }
    let (schema, records) = pass.destruct();
    Document::from_streams(schema, records, &NoFloats)
}

#[test]
fn split_args_at_any_white_space() {
    assert_eq!(
        Pass::split_args("a\u{0C}b\tc\u{3000}d"),
        Ok(vec!["a".to_string(), "b".to_string(), "c".to_string(), "d".to_string()])
    );
}

#[test]
fn label_with_form_feed_is_illegal() {
    let err = Schema::parse(vec![("t".to_string(), 1, "a\u{0C}b".to_string(), vec![])]).err().unwrap();
    assert_eq!(
        err,
        Error::ParseError { location: "t".to_string(), line: 1, reason: ParseError::IllegalName { label: "a\u{0C}b".to_string() } }
    );
}

#[test]
fn line_of_white_space_is_skipped() {
    let (stmts, err) = Pass::scan("t", "\u{0C}\u{a0}\nfoo: u8\n");
    assert_eq!(err, None);
    assert_eq!(stmts.len(), 1);
}

#[test]
fn location_labels() {
    assert_eq!(Pass::location_of("dir/whitelist.rules"), "whitelist");
    assert_eq!(Pass::location_of("whitelist.rules"), "whitelist");
    assert_eq!(Pass::location_of("dir/notes.txt"), "dir/notes.txt");
    assert_eq!(Pass::location_of(".rules"), ".rules");
}

#[test]
fn missing_file_errors() {
    assert_eq!(Error::missing_file(true, "x.rules".to_string(), "a", 4), Error::FileNotFound { path: "x.rules".to_string() });
    assert_eq!(
        Error::missing_file(false, "missing.rules".to_string(), "a", 4),
        Error::ParseError { location: "a".to_string(), line: 4, reason: ParseError::FileNotFound { path: "missing.rules".to_string() } }
    );
    assert_eq!(
        Error::unreadable_file(false, "denied".to_string(), "a", 2),
        Error::ParseError { location: "a".to_string(), line: 2, reason: ParseError::IoError { reason: "denied".to_string() } }
    );
}

#[test]
fn mismatch_carries_definition() {
    let doc = load("w: ustr istr u64\nw joe 1.2 5\n").unwrap();
    match doc.find(Filter::new("w".to_string(), &[None, None])) {
        Err(Error::FilterMismatch { expected, .. }) => {
            assert_eq!(expected.label(), "w");
            assert_eq!(expected.line(), 1);
            assert_eq!(expected.sig().len(), 3);
        },
        other => panic!("unexpected {:?}", other),
    }
}

#[test]
fn records_compare_by_value() {
    let a = Record::new("l".to_string(), "t".to_string(), 1, vec![Field::folded("Ann"), Field::U8(1)]);
    let b = Record::new("l".to_string(), "t".to_string(), 1, vec![Field::folded("aNN"), Field::U8(1)]);
    let c = Record::new("l".to_string(), "t".to_string(), 2, vec![Field::folded("Ann"), Field::U8(1)]);
    assert!(a == b);
    assert!(a != c);
}

#[test]
fn full_query_lists_each_record_once() {
    let doc = load("p: u8 u8\np 1 1\np 1 2\np 2 1\np 2 2\n").unwrap();
    let all = doc.find(Filter::new("p".to_string(), &[None, None])).unwrap();
    assert_eq!(all.len(), 4);
    for i in 0..all.len() {
        for j in 0..all.len() {
            if i != j {
                assert!(all[i] != all[j]);
            }
        }
    }
}

#[test]
fn first_failing_entry_is_reported() {
    let err = load("p: u8 u8\np 1 1\np 1 x\np 1\n").err().unwrap();
    assert!(matches!(
        err,
        Error::ParseError { line: 3, reason: ParseError::TypeError { ref value, .. }, .. } if value == "x"
    ));
    let err = load("p: u8 u8\np 1 1\np 1\np 1 x\n").err().unwrap();
    assert_eq!(
        err,
        Error::ParseError { location: "t".to_string(), line: 3, reason: ParseError::ArgumentLengthMismatch { expected: 2, got: 1 } }
    );
}

use simplerecords::{Field, Pass, Schema, Signature};

struct NoFloats;

impl simplerecords::FloatSyntax for NoFloats {
    fn read_f32(&self, _text: &str) -> Result<(u32, u64), String> {
        Err("floats are not read here".to_string())
    }

    fn read_f64(&self, _text: &str) -> Result<u64, String> {
        Err("floats are not read here".to_string())
    }
}

#[test]
fn text_round_trip_keeps_value() {
    for text in ["", "plain", "a \"quoted\" b", "c:d", "back\\slash", "it's", "MiXeD Case"] {
        for kind in [Signature::IStr, Signature::UStr] {
            let f = kind.parse(text, "t", 1, &NoFloats).unwrap();
            let written = f.text_form().unwrap();
            let words = Pass::split_args(&written).unwrap();
            assert_eq!(words, vec![text.to_string()]);
            let g = kind.parse(&words[0], "t", 1, &NoFloats).unwrap();
            assert!(f == g);
            assert_eq!(g.as_str(), Some(text));
        }
    }
}

#[test]
fn escape_marks_special_characters() {
    assert_eq!(Field::escape_str('\'', "a'b:c\\d\"e"), "a\\'b\\:c\\\\d\"e");
    assert_eq!(Field::escape_str('"', "x\"y"), "x\\\"y");
    assert_eq!(Field::IStr("a:b".to_string()).text_form(), Some("\"a\\:b\"".to_string()));
    assert_eq!(Field::U8(3).text_form(), None);
}

#[test]
fn accessors_widen_within_family() {
    assert_eq!(Field::I8(-5).as_i64(), Some(-5));
    assert_eq!(Field::I16(300).as_i8(), None);
    assert_eq!(Field::I16(300).as_i32(), Some(300));
    assert_eq!(Field::U8(200).as_u16(), Some(200));
    assert_eq!(Field::U32(70000).as_u64(), Some(70000));
    assert_eq!(Field::U64(1).as_u32(), None);
    assert_eq!(Field::Char('q').as_char(), Some('q'));
    assert_eq!(Field::Bool(false).as_bool(), Some(false));
    assert_eq!(Field::Bool(false).as_str(), None);
    assert_eq!(Field::folded("AbC").as_str(), Some("AbC"));
    assert_eq!(Field::I8(1).as_u8(), None);
}

#[test]
fn template_has_a_store_per_definition() {
    let schema = Schema::parse(vec![
        ("t".to_string(), 1, "a".to_string(), vec!["u8".to_string()]),
        ("t".to_string(), 2, "b".to_string(), vec![]),
    ])
    .unwrap();
    assert_eq!(schema.definitions().len(), 2);
    let stores = schema.as_template();
    assert_eq!(stores.len(), 2);
    assert_eq!(stores[0].schema().label(), "a");
    assert_eq!(stores[1].schema().sig().len(), 0);
}

#[test]
fn definition_skips_empty_words() {
    let d = simplerecords::SchemaOne::from_sig(
        "x".to_string(),
        "t".to_string(),
        3,
        &["".to_string(), "bool".to_string(), "".to_string()],
    )
    .unwrap();
    assert_eq!(d.sig(), &[Signature::Bool]);
    assert_eq!(d.line(), 3);
    assert_eq!(d.location(), "t");
}

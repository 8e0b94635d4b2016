use simplerecords::{ParseError, Pass};

#[test]
fn clear_comment__1() {
    let res = Pass::clear_comment(r#"one two # three four"#).unwrap();
    assert_eq!(res.as_str(), "one two ");
}

#[test]
fn clear_comment__2() {
    let res = Pass::clear_comment("one two # three four\nfive six # seven eight").unwrap();
    assert_eq!(res.as_str(), "one two \nfive six ");
}

#[test]
fn clear_comment__3() {
    let res = Pass::clear_comment(r#"one two/* three four */five six"#).unwrap();
    assert_eq!(res.as_str(), "one two five six");
}

#[test]
fn clear_comment__4() {
    let res = Pass::clear_comment(r#"one two"/* three four */"five six"#).unwrap();
    assert_eq!(res.as_str(), r#"one two"/* three four */"five six"#);
}

#[test]
fn clear_comment__5() {
    let res = Pass::clear_comment(r#"one two '# three four'"#).unwrap();
    assert_eq!(res.as_str(), "one two '# three four'");
}

#[test]
fn clear_comment__6() {
    let res = Pass::clear_comment("one two/* \nthree four */five six").unwrap();
    assert_eq!(res.as_str(), "one two\nfive six");
}

#[test]
fn clear_comment__7() {
    let res = Pass::clear_comment("one two#/* three\nfour */five six").unwrap();
    assert_eq!(res.as_str(), "one two\nfour */five six");
}

#[test]
fn clear_comment__8() {
    let res = Pass::clear_comment("one two/* \n\n\nthree# four */five six").unwrap();
    assert_eq!(res.as_str(), "one two\n\n\nfive six");
}

#[test]
fn clear_comment__9() {
    let res = Pass::clear_comment("one two/* \n\n\nthree# four */'five six");
    assert_eq!(res, Err((4, ParseError::UnclosedString)));
}

#[test]
fn a() {
    let res = Pass::clear_comment("one two/* \n\n\nthree# four *//*five six");
    assert_eq!(res, Err((4, ParseError::UnclosedMultiLineComment)));
}

#[test]
fn b() {
    let res = Pass::clear_comment("one two\\/* \nthree four */five six").unwrap();
    assert_eq!(res.as_str(), "one two\\/* \nthree four */five six");
}

#[test]
fn c() {
    let res = Pass::clear_comment("one two\\# six#seven").unwrap();
    assert_eq!(res.as_str(), "one two\\# six");
}

#[test]
fn d() {
    let res = Pass::clear_comment("one two \\'# three four").unwrap();
    assert_eq!(res.as_str(), "one two \\'");
}

#[test]
fn e() {
    let res = Pass::clear_comment("one two \\\\'# three four'").unwrap();
    assert_eq!(res.as_str(), "one two \\\\'# three four'");
}

#[test]
fn clear_comment_keeps_line_count() {
    let input = "a # one\nb /* two\nthree */ c\n'd' /* e */ f\n";
    let res = Pass::clear_comment(input).unwrap();
    assert_eq!(res.matches('\n').count(), input.matches('\n').count());
}

#[test]
fn clear_comment_block_needs_adjacent_marks() {
    assert_eq!(Pass::clear_comment("a/b*c").unwrap().as_str(), "a/b*c");
    assert_eq!(Pass::clear_comment("a/*b*c/d*/e").unwrap().as_str(), "a e");
}

#[test]
fn clear_comment_string_open_at_line_end() {
    assert_eq!(Pass::clear_comment("x\nalice \"open\nmore"), Err((2, ParseError::UnclosedString)));
}

#[test]
fn clear_comment_unclosed_string_at_end() {
    assert_eq!(Pass::clear_comment("alice \"open"), Err((1, ParseError::UnclosedString)));
}

use simplerecords::{ParseError, Pass};

#[test]
fn split_args__1() {
    assert_eq!(
        Pass::split_args("abc def ghi"),
        Ok(vec!["abc".to_string(), "def".to_string(), "ghi".to_string()])
    )
}

#[test]
fn split_args__2() {
    assert_eq!(
        Pass::split_args("abc de\\f ghi"),
        Ok(vec!["abc".to_string(), "def".to_string(), "ghi".to_string()])
    )
}

#[test]
fn split_args__3() {
    assert_eq!(Pass::split_args("abc def\\ ghi"), Err(ParseError::IllegalArgument))
}

#[test]
fn split_args__4() {
    assert_eq!(
        Pass::split_args("abc 'def ghi'"),
        Ok(vec!["abc".to_string(), "def ghi".to_string(),])
    )
}

#[test]
fn split_args__5() {
    assert_eq!(
        Pass::split_args("abc 'def\\ ghi'"),
        Ok(vec!["abc".to_string(), "def ghi".to_string(),])
    )
}

#[test]
fn split_args__6() {
    assert_eq!(
        Pass::split_args("abc 'def\\' ghi'"),
        Ok(vec!["abc".to_string(), "def' ghi".to_string(),])
    )
}

#[test]
fn split_args__7() {
    assert_eq!(
        Pass::split_args("abc '12 34 56' `48 ' 9'7`"),
        Ok(vec![
            "abc".to_string(),
            "12 34 56".to_string(),
            "48 ' 9'7".to_string(),
        ])
    )
}

#[test]
fn split_args__8() {
    assert_eq!(
        Pass::split_args("    abc     '12 34 56'       `48 ' 9'7`"),
        Ok(vec![
            "abc".to_string(),
            "12 34 56".to_string(),
            "48 ' 9'7".to_string(),
        ])
    )
}

#[test]
fn split_args_text_after_closing_quote() {
    assert_eq!(Pass::split_args("'ab'c"), Err(ParseError::IllegalArgument));
}

#[test]
fn split_args_escaped_backslash() {
    assert_eq!(Pass::split_args("a\\\\b"), Ok(vec!["a\\b".to_string()]));
}

#[test]
fn split_args_empty() {
    assert_eq!(Pass::split_args(""), Ok(Vec::<String>::new()));
}

#[test]
fn split_args_keeps_empty_quoted_word() {
    assert_eq!(Pass::split_args("a \"\" b ''"), Ok(vec!["a".to_string(), "".to_string(), "b".to_string(), "".to_string()]));
}

use simplerecords::Pass;

#[test]
fn split_col__1() {
    assert_eq!(Pass::split_col("abcdef"), None);
}

#[test]
fn split_col__2() {
    assert_eq!(Pass::split_col("abcdef:"), Some(("abcdef".to_string(), "".to_string())));
}

#[test]
fn split_col__3() {
    assert_eq!(Pass::split_col("abcdef:ghi"), Some(("abcdef".to_string(), "ghi".to_string())));
}

#[test]
fn split_col__4() {
    assert_eq!(Pass::split_col(":"), Some(("".to_string(), "".to_string())));
}

#[test]
fn split_col__5() {
    assert_eq!(Pass::split_col("abcd:ef:ghi"), Some(("abcd".to_string(), "ef:ghi".to_string())));
}

#[test]
fn split_col__6() {
    assert_eq!(Pass::split_col("abc'd:ef':ghi"), Some(("abc'd:ef'".to_string(), "ghi".to_string())));
}

#[test]
fn split_col__7() {
    assert_eq!(
        Pass::split_col("abc\\'d:ef\\':ghi"),
        Some(("abc\\'d".to_string(), "ef\\':ghi".to_string()))
    );
}

#[test]
fn split_col__8() {
    assert_eq!(Pass::split_col("abcdef\\:ghi"), None);
}

#[test]
fn split_col__9() {
    assert_eq!(Pass::split_col("abcdef\\\\:ghi"), Some(("abcdef\\\\".to_string(), "ghi".to_string())));
}

use mdcode::parser_combinator::take_except;

#[test]
fn test_except_with_char() {
    let exception = |s: &str| s.starts_with('c');

    let input = "1234c";
    let expect_rest = "c";
    let expect_consumed = "1234";
    let (result_rest, result_consumed) = take_except(input, exception);
    assert_eq!(expect_rest, result_rest);
    assert_eq!(expect_consumed, result_consumed);

    let input = "12345";
    let expect_rest = "";
    let expect_consumed = "12345";
    let (result_rest, result_consumed) = take_except(input, exception);
    assert_eq!(expect_rest, result_rest);
    assert_eq!(expect_consumed, result_consumed);
}

#[test]
fn test_except_with_tag() {
    let exception = |s: &str| s.starts_with("test");

    let input = "1234test123";
    let expect_rest = "test123";
    let expect_consumed = "1234";
    let (result_rest, result_consumed) = take_except(input, exception);
    assert_eq!(expect_rest, result_rest);
    assert_eq!(expect_consumed, result_consumed);

    let input = "1234123";
    let expect_rest = "";
    let expect_consumed = "1234123";
    let (result_rest, result_consumed) = take_except(input, exception);
    assert_eq!(expect_rest, result_rest);
    assert_eq!(expect_consumed, result_consumed);
}

#[test]
fn test_except_with_tuple() {
    let exception = |s: &str| s.starts_with("test```test");

    let input = "1234test123test```test123";
    let expect_rest = "test```test123";
    let expect_consumed = "1234test123";
    let (result_rest, result_consumed) = take_except(input, exception);
    assert_eq!(expect_rest, result_rest);
    assert_eq!(expect_consumed, result_consumed);

    let input = "1234test123test``test123";
    let expect_rest = "";
    let expect_consumed = "1234test123test``test123";
    let (result_rest, result_consumed) = take_except(input, exception);
    assert_eq!(expect_rest, result_rest);
    assert_eq!(expect_consumed, result_consumed);
}

#[test]
fn test_except_empty_input() {
    let (rest, consumed) = take_except("", |s: &str| s.starts_with("eof"));
    assert_eq!(rest, "");
    assert_eq!(consumed, "");
}

#[test]
fn test_except_splits_cleanly() {
    let input = "hello, worldeof";
    let (rest, consumed) = take_except(input, |s: &str| s.starts_with("eof"));
    assert_eq!(rest, "eof");
    assert_eq!(consumed, "hello, world");
    let mut whole = consumed.to_string();
    whole.push_str(rest);
    assert_eq!(whole, input);
}

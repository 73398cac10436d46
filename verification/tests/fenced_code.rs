use mdcode::block::fenced_code::code_block;
use mdcode::types::Block::CodeBlock;

#[test]
fn fenced_code_test_commonmark_ex88_5() {
    let input = "```\n<\n >\n```\n";
    let want = CodeBlock(Some("".to_string()), "<\n >".to_string());
    let (input, result) = code_block(input).unwrap();
    assert_eq!(input, "");
    assert_eq!(want, result);
}

#[test]
fn fenced_code_test_commonmark_ex89() {
    let input = "```\n<\n >\n```";
    let want = CodeBlock(Some("".to_string()), "<\n >".to_string());
    let (input, result) = code_block(input).unwrap();
    assert_eq!(input, "");
    assert_eq!(want, result);
}

#[test]
fn fenced_code_test_commonmark_ex90() {
    let input = "~~~\n<\n >\n~~~";
    let want = CodeBlock(Some("".to_string()), "<\n >".to_string());
    let (input, result) = code_block(input).unwrap();
    assert_eq!(input, "");
    assert_eq!(want, result);
}

#[test]
fn fenced_code_test_commonmark_ex92() {
    let input = "```\naaa\n~~~\n```";
    let want = CodeBlock(Some("".to_string()), "aaa\n~~~".to_string());
    let (input, result) = code_block(input).unwrap();
    assert_eq!(input, "");
    assert_eq!(want, result);
}

#[test]
fn fenced_code_test_commonmark_ex93() {
    let input = "~~~\naaa\n```\n~~~";
    let want = CodeBlock(Some("".to_string()), "aaa\n```".to_string());
    let (input, result) = code_block(input).unwrap();
    assert_eq!(input, "");
    assert_eq!(want, result);
}

#[test]
fn fenced_code_test_commonmark_ex93_5() {
    let input = "````\naaa\n```\n``````\n";
    let want = CodeBlock(Some("".to_string()), "aaa\n```".to_string());
    let (input, result) = code_block(input).unwrap();
    assert_eq!(input, "");
    assert_eq!(want, result);
}

#[test]
fn fenced_code_test_commonmark_ex94() {
    let input = "````\naaa\n```\n``````";
    let want = CodeBlock(Some("".to_string()), "aaa\n```".to_string());
    let (input, result) = code_block(input).unwrap();
    assert_eq!(input, "");
    assert_eq!(want, result);
}

#[test]
fn fenced_code_test_commonmark_ex95() {
    let input = "~~~~\naaa\n~~~\n~~~~";
    let want = CodeBlock(Some("".to_string()), "aaa\n~~~".to_string());
    let (input, result) = code_block(input).unwrap();
    assert_eq!(input, "");
    assert_eq!(want, result);
}

#[test]
fn test_commonmark_ex96() {
    let input = "~~~~\naaa\n~~~\n";
    let want = CodeBlock(Some("".to_string()), "aaa\n~~~\n".to_string());
    let (input, result) = code_block(input).unwrap();
    assert_eq!(input, "");
    assert_eq!(want, result);
}

#[test]
fn test_commonmark_ex97() {
    let input = "`````\n\n```\naaa";
    let want = CodeBlock(Some("".to_string()), "\n```\naaa".to_string());
    let (input, result) = code_block(input).unwrap();
    assert_eq!(input, "");
    assert_eq!(want, result);
}

#[test]
fn test_commonmark_ex99() {
    let input = "```\n\n  \n```";
    let want = CodeBlock(Some("".to_string()), "\n  ".to_string());
    let (input, result) = code_block(input).unwrap();
    assert_eq!(input, "");
    assert_eq!(want, result);
}

#[test]
fn test_commonmark_ex100() {
    let input = "```\n```";
    let want = CodeBlock(Some("".to_string()), "".to_string());
    let (input, result) = code_block(input).unwrap();
    assert_eq!(input, "");
    assert_eq!(want, result);
}

#[test]
fn test_commonmark_ex101() {
    let input = " ```\n aaa\naaa\n```";
    let want = CodeBlock(Some("".to_string()), "aaa\naaa".to_string());
    let (input, result) = code_block(input).unwrap();
    assert_eq!(input, "");
    assert_eq!(want, result);
}

#[test]
fn test_commonmark_ex102() {
    let input = "  ```\naaa\n  aaa\naaa\n  ```";
    let want = CodeBlock(Some("".to_string()), "aaa\naaa\naaa".to_string());
    let (input, result) = code_block(input).unwrap();
    assert_eq!(input, "");
    assert_eq!(want, result);
}

#[test]
fn test_commonmark_ex103() {
    let input = "   ```\n   aaa\n    aaa\n  aaa\n   ```";
    let want = CodeBlock(Some("".to_string()), "aaa\n aaa\naaa".to_string());
    let (input, result) = code_block(input).unwrap();
    assert_eq!(input, "");
    assert_eq!(want, result);
}

#[test]
fn test_commonmark_ex105() {
    let input = "```\naaa\n  ```";
    let want = CodeBlock(Some("".to_string()), "aaa".to_string());
    let (input, result) = code_block(input).unwrap();
    assert_eq!(input, "");
    assert_eq!(want, result);
}

#[test]
fn test_commonmark_ex106() {
    let input = "   ```\naaa\n  ```";
    let want = CodeBlock(Some("".to_string()), "aaa".to_string());
    let (input, result) = code_block(input).unwrap();
    assert_eq!(input, "");
    assert_eq!(want, result);
}

#[test]
fn test_commonmark_ex107() {
    let input = "```\naaa\n    ```";
    let want = CodeBlock(Some("".to_string()), "aaa\n    ```".to_string());
    let (input, result) = code_block(input).unwrap();
    assert_eq!(input, "");
    assert_eq!(want, result);
}

#[test]
fn test_commonmark_ex109() {
    let input = "~~~~~~\naaa\n~~~ ~~";
    let want = CodeBlock(Some("".to_string()), "aaa\n~~~ ~~".to_string());
    let (input, result) = code_block(input).unwrap();
    assert_eq!(input, "");
    assert_eq!(want, result);
}

#[test]
fn test_commonmark_ex112() {
    let input = "```ruby\ndef foo(x)\n  return 3\nend\n```";
    let want = CodeBlock(Some("ruby".to_string()), "def foo(x)\n  return 3\nend".to_string());
    let (input, result) = code_block(input).unwrap();
    assert_eq!(input, "");
    assert_eq!(want, result);
}

#[test]
fn test_commonmark_ex113() {
    let input = "~~~~    ruby startline=3 $%@#$\ndef foo(x)\n  return 3\nend\n~~~~~~~";
    let want = CodeBlock(
        Some("ruby startline=3 $%@#$".to_string()),
        "def foo(x)\n  return 3\nend".to_string(),
    );
    let (input, result) = code_block(input).unwrap();
    assert_eq!(input, "");
    assert_eq!(want, result);
}

#[test]
fn test_commonmark_ex114() {
    let input = "````;\n````";
    let want = CodeBlock(Some(";".to_string()), "".to_string());
    let (input, result) = code_block(input).unwrap();
    assert_eq!(input, "");
    assert_eq!(want, result);
}

#[test]
fn test_commonmark_ex115() {
    let input = "``` aa ```\nfoo";
    let want = CodeBlock(Some("aa".to_string()), "foo".to_string());
    let (input, result) = code_block(input).unwrap();
    assert_eq!(input, "");
    assert_eq!(want, result);
}

#[test]
fn test_commonmark_ex116() {
    let input = "~~~ aa ~~~\nfoo";
    let want = CodeBlock(Some("aa".to_string()), "foo".to_string());
    let (input, result) = code_block(input).unwrap();
    assert_eq!(input, "");
    assert_eq!(want, result);
}

#[test]
fn test_commonmark_ex117() {
    let input = "```\n``` aaa\n```";
    let want = CodeBlock(Some("".to_string()), "``` aaa".to_string());
    let (input, result) = code_block(input).unwrap();
    assert_eq!(input, "");
    assert_eq!(want, result);
}

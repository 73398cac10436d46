use mdcode::block::indented_code::indented_code_block;
use mdcode::types::Block::CodeBlock;

#[test]
fn test_commonmark_ex77() {
    let input = "    a simple\n      indented code block";
    let want = CodeBlock(None, "a simple\n  indented code block".to_string());
    let (input, result) = indented_code_block(input).unwrap();
    assert_eq!(input, "");
    assert_eq!(want, result);
}

#[test]
fn test_commonmark_ex80() {
    let input = "    <a/>\n    *hi*\n\n    - one";
    let want = CodeBlock(None, "<a/>\n*hi*\n\n- one".to_string());
    let (input, result) = indented_code_block(input).unwrap();
    assert_eq!(input, "");
    assert_eq!(want, result);
}

#[test]
fn test_commonmark_ex81() {
    let input = "    chunk1\n\n    chunk2\n  \n \n \n    chunk3\n";
    let want = CodeBlock(None, "chunk1\n\nchunk2\n\n\n\nchunk3\n".to_string());
    let (input, result) = indented_code_block(input).unwrap();
    assert_eq!(input, "");
    assert_eq!(want, result);
}

#[test]
fn test_commonmark_ex82() {
    let input = "    chunk1\n      \n      chunk2";
    let want = CodeBlock(None, "chunk1\n  \n  chunk2".to_string());
    let (input, result) = indented_code_block(input).unwrap();
    assert_eq!(input, "");
    assert_eq!(want, result);
}

#[test]
fn test_commonmark_ex84() {
    let input = "    foo\nbar";
    let want = CodeBlock(None, "foo\n".to_string());
    let (input, result) = indented_code_block(input).unwrap();
    assert_eq!(input, "bar");
    assert_eq!(want, result);
}

#[test]
fn test_commonmark_ex86() {
    let input = "        foo\n    bar";
    let want = CodeBlock(None, "    foo\nbar".to_string());
    let (input, result) = indented_code_block(input).unwrap();
    assert_eq!(input, "");
    assert_eq!(want, result);
}

#[test]
fn test_commonmark_ex88() {
    let input = "    foo  ";
    let want = CodeBlock(None, "foo  ".to_string());
    let (input, result) = indented_code_block(input).unwrap();
    assert_eq!(input, "");
    assert_eq!(want, result);
}

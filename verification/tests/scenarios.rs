use mdcode::block::fenced_code::code_block;
use mdcode::block::indented_code::{blanklines, indented_chunk, indented_code_block};
use mdcode::types::Block::CodeBlock;
use mdcode::types::NoMatch;

#[test]
fn test_unterminated_fence() {
    let input = "```\naaa";
    let want = CodeBlock(Some("".to_string()), "aaa".to_string());
    let (rest, result) = code_block(input).unwrap();
    assert_eq!(rest, "");
    assert_eq!(want, result);
}

#[test]
fn test_blank_run_preserved() {
    let input = "    chunk1\n\n    chunk2";
    let want = CodeBlock(None, "chunk1\n\nchunk2".to_string());
    let (rest, result) = indented_code_block(input).unwrap();
    assert_eq!(rest, "");
    assert_eq!(want, result);
}

#[test]
fn test_fenced_no_match_plain_text() {
    assert_eq!(code_block("hello"), Err(NoMatch));
}

#[test]
fn test_fenced_no_match_short_fence() {
    assert_eq!(code_block("``x\n``"), Err(NoMatch));
}

#[test]
fn test_fenced_no_match_four_space_indent() {
    assert_eq!(code_block("    ```\ncode\n```"), Err(NoMatch));
}

#[test]
fn test_fenced_no_match_empty() {
    assert_eq!(code_block(""), Err(NoMatch));
}

#[test]
fn test_fenced_close_with_trailing_spaces() {
    let input = "```\nx\n```   ";
    let want = CodeBlock(Some("".to_string()), "x".to_string());
    let (rest, result) = code_block(input).unwrap();
    assert_eq!(rest, "");
    assert_eq!(want, result);
}

#[test]
fn test_fenced_remainder_after_close() {
    let input = "```\nx\n```\nnext line";
    let want = CodeBlock(Some("".to_string()), "x".to_string());
    let (rest, result) = code_block(input).unwrap();
    assert_eq!(rest, "next line");
    assert_eq!(want, result);
}

#[test]
fn test_indented_no_match_three_spaces() {
    assert_eq!(indented_code_block("   three\n"), Err(NoMatch));
}

#[test]
fn test_indented_no_match_empty() {
    assert_eq!(indented_code_block(""), Err(NoMatch));
}

#[test]
fn test_indented_trailing_blanks_before_text() {
    let input = "    foo\n\n\nbar";
    let want = CodeBlock(None, "foo\n".to_string());
    let (rest, result) = indented_code_block(input).unwrap();
    assert_eq!(rest, "\n\nbar");
    assert_eq!(want, result);
}

#[test]
fn test_indented_trailing_blanks_at_end() {
    let input = "    foo\n\n";
    let want = CodeBlock(None, "foo\n\n".to_string());
    let (rest, result) = indented_code_block(input).unwrap();
    assert_eq!(rest, "");
    assert_eq!(want, result);
}

#[test]
fn test_indented_chunk_two_lines() {
    let input = "    foo\n      bar\nqux";
    let (rest, content) = indented_chunk(input).unwrap();
    assert_eq!(rest, "qux");
    assert_eq!(content, "foo\n  bar\n");
}

#[test]
fn test_indented_chunk_no_match() {
    assert_eq!(indented_chunk("foo"), Err(NoMatch));
}

#[test]
fn test_blanklines_counts_run() {
    let (rest, count) = blanklines("  \n\n  x");
    assert_eq!(count, 2);
    assert_eq!(rest, "  x");
}

#[test]
fn test_blanklines_none() {
    let (rest, count) = blanklines("x\n\n");
    assert_eq!(count, 0);
    assert_eq!(rest, "x\n\n");
}

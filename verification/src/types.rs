use vstd::prelude::*;

verus! {

/// A block-level node of the document tree. The code-block recognizers in
/// `crate::block` produce the `CodeBlock` variant; the other variants are
/// produced by the surrounding document assembler.
#[derive(Debug, PartialEq, Eq)]
pub enum Block {
    Header(Vec<Inline>, usize),
    Paragraph(Vec<Inline>),
    Blockquote(Vec<Block>),
    /// A code block: the optional info string (`None` for indented code
    /// blocks) and the de-indented content.
    CodeBlock(Option<String>, String),
    LinkRefence(String, String, Option<String>),
    List(Vec<ListItem>, ListType),
    Formula(String),
    HorizontalRule,
}

#[derive(Debug, PartialEq, Eq)]
pub enum ListItem {
    TaskListItem(Vec<Block>, bool),
    OrderedListItem(Vec<Block>, usize),
    UnorderedListItem(Vec<Block>),
}

#[derive(Debug, PartialEq, Eq)]
pub enum ListType {
    TaskList,
    OrderedList,
    UnorderedList,
}

/// An inline-level node, carried inside block nodes.
#[derive(Debug, PartialEq, Eq)]
pub enum Inline {
    Break,
    Text(String),
    Code(String),
    Literal(char),
    Link(Vec<Inline>, String, Option<String>),
    RefLink(Vec<Inline>, String, String),
    Image(String, String, Option<String>),
    Emphasis(Vec<Inline>),
    Strong(Vec<Inline>),
    Formula(String),
    AutoLink(String),
    Strike(Vec<Inline>),
    Subscript(Vec<Inline>),
    Superscript(Vec<Inline>),
    RawHTML(String),
}

/// The one failure a recognizer can report: the input does not begin with
/// this block type. Recognition is tried in priority order by the caller, so
/// this is expected, recoverable control flow.
#[derive(Debug, PartialEq, Eq, Clone, Copy)]
pub struct NoMatch;

} // verus!

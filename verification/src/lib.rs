pub mod block;
pub mod chars;
pub mod inline;
pub mod parser_combinator;
pub mod types;

pub mod fenced_code;
pub mod indented_code;

pub use fenced_code::code_block;

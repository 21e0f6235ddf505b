pub mod tree;

pub use crate::lexer;
pub use crate::parser;

pub mod text;
pub mod lexer;
pub mod parser;
pub mod interpreter;
pub mod frontend;
pub mod compiler;

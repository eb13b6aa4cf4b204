pub mod error;
pub mod line;
pub mod old_line;
pub mod lex;
pub mod parse;
pub mod process;
pub mod strutil;

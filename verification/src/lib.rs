pub mod ast;
pub mod span;
pub mod text;
pub mod lexer;
pub mod trivia;
pub mod parser;
pub mod pretty_print;
pub mod symbol;
pub mod scope;
pub mod circomlib_docs;
pub mod formatter;
pub mod incremental;
pub mod symbol_table;
pub mod constraint_checker;
pub mod server;
pub mod laws;

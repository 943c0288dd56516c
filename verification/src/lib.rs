pub mod builtin;
pub mod builtins;
pub mod env;
pub mod escapes;
pub mod lexer;
pub mod line;
pub mod parser;
pub mod plan;
pub mod process;
pub mod properties;
pub mod text;

pub mod ast;
pub mod eval;
pub mod lexer;
pub mod parser;
pub mod runtime;
pub mod soundness;
pub mod typecheck;
pub mod types;
pub mod inference;

pub mod ast;
pub mod cfg;
pub mod cfg_runs;
pub mod dataflow;
pub mod eval;
pub mod fixed_point;
pub mod graph_runs;
pub mod lexer;
pub mod optimizations;
pub mod parser;
pub mod pretty;
pub mod printed;
pub mod round_trip;
pub mod runtime;
pub mod sets;

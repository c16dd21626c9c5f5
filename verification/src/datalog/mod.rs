pub mod types;
pub mod lexer;
pub mod parser;
pub mod locations;
pub mod labels;
pub mod binding;
pub mod builtins;
pub mod store;
pub mod globs;
pub mod semantics;
pub mod resolve_output;
pub mod engine;
pub mod eval;
pub mod validate;
pub mod query;
pub mod laws;

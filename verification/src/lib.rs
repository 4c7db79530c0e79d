//! A small compiler pipeline: lexer, SLR(1) parser, semantic passes and WAT code generation.
pub mod grammar;
pub mod bits;
pub mod follows;
pub mod productions;
pub mod table;
pub mod text;
pub mod token;
pub mod lexer;
pub mod tree;
pub mod parser;
pub mod trim;
pub mod scope;
pub mod ast;
pub mod extract;
pub mod typecheck;
pub mod codegen;
pub mod gen_laws;
pub mod stdlib;
pub mod pipeline;
pub mod wasm;
pub mod visual;
pub mod token_drawing;
pub mod errors;
pub mod budget;

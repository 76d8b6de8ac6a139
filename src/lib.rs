//! Grammar-based fuzzing: load context-free grammars, normalize them into a
//! form where every rule starts with a terminal, and work with derivation
//! sequences (mutation, serialization, unparsing) either directly or through
//! generated C code.

pub mod cfg;
pub mod text;
pub mod parser;
pub mod error;
pub mod builder;
pub mod lowlevel;
pub mod generator;
pub mod interpreter;
pub mod formatter;
pub mod codegen;
pub mod components;
pub mod json_backend;
pub mod automaton;

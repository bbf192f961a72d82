//! A configurable assembler generator.
//!
//! A textual configuration defines, per mnemonic, one or more surface
//! syntaxes together with the binary encoding each syntax compiles to.
//! The config compiler turns that text into a merged deterministic
//! automaton per mnemonic with an encoding template at every accepting
//! state; the assembler then drives those automatons over tokenized
//! source lines, captures operand values, and evaluates the matching
//! template into concrete bytes.
#![allow(unused_imports)]
#![verifier::loop_isolation(false)]

pub mod config;
pub mod laws;
pub mod lexer;
pub mod log;
pub mod parser;
pub mod text;

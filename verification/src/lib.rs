//! A small ahead-of-time compiler for a minimal pointer-arithmetic language.
//!
//! The pipeline has three stages: lexical analysis ([`token`]), recursive
//! descent parsing into a syntax tree ([`parser`]), and single-pass code
//! generation through a pluggable emitter ([`codegen`]).

pub mod codegen;
pub mod parser;
pub mod token;

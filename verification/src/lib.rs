//! Lexical analysis of arithmetic expressions extended with a generic
//! function-call syntax `name<arg1,arg2,...>`, where every argument slot is
//! itself a fully tokenized sequence that may hold nested calls.

pub mod round_trip;
pub mod token;
pub mod tokenizer;

//! A Lisp interpreter for on-chain policy evaluation, with verified
//! parsing, evaluation and cross-contract-call scheduling.

pub mod text;
pub mod types;
pub mod display;
pub mod helpers;
pub mod parser;
pub mod near;
pub mod dict;
pub mod stdlib;
pub mod hex;
pub mod builtins;
pub mod json;
pub mod bytecode;
pub mod effects;
pub mod prims;
pub mod eval;
pub mod vm;
pub mod batch;
pub mod contract;
pub mod repl;


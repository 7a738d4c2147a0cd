//! An embedded, in-process typed relational store driven by a small textual
//! command language, together with a handful of verified utility algorithms.
//!
//! The store keeps tagged runtime values (booleans, 64-bit integers, IEEE-754
//! doubles carried as their bit patterns, strings) in tables addressed by a
//! typed key, filters rows with a small boolean/arithmetic expression language
//! (parsed by precedence into a postfix instruction stream and run on an
//! explicit stack), and records every successfully executed data command in an
//! append-only replay log.

pub mod commands;
pub mod errors;
pub mod float_bits;
pub mod iter_algos;
pub mod laws;
pub mod num_algos;
pub mod storage;
pub mod string_pair;
pub mod strmap;
pub mod text;
pub mod tokenizer;
pub mod values;
pub mod where_parsing;

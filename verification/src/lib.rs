//! A lazy columnar execution and timing harness.
//!
//! The crate ingests partitioned columnar data into an in-memory [`table::Table`],
//! builds deferred operation plans over it ([`plan::Plan`]), evaluates a plan
//! exactly once into a materialized table ([`eval`]), and measures the elapsed
//! wall-clock time of the evaluation alone ([`eval::execute`]). A small driver
//! runs a fixed suite of relational scenarios ([`scenarios`]).

pub mod agg;
pub mod clock;
pub mod dict;
pub mod errors;
pub mod eval;
pub mod join;
pub mod maps;
pub mod ops;
pub mod plan;
pub mod pred;
pub mod reader;
pub mod scenarios;
pub mod seqs;
pub mod table;
pub mod value;

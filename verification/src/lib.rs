//! Core of an embedded analytical query engine over columnar, adaptively
//! encoded in-memory data: a plan compiler and executor for expression trees
//! over dynamically typed columns, a codec layer whose algebraic guarantees
//! (order preservation, summation preservation) justify executing work on
//! encoded data, row filtering, stable sorting for `ORDER BY`, and grouped
//! aggregation.

pub mod vals;
pub mod codec;
pub mod column;
pub mod typed_vec;
pub mod filter;
pub mod expr;
pub mod plan;
pub mod grouping;
pub mod query;

//! Converts a token-per-line entity-linking corpus into per-document records
//! with character-offset mentions joined against a title table.
//!
//! The corpus is a sequence of tab-separated lines with document boundaries
//! among them. `parser` classifies the lines and routes the tokens to the
//! `Train`, `Validation` and `Test` partitions; `mapping` builds the table
//! from titles to identifiers; `dataset` regroups the tokens of a partition
//! into documents and mentions; `columns` lays a dataset out column by
//! column; `pipeline` runs the stages in order.
//!
//! `routing`, `resolution`, `spans` and `outcomes` hold what is proved of the
//! stages beyond the contracts of their functions.

pub mod boundary;
pub mod columns;
pub mod dataset;
pub mod ident;
pub mod mapping;
pub mod normalize;
pub mod outcomes;
pub mod parser;
pub mod pipeline;
pub mod resolution;
pub mod routing;
pub mod spans;
pub mod text;
pub mod titles;
pub mod token;

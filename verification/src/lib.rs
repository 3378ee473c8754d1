//! Funding graphs over a chain of blocks: a directed graph whose nodes are
//! transaction identifiers and whose edges lead from a transaction to each
//! transaction that spends one of its outputs.

pub mod ident;
pub mod index;
pub mod graph;
pub mod source;
pub mod builder;
pub mod theorems;
pub mod meaning;

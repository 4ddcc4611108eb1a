//! Verified graph kernel: CSR storage with micro-sharding, a delta layer for
//! live edge mutations, breadth-first traversals, ontology schemas, and the
//! decision logic of the query-engine operators built on top of them.

#![allow(unused_imports)]

pub mod text;
pub mod types;
pub mod error;
pub mod delta;
pub mod csr;
pub mod compaction;
pub mod bitset;
pub mod simd;
pub mod traversal;
pub mod bfs;
pub mod dobfs;
pub mod circuit_breaker;
pub mod gen;
pub mod ontology;
pub mod dictionary;
pub mod engine;
pub mod build_exec;
pub mod traversal_exec;
pub mod catalog;
pub mod provider;
pub mod loader;
pub mod ffi;

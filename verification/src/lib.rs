//! Execution core of a concatenative rewriting language: a fixed-capacity
//! generational heap with mark-sweep collection, and a fuel-bounded
//! term-rewriting machine, together with a textual parser, a pretty-printer
//! and a session layer that keeps a dictionary of named definitions.
//!
//! Terms are heap-resident: `heap` holds the slot table, the typed
//! constructors and accessors, and the collector, with every pointer
//! revalidated by generation stamp on each access. A term denotes the
//! sequence of its leaves (`atom`); the abstract machine over those
//! sequences (`semantics`) is what the executable machine (`machine`) is
//! verified against, one fuel unit per step. `text` parses source into terms
//! and renders terms back; `pod` drives parse, reduce, render and collection
//! one line at a time against the binding dictionary (`dict`); `laws` states
//! and proves the properties that relate several of these operations.

pub mod atom;
pub mod dict;
pub mod error;
pub mod heap;
pub mod laws;
pub mod machine;
pub mod pod;
pub mod semantics;
pub mod strutil;
pub mod text;

pub use error::Error;

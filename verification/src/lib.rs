//! A dispatch-and-write engine for tabular data: typed cells flow from a
//! sequential producer into disjoint row partitions of one preallocated
//! destination buffer.

pub mod data_sources;
pub mod dispatcher;
pub mod errors;
pub mod grid;
pub mod layout;
pub mod types;
pub mod writers;

//! Destinations: one shared buffer and the disjoint views that fill it.

pub mod dummy;

//! Lending iterators that are made from values.

pub mod once;

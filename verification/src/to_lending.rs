//! Lending iterators that are made from plain iterators.

pub mod into_lending;
pub mod lend_refs;
pub mod lend_refs_mut;
pub mod windows;
pub mod windows_mut;

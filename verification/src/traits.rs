//! The traits: the iteration trait itself, what is built on it, and what
//! an iterator may offer beyond it.

pub mod compare;
pub mod cursor;
pub mod exact_size;
pub mod functions;
pub mod lending_iterator;
pub mod marker;
pub mod to_lending_iterator;

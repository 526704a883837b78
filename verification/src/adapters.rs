//! Lending iterators that are made from other lending iterators.

pub mod chain;
pub mod cloned;
pub mod enumerate;
pub mod filter;
pub mod filter_map;
pub mod intersperse;
pub mod map;
pub mod peekable;
pub mod skip;
pub mod skip_while;
pub mod step_by;
pub mod take;
pub mod take_while;
pub mod zip;

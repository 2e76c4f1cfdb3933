//! What a search strategy offers to its callers.

pub mod algorithm;

pub use algorithm::Algorithm;

//! The event trace that the analysis works on.

pub mod bintrace;

//! The block-at-a-time searches.
pub mod x86;
pub mod aarch64;

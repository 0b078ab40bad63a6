//! Searching byte slices for any of a small set of bytes, or for a
//! substring, with every search proved against a specification.
pub mod agreement;
pub mod fallback;
pub mod matching;
pub mod simd;

//! Extraction of PNG images embedded in arbitrary binary data.
//!
//! A [`search::PngSearch`] consumes a byte stream one byte at a time, looks
//! for the PNG signature and for the end-of-image marker, and hands out every
//! delimited span as an [`search::Artifact`].

pub mod matching;
pub mod model;
pub mod naming;
pub mod paths;
pub mod search;
pub mod signature;
pub mod theorems;

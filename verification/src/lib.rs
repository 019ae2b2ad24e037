//! Structured-record protocol core: the record value model, its text and
//! binary codecs, sparse deltas between embedding vectors, and lossy
//! quantization of embedding vectors.
//!
//! Floating-point data is carried as IEEE-754 bit patterns (`u32` for
//! single precision, `u64` for double precision), so every operation here is
//! exact integer computation.

pub mod api;
pub mod binary;
pub mod delta;
pub mod envelope;
pub mod outside;
pub mod quant;
pub mod routing;
pub mod strings;
pub mod text;
pub mod transport;
pub mod value;
pub mod vector;
pub mod wire;

//! A lossless compressor for short text, built on a fixed word dictionary,
//! a fixed table of 128 two-byte bigrams, and an escape mechanism for
//! arbitrary bytes.
//!
//! The wire format interleaves self-delimiting tokens in one byte stream;
//! [`model`] states what the encoder emits and the decoder reads back,
//! [`compressor`] holds the executable engine verified against that model,
//! and [`laws`] proves the format's guarantees: every encoded stream
//! parses back without error, and decoding undoes encoding whenever the
//! whitespace the encoder elides is exactly a space.

pub mod compressor;
pub mod error;
pub mod laws;
pub mod model;

pub use compressor::Compressor;
pub use error::SmazError;

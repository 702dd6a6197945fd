//! A least-significant-bit steganography codec.
//!
//! The library hides an encrypted byte payload in the LSBs of an image's
//! color channels, three bits per pixel, and recovers it again. The image is
//! modelled as a plain pixel buffer (`dot_matrix::DotMatrix`); the cipher is
//! AES-256-CBC provided by an outside crate behind trusted wrappers.

pub mod binary;
pub mod cypher;
pub mod dot_matrix;
pub mod errors;

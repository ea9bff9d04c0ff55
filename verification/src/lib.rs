//! Obfuscation of JSON documents: every leaf value and every object key is
//! replaced by random data of the same kind and size, and equal originals
//! always receive the same replacement.

pub mod json;
pub mod laws;
pub mod model;
pub mod object;
pub mod obfuscate;
pub mod random;
pub mod tables;

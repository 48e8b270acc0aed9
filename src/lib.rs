//! Module fingerprinting and rename planning for hardware-description sources.
//!
//! The library works on a plain description of each parsed file: its lexical
//! units in document order, the spans that are whitespace or comments, and the
//! identifiers of module declarations and instantiations. From these it
//! computes a salted checksum per module and a table of every identifier span
//! that a uniquifying rewrite has to replace.

mod checksum;
pub mod config;
pub mod fingerprint;
pub mod laws;
pub mod plan;

pub use checksum::crc32_cksum;

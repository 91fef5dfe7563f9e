//! Bit-level decoding of fixed-layout protocol headers, with the DNS message
//! header as the worked format, and a small parser for coordinate-pair lines.
pub mod bits;
pub mod error;
pub mod header;
pub mod text;

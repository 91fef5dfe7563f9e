//! The errors of bit reading and header decoding. Each carries what is needed
//! to see what went wrong without decoding again.
use vstd::prelude::*;

verus! {

/// Why bits could not be read or a header could not be decoded.
#[derive(Clone, Copy, Debug, PartialEq, Eq, Structural)]
pub enum ParseError {
    /// A field needed `needed` bits and only `available` were left.
    InsufficientInput { needed: usize, available: usize },
    /// A fixed bit pattern was expected and other bits were found.
    PatternMismatch { expected: u16, found: u16 },
    /// The four-bit opcode field held a code outside the defined set.
    UnknownOpcode(u8),
    /// The four-bit response code field held a code outside the defined set.
    UnknownResponseCode(u8),
    /// A must-be-zero bit, at this absolute bit position, was one.
    ReservedBitsNonzero { position: usize },
}

} // verus!

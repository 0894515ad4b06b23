//! The failures that the library reports.
use vstd::prelude::*;

verus! {

/// Why an operation on a carrier, a key or an envelope failed.
#[derive(Debug, Clone, Copy, PartialEq, Eq, Structural)]
pub enum SteganoError {
    /// The carrier is not in the expected format: not a PDF, no end marker,
    /// or a pixel buffer whose size does not match its dimensions.
    CarrierFormat,
    /// The payload does not fit the carrier, or the carrier cannot even hold
    /// the length prefix.
    Capacity,
    /// The length recorded in the carrier does not fit what the carrier holds.
    Corruption,
    /// A key of the wrong size.
    InvalidKey,
    /// The cipher refused the plaintext.
    Encryption,
    /// The envelope is malformed or does not authenticate under the key.
    Decryption,
}

} // verus!

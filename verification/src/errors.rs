//! The typed errors that the codec returns.

use vstd::prelude::*;

verus! {

/// Every failure of the codec, reported to the immediate caller.
/// None of these are logged or swallowed inside the library.
#[derive(Clone, Copy, Debug, PartialEq, Eq, Structural)]
pub enum StegError {
    /// The message holds a character outside the single-byte range.
    NonAsciiMessage,
    /// The password holds a character outside the single-byte range.
    NonAsciiPassword,
    /// The password is shorter than eight characters.
    PasswordTooShort,
    /// The encrypted, terminated payload does not fit in the image.
    MessageTooLong,
    /// The cipher refused to decrypt the recovered bytes.
    CipherFailure,
    /// The decrypted bytes are not valid UTF-8.
    InvalidUtf8,
    /// The image was exhausted before a terminator byte appeared.
    NothingHidden,
    /// A bit sequence of more than eight bits cannot form one byte.
    BitSequenceTooLong,
    /// A binary string of a length other than eight cannot form one byte.
    BadBitStringLength,
    /// The cursor was asked to advance past the final pixel.
    NoMorePixels,
}

} // verus!

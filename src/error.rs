use vstd::prelude::*;

verus! {

/// The ways a decode can fail. Every one of them is terminal.
#[derive(Clone, Copy, Debug, PartialEq, Eq, Structural)]
pub enum DecodeError {
    /// The data ended before a field or record was complete.
    UnexpectedEof,
    /// The bytes of a string are not valid UTF-8.
    InvalidEncoding,
    /// The compressed stream breaks the deflate format.
    CorruptStream,
}

} // verus!

use vstd::prelude::*;

verus! {

/// A failure while decoding a byte buffer into a command.
///
/// Every decoding error is a local parse failure surfaced to the caller;
/// nothing is silently recovered or defaulted.
#[derive(Clone, Copy, Debug, PartialEq, Eq)]
pub enum Error {
    /// The buffer holds no null terminator where a string was expected, a
    /// string region is not valid UTF-8, or the type-tag block does not start
    /// with a comma.
    MalformedMessage,
    /// An argument's type-tag character is not one of 's', 'i', 'f', 'b'.
    /// Carries the offending character.
    UnsupportedType(char),
    /// Fewer bytes remain than a fixed-size or length-prefixed field, or the
    /// padding after a field, requires.
    TruncatedBuffer,
}

} // verus!

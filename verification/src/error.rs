//! The error of a stream that cannot be decoded.

use vstd::prelude::*;

verus! {

/// Why a stream cannot be decoded any further.
#[derive(Debug, Clone, Copy, PartialEq, Eq, Structural)]
pub enum FrameError {
    /// A size prefix has a fourth continuation byte, so it announces a
    /// payload of `2^28` bytes or more.
    PrefixTooLong,
}

impl FrameError {
    /// What went wrong, in words.
    pub fn message(&self) -> (text: &'static str)
        ensures
            text@ == "size prefix announces a payload of 268435456 bytes or more"@,
    {
        match self {
            FrameError::PrefixTooLong => "size prefix announces a payload of 268435456 bytes or more",
        }
    }
}

} // verus!

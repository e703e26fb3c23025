use vstd::prelude::*;

verus! {

/// The ways in which encoding or decoding a message can fail.
#[derive(Clone, Copy, Debug, PartialEq, Eq, Structural)]
pub enum CodecError {
    /// A read, write or range would reach past the last byte of the buffer.
    BufferBounds,
    /// A name made more compression jumps than the decoder allows.
    JumpLimitExceeded,
    /// A label of a name to encode is longer than 63 bytes.
    LabelTooLong,
}

impl CodecError {
    /// A short description of the failure for log lines.
    pub fn message(&self) -> (s: String)
        ensures
            s@ == match *self {
                CodecError::BufferBounds => "End of buffer"@,
                CodecError::JumpLimitExceeded => "Limit of 5 jumps exceeded"@,
                CodecError::LabelTooLong => "Label is too long and exceeds 63 characters"@,
            },
    {
        match self {
            CodecError::BufferBounds => "End of buffer".to_owned(),
            CodecError::JumpLimitExceeded => "Limit of 5 jumps exceeded".to_owned(),
            CodecError::LabelTooLong => "Label is too long and exceeds 63 characters".to_owned(),
        }
    }
}

} // verus!

//! Error kinds of the protocol layer.

use vstd::prelude::*;

verus! {

/// The error kinds of the codec.
///
/// `Decode` marks malformed or protocol-violating bytes and is fatal to the
/// connection: there is no byte-level resynchronization. `Encode` marks an
/// outgoing frame whose shape cannot be written under the selected protocol
/// generation; the caller may discard the frame and continue. `ProtocolMismatch`
/// marks a frame kind that belongs to the newer generation arriving while the
/// older one is negotiated.
#[derive(Clone, Copy, PartialEq, Eq, Structural, Debug)]
pub enum RedisError {
    Decode,
    Encode,
    ProtocolMismatch,
}

impl RedisError {
    /// A short human-readable name for the error kind.
    pub fn describe(&self) -> (r: &'static str)
        ensures
            *self is Decode ==> r@ == "malformed bytes"@,
            *self is Encode ==> r@ == "invalid frame shape"@,
            *self is ProtocolMismatch ==> r@ == "protocol version mismatch"@,
    {
        match self {
            RedisError::Decode => "malformed bytes",
            RedisError::Encode => "invalid frame shape",
            RedisError::ProtocolMismatch => "protocol version mismatch",
        }
    }
}

} // verus!

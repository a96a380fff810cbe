use vstd::prelude::*;

verus! {

/// Why a handshake was rejected: a request that could not be understood, a
/// token that did not match the shared secret, or a name over the length cap.
#[derive(Clone, Copy, Debug, PartialEq, Eq, Structural)]
pub enum HandshakeError {
    Protocol,
    Auth,
    Validation,
}

/// An application payload that does not decode as any expected message.
#[derive(Clone, Copy, Debug, PartialEq, Eq, Structural)]
pub struct CodecError;

} // verus!

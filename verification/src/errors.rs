//! The error taxonomy of the node engine.

use vstd::prelude::*;

verus! {

/// Why an operation was rejected or failed.
#[derive(Clone, Copy, PartialEq, Eq, Structural, Debug)]
pub enum NodeError {
    /// An envelope or transaction signature did not verify.
    AuthenticationFailure,
    /// The sender address has no entry in the peer registry.
    UnknownPeer,
    /// Bytes did not decode to the expected value shape.
    MalformedPayload,
    /// The underlying key-value store reported a failure.
    StorageFailure,
    /// No local secret key is stored, or the stored bytes are not a valid key.
    MissingLocalKey,
}

impl NodeError {
    /// A short diagnostic label for the error.
    pub fn label(&self) -> (r: &'static str)
        ensures
            r@ == self.label_spec(),
    {
        match self {
            NodeError::AuthenticationFailure => "authentication failure",
            NodeError::UnknownPeer => "unknown peer",
            NodeError::MalformedPayload => "malformed payload",
            NodeError::StorageFailure => "storage failure",
            NodeError::MissingLocalKey => "missing local key",
        }
    }

    /// The label of each error variant.
    pub open spec fn label_spec(self) -> Seq<char> {
        match self {
            NodeError::AuthenticationFailure => "authentication failure"@,
            NodeError::UnknownPeer => "unknown peer"@,
            NodeError::MalformedPayload => "malformed payload"@,
            NodeError::StorageFailure => "storage failure"@,
            NodeError::MissingLocalKey => "missing local key"@,
        }
    }
}

} // verus!

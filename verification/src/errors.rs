use vstd::prelude::*;

verus! {

/// Every failure a node operation can report.
#[derive(Clone, Copy, Debug, PartialEq, Eq, Structural)]
pub enum ChainError {
    /// A required request field is absent.
    MissingParameter,
    /// A request field does not parse as the expected integer.
    InvalidParameter,
    /// The proof-of-work puzzle was asked about a prior proof it is not
    /// defined for.
    InvalidProof,
    /// The stored chain's last payload does not decode: the local state
    /// itself is inconsistent.
    CorruptChainState,
    /// A peer could not be fetched or its answer could not be decoded.
    PeerUnreachable,
}

impl ChainError {
    /// A short description, one per variant.
    pub fn message(&self) -> (r: &'static str)
        ensures
            *self == ChainError::MissingParameter ==> r@ == "missing parameter"@,
            *self == ChainError::InvalidParameter ==> r@ == "invalid parameter"@,
            *self == ChainError::InvalidProof ==> r@ == "invalid proof"@,
            *self == ChainError::CorruptChainState ==> r@ == "corrupt chain state"@,
            *self == ChainError::PeerUnreachable ==> r@ == "peer unreachable"@,
    {
        match self {
            ChainError::MissingParameter => "missing parameter",
            ChainError::InvalidParameter => "invalid parameter",
            ChainError::InvalidProof => "invalid proof",
            ChainError::CorruptChainState => "corrupt chain state",
            ChainError::PeerUnreachable => "peer unreachable",
        }
    }
}

} // verus!

//! Error types of the codec, the transport and the resolver.
use vstd::prelude::*;

verus! {

/// Why a message or a name could not be encoded or decoded.
#[derive(Debug, Clone, Copy, PartialEq, Eq, Structural)]
pub enum CodecError {
    /// The buffer ends in the middle of a field.
    Truncated,
    /// The header's section counts disagree with the records present.
    CountMismatch,
    /// A compression pointer leads back to a position already read.
    CompressionLoop,
    /// A name breaks the label rules (empty label, label over 63 bytes,
    /// over 255 bytes encoded, or a reserved label kind on the wire).
    InvalidName,
}

/// Why the UDP round trip failed.
#[derive(Debug, Clone, Copy, PartialEq, Eq, Structural)]
pub enum TransportError {
    BindFailed,
    SendFailed,
    Timeout,
}

/// Why a lookup produced no address list.
#[derive(Debug, Clone, Copy, PartialEq, Eq, Structural)]
pub enum ResolveError {
    InvalidName,
    BindFailed,
    SendFailed,
    Timeout,
    Truncated,
    CountMismatch,
    CompressionLoop,
    IdMismatch,
    /// The server answered with this non-zero response code and no address.
    ServerError(u8),
}

/// The resolver error that reports a codec error.
pub open spec fn codec_to_resolve(e: CodecError) -> ResolveError {
    match e {
        CodecError::Truncated => ResolveError::Truncated,
        CodecError::CountMismatch => ResolveError::CountMismatch,
        CodecError::CompressionLoop => ResolveError::CompressionLoop,
        CodecError::InvalidName => ResolveError::InvalidName,
    }
}

/// The resolver error that reports a transport error.
pub open spec fn transport_to_resolve(e: TransportError) -> ResolveError {
    match e {
        TransportError::BindFailed => ResolveError::BindFailed,
        TransportError::SendFailed => ResolveError::SendFailed,
        TransportError::Timeout => ResolveError::Timeout,
    }
}

impl CodecError {
    pub fn to_resolve(self) -> (r: ResolveError)
        ensures
            r == codec_to_resolve(self),
    {
        match self {
            CodecError::Truncated => ResolveError::Truncated,
            CodecError::CountMismatch => ResolveError::CountMismatch,
            CodecError::CompressionLoop => ResolveError::CompressionLoop,
            CodecError::InvalidName => ResolveError::InvalidName,
        }
    }
}

impl TransportError {
    pub fn to_resolve(self) -> (r: ResolveError)
        ensures
            r == transport_to_resolve(self),
    {
        match self {
            TransportError::BindFailed => ResolveError::BindFailed,
            TransportError::SendFailed => ResolveError::SendFailed,
            TransportError::Timeout => ResolveError::Timeout,
        }
    }
}

} // verus!

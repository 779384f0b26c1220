use vstd::prelude::*;
use vstd::string::StringExecFns;

verus! {

/// Every failure the library (or a thin I/O layer around it) can report.
///
/// Each fallible operation surfaces exactly one of these; none is a
/// catch-all, so callers can branch on the kind of failure.
#[derive(Clone, Copy, Debug, PartialEq, Eq, Structural)]
pub enum ChainyError {
    /// A block's stored hash does not match the digest of its fields.
    BlockNotValid,
    /// The chain is structurally broken: missing genesis, wrong anchor,
    /// or a block whose `previous_hash` is not its predecessor's `hash`.
    ChainNotValid,
    /// An appended payload exceeds 64 characters.
    DataTooLong,
    /// The wall clock could not produce a post-epoch timestamp.
    ClockError,
    /// The chain has grown past the representable offset range.
    OffsetOverflow,
    /// Persisted text does not parse as a serialized chain.
    DecodeError,
    /// Reading or writing the backing file failed.
    IoError,
}

impl ChainyError {
    /// The human-readable description of this error; the type itself
    /// carries no `Display`.
    pub fn message(&self) -> (r: String)
        ensures
            *self == ChainyError::BlockNotValid ==> r@ == "block is not valid"@,
            *self == ChainyError::ChainNotValid ==> r@ == "chain is not valid"@,
            *self == ChainyError::DataTooLong ==> r@ == "block data is > 64 chars"@,
            *self == ChainyError::ClockError ==> r@ == "clock is before the epoch"@,
            *self == ChainyError::OffsetOverflow ==> r@ == "chain is too long"@,
            *self == ChainyError::DecodeError ==> r@ == "content does not decode as a chain"@,
            *self == ChainyError::IoError ==> r@ == "file access failed"@,
    {
        match self {
            ChainyError::BlockNotValid => String::from_str("block is not valid"),
            ChainyError::ChainNotValid => String::from_str("chain is not valid"),
            ChainyError::DataTooLong => String::from_str("block data is > 64 chars"),
            ChainyError::ClockError => String::from_str("clock is before the epoch"),
            ChainyError::OffsetOverflow => String::from_str("chain is too long"),
            ChainyError::DecodeError => String::from_str("content does not decode as a chain"),
            ChainyError::IoError => String::from_str("file access failed"),
        }
    }
}

} // verus!

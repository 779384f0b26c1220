use crate::digest::{calculate_hash, digest_of};
use crate::errors::ChainyError;
use vstd::prelude::*;

verus! {

/// One immutable, hash-sealed record of the chain.
#[derive(Clone, Debug, PartialEq, Eq)]
pub struct Block {
    /// The block's position in the chain.
    pub offset: u64,
    /// The payload, at most 64 characters when appended through the chain.
    pub data: String,
    /// Seconds since the Unix epoch at creation time.
    pub timestamp: u64,
    /// The lowercase-hex digest of the other four fields.
    pub hash: String,
    /// The predecessor's hash, or the genesis anchor for block 0.
    pub previous_hash: String,
}

/// The mathematical content of a block: the same five fields as plain values.
pub struct BlockView {
    pub offset: u64,
    pub data: Seq<char>,
    pub timestamp: u64,
    pub hash: Seq<char>,
    pub previous_hash: Seq<char>,
}

impl View for Block {
    type V = BlockView;

    open spec fn view(&self) -> BlockView {
        BlockView {
            offset: self.offset,
            data: self.data@,
            timestamp: self.timestamp,
            hash: self.hash@,
            previous_hash: self.previous_hash@,
        }
    }
}

/// A block whose stored hash is exactly the digest of its other four fields.
pub open spec fn block_hash_ok(b: BlockView) -> bool {
    b.hash == digest_of(b.offset, b.data, b.timestamp, b.previous_hash)
}

impl Block {
    /// A block sealed at the given timestamp: the four given fields are
    /// stored as they are, and the hash is their digest.
    pub fn with_timestamp(
        offset: u64,
        data: String,
        timestamp: u64,
        previous_hash: String,
    ) -> (b: Block)
        ensures
            b@.offset == offset,
            b@.data == data@,
            b@.timestamp == timestamp,
            b@.previous_hash == previous_hash@,
            block_hash_ok(b@),
    {
        let hash = calculate_hash(&offset, data.as_str(), timestamp, previous_hash.as_str());
        Block { offset, data, timestamp, hash, previous_hash }
    }

    /// A block sealed at the current wall-clock time; fails only when the
    /// clock cannot be read as a post-epoch timestamp.
    pub fn new(offset: u64, data: String, previous_hash: String) -> (r: Result<Block, ChainyError>)
        ensures
            r matches Ok(b) ==> b@.offset == offset && b@.data == data@ && b@.previous_hash
                == previous_hash@ && block_hash_ok(b@),
            r matches Err(e) ==> e == ChainyError::ClockError,
    {
        match epoch_seconds() {
            Ok(t) => Ok(Block::with_timestamp(offset, data, t, previous_hash)),
            Err(e) => Err(e),
        }
    }

    /// Recomputes the digest of this block's fields and compares it with the
    /// stored hash; succeeds exactly when they agree.
    pub fn validate(&self) -> (r: Result<(), ChainyError>)
        ensures
            r is Ok <==> block_hash_ok(self@),
            r matches Err(e) ==> e == ChainyError::BlockNotValid,
    {
        let hash = calculate_hash(
            &self.offset,
            self.data.as_str(),
            self.timestamp,
            self.previous_hash.as_str(),
        );
        if hash == self.hash {
            Ok(())
        } else {
            Err(ChainyError::BlockNotValid)
        }
    }
}

/// Relies on `std::time::SystemTime::now` read against `UNIX_EPOCH`: the
/// seconds elapsed since the epoch, or an error when the clock reads before
/// it. Nothing is assumed about the value a successful read returns.
#[verifier::external_body]
pub(crate) fn epoch_seconds() -> (r: Result<u64, ChainyError>)
    ensures
        r matches Err(e) ==> e == ChainyError::ClockError,
{
    match std::time::SystemTime::now().duration_since(std::time::UNIX_EPOCH) {
        Ok(d) => Ok(d.as_secs()),
        Err(_) => Err(ChainyError::ClockError),
    }
}

} // verus!

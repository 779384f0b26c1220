use crate::block::{block_hash_ok, Block, BlockView};
use crate::errors::ChainyError;
use vstd::prelude::*;
use vstd::string::StringExecFns;

verus! {

/// The fixed previous-hash anchor of the genesis block: the lowercase-hex
/// SHA-1 digest of the 7-character text `GENESIS`, kept as a literal so that
/// persisted chains stay byte-for-byte compatible.
pub open spec fn genesis_anchor() -> Seq<char> {
    "ce02dec31ca49f3c8f149b3b931a0155121d2ca0"@
}

/// A chain whose every block is intact and correctly linked: a first block
/// at offset 0 anchored at the genesis constant, every block's stored hash
/// equal to the digest of its fields, and every later block's
/// `previous_hash` equal to its predecessor's `hash`.
pub open spec fn chain_valid(s: Seq<BlockView>) -> bool {
    &&& s.len() > 0
    &&& s[0].offset == 0
    &&& s[0].previous_hash == genesis_anchor()
    &&& forall|i: int| 0 <= i < s.len() ==> block_hash_ok(#[trigger] s[i])
    &&& forall|i: int| 1 <= i < s.len() ==> (#[trigger] s[i].previous_hash) == s[i - 1].hash
}

/// The first violation at or after position `i`, scanning forward: each
/// block is checked for its own hash first, then for linkage to its
/// predecessor.
pub open spec fn validate_links(s: Seq<BlockView>, i: int) -> Result<(), ChainyError>
    decreases s.len() - i,
{
    if i < 1 || i >= s.len() {
        Ok(())
    } else if !block_hash_ok(s[i]) {
        Err(ChainyError::BlockNotValid)
    } else if s[i].previous_hash != s[i - 1].hash {
        Err(ChainyError::ChainNotValid)
    } else {
        validate_links(s, i + 1)
    }
}

/// Exactly what validation returns on a chain: the first violation found
/// scanning from the oldest block, or success.
pub open spec fn validate_result(s: Seq<BlockView>) -> Result<(), ChainyError> {
    if s.len() == 0 {
        Err(ChainyError::ChainNotValid)
    } else if s[0].offset != 0 {
        Err(ChainyError::ChainNotValid)
    } else if s[0].previous_hash != genesis_anchor() {
        Err(ChainyError::ChainNotValid)
    } else if !block_hash_ok(s[0]) {
        Err(ChainyError::BlockNotValid)
    } else {
        validate_links(s, 1)
    }
}

proof fn lemma_links_ok_iff(s: Seq<BlockView>, i: int)
    requires
        1 <= i <= s.len(),
    ensures
        validate_links(s, i) is Ok <==> (forall|j: int|
            i <= j < s.len() ==> block_hash_ok(#[trigger] s[j]) && s[j].previous_hash == s[j
                - 1].hash),
    decreases s.len() - i,
{
    if i < s.len() {
        lemma_links_ok_iff(s, i + 1);
    }
}

/// Validation succeeds exactly on valid chains.
pub proof fn lemma_validate_complete(s: Seq<BlockView>)
    ensures
        validate_result(s) is Ok <==> chain_valid(s),
{
    if s.len() > 0 {
        lemma_links_ok_iff(s, 1);
    }
}

/// Appending a correctly sealed block that points at the tail of a valid
/// chain keeps the chain valid, whatever its payload and timestamp.
pub proof fn lemma_append_preserves_validity(s: Seq<BlockView>, b: BlockView)
    requires
        chain_valid(s),
        block_hash_ok(b),
        b.previous_hash == s.last().hash,
    ensures
        chain_valid(s.push(b)),
{
    let t = s.push(b);
    assert(t[0] == s[0]);
    assert forall|i: int| 0 <= i < t.len() implies block_hash_ok(#[trigger] t[i]) by {
        if i < s.len() {
            assert(t[i] == s[i]);
        } else {
            assert(t[i] == b);
        }
    }
    assert forall|i: int| 1 <= i < t.len() implies (#[trigger] t[i].previous_hash) == t[i
        - 1].hash by {
        if i < s.len() {
            assert(t[i] == s[i]);
            assert(t[i - 1] == s[i - 1]);
        } else {
            assert(t[i] == b);
            assert(t[i - 1] == s[s.len() - 1]);
        }
    }
}

/// A block whose stored hash is not the digest of its fields is never part
/// of a chain that validation accepts.
pub proof fn lemma_tampered_block_detected(s: Seq<BlockView>, i: int)
    requires
        0 <= i < s.len(),
        !block_hash_ok(s[i]),
    ensures
        validate_result(s) is Err,
{
    lemma_validate_complete(s);
}

/// A block whose `previous_hash` is not its predecessor's `hash` is never
/// part of a chain that validation accepts.
pub proof fn lemma_broken_link_detected(s: Seq<BlockView>, i: int)
    requires
        1 <= i < s.len(),
        s[i].previous_hash != s[i - 1].hash,
    ensures
        validate_result(s) is Err,
{
    lemma_validate_complete(s);
}

proof fn lemma_links_skip_good_prefix(s: Seq<BlockView>, k: int, i: int)
    requires
        1 <= k <= i < s.len(),
        forall|j: int| k <= j < i ==> block_hash_ok(#[trigger] s[j]),
        forall|j: int| k <= j < i ==> (#[trigger] s[j].previous_hash) == s[j - 1].hash,
    ensures
        validate_links(s, k) == validate_links(s, i),
    decreases i - k,
{
    if k < i {
        lemma_links_skip_good_prefix(s, k + 1, i);
    }
}

/// When a block's stored hash stops matching its fields while everything
/// before it is intact, validation reports exactly `BlockNotValid`, as it
/// does when a block's payload or timestamp was altered in place.
pub proof fn lemma_first_bad_block_reported(s: Seq<BlockView>, i: int)
    requires
        0 <= i < s.len(),
        s[0].offset == 0,
        s[0].previous_hash == genesis_anchor(),
        forall|j: int| 0 <= j < i ==> block_hash_ok(#[trigger] s[j]),
        forall|j: int| 1 <= j <= i ==> (#[trigger] s[j].previous_hash) == s[j - 1].hash,
        !block_hash_ok(s[i]),
    ensures
        validate_result(s) == Err::<(), ChainyError>(ChainyError::BlockNotValid),
{
    if i > 0 {
        lemma_links_skip_good_prefix(s, 1, i);
    }
}

/// When the linkage breaks at one place while every block up to there is
/// intact, validation reports exactly `ChainNotValid`.
pub proof fn lemma_first_broken_link_reported(s: Seq<BlockView>, i: int)
    requires
        1 <= i < s.len(),
        s[0].offset == 0,
        s[0].previous_hash == genesis_anchor(),
        forall|j: int| 0 <= j <= i ==> block_hash_ok(#[trigger] s[j]),
        forall|j: int| 1 <= j < i ==> (#[trigger] s[j].previous_hash) == s[j - 1].hash,
        s[i].previous_hash != s[i - 1].hash,
    ensures
        validate_result(s) == Err::<(), ChainyError>(ChainyError::ChainNotValid),
{
    lemma_links_skip_good_prefix(s, 1, i);
}

/// The full ordered sequence of blocks, rooted at genesis.
#[derive(Clone, Debug, PartialEq, Eq)]
pub struct Chainy {
    pub chain: Vec<Block>,
}

impl View for Chainy {
    type V = Seq<BlockView>;

    open spec fn view(&self) -> Seq<BlockView> {
        self.chain@.map_values(|b: Block| b@)
    }
}

impl Chainy {
    /// A fresh chain holding only the genesis block: offset 0, payload
    /// `GENESIS`, previous hash the fixed anchor, sealed at the current
    /// time. Fails only when the clock cannot be read.
    pub fn new() -> (r: Result<Chainy, ChainyError>)
        ensures
            r matches Ok(c) ==> {
                &&& c@.len() == 1
                &&& c@[0].offset == 0
                &&& c@[0].data == "GENESIS"@
                &&& c@[0].previous_hash == genesis_anchor()
                &&& block_hash_ok(c@[0])
                &&& chain_valid(c@)
            },
            r matches Err(e) ==> e == ChainyError::ClockError,
    {
        let genesis = match Block::new(
            0,
            String::from_str("GENESIS"),
            String::from_str("ce02dec31ca49f3c8f149b3b931a0155121d2ca0"),
        ) {
            Ok(b) => b,
            Err(e) => {
                return Err(e);
            },
        };
        let mut chain: Vec<Block> = Vec::new();
        chain.push(genesis);
        let c = Chainy { chain };
        proof {
            assert(c@.len() == 1);
            assert(c@[0] == genesis@);
        }
        Ok(c)
    }

    /// Appends one block holding `data`, sealed at the current time and
    /// bound to the tail's hash. The offset is computed as the chain's
    /// length plus one, matching the numbering of previously persisted
    /// chains (genesis is 0 and the first appended block is 2). On any
    /// failure the chain is left unchanged.
    pub fn entry(&mut self, data: &str) -> (r: Result<(), ChainyError>)
        ensures
            data@.len() > 64 ==> r == Err::<(), ChainyError>(ChainyError::DataTooLong)
                && final(self)@ == old(self)@,
            data@.len() <= 64 && old(self).chain@.len() == usize::MAX ==> r
                == Err::<(), ChainyError>(ChainyError::OffsetOverflow)
                && final(self)@ == old(self)@,
            data@.len() <= 64 && old(self)@.len() == 0 ==> r
                == Err::<(), ChainyError>(ChainyError::ChainNotValid)
                && final(self)@ == old(self)@,
            data@.len() <= 64 && 0 < old(self)@.len() && old(self).chain@.len() != usize::MAX
                ==> match r {
                Ok(()) => {
                    &&& final(self)@.len() == old(self)@.len() + 1
                    &&& final(self)@.drop_last() == old(self)@
                    &&& final(self)@.last().offset == old(self)@.len() + 1
                    &&& final(self)@.last().data == data@
                    &&& final(self)@.last().previous_hash == old(self)@.last().hash
                    &&& block_hash_ok(final(self)@.last())
                },
                Err(e) => e == ChainyError::ClockError && final(self)@ == old(self)@,
            },
            r is Ok && chain_valid(old(self)@) ==> chain_valid(final(self)@),
    {
        if data.unicode_len() > 64 {
            return Err(ChainyError::DataTooLong);
        }
        if self.chain.len() == usize::MAX {
            return Err(ChainyError::OffsetOverflow);
        }
        if self.chain.len() == 0 {
            return Err(ChainyError::ChainNotValid);
        }
        let offset: u64 = (self.chain.len() + 1) as u64;
        let previous_hash = self.chain[self.chain.len() - 1].hash.clone();
        let block = match Block::new(offset, String::from_str(data), previous_hash) {
            Ok(b) => b,
            Err(e) => {
                return Err(e);
            },
        };
        proof {
            if chain_valid(old(self)@) {
                lemma_append_preserves_validity(old(self)@, block@);
            }
        }
        self.add_block(block);
        proof {
            assert(self@.drop_last() =~= old(self)@);
        }
        Ok(())
    }

    /// Pushes a block onto the end of the chain, as it is.
    pub fn add_block(&mut self, b: Block)
        ensures
            final(self)@ == old(self)@.push(b@),
    {
        self.chain.push(b);
        proof {
            assert(self@ =~= old(self)@.push(b@));
        }
    }

    /// Walks the chain from the oldest block forward, recomputing every
    /// block's hash and checking every linkage, and reports the first
    /// violation: succeeds exactly on valid chains.
    #[verifier::loop_isolation(false)]
    pub fn validate(&self) -> (r: Result<(), ChainyError>)
        ensures
            r == validate_result(self@),
            r is Ok <==> chain_valid(self@),
    {
        proof {
            lemma_validate_complete(self@);
        }
        if self.chain.len() == 0 {
            return Err(ChainyError::ChainNotValid);
        }
        if self.chain[0].offset != 0 {
            return Err(ChainyError::ChainNotValid);
        }
        let anchor = String::from_str("ce02dec31ca49f3c8f149b3b931a0155121d2ca0");
        if self.chain[0].previous_hash != anchor {
            return Err(ChainyError::ChainNotValid);
        }
        if let Err(e) = self.chain[0].validate() {
            return Err(e);
        }
        let n: usize = self.chain.len();
        let mut i: usize = 1;
        while i < n
            invariant
                1 <= i <= n,
                n == self.chain@.len(),
                validate_links(self@, 1) == validate_links(self@, i as int),
            decreases n - i,
        {
            proof {
                assert(self@[i as int] == self.chain@[i as int]@);
                assert(self@[i as int - 1] == self.chain@[i as int - 1]@);
            }
            if let Err(e) = self.chain[i].validate() {
                proof {
                    assert(validate_links(self@, i as int) == Err::<(), ChainyError>(
                        ChainyError::BlockNotValid,
                    ));
                }
                return Err(e);
            }
            if self.chain[i].previous_hash != self.chain[i - 1].hash {
                proof {
                    assert(validate_links(self@, i as int) == Err::<(), ChainyError>(
                        ChainyError::ChainNotValid,
                    ));
                }
                return Err(ChainyError::ChainNotValid);
            }
            i = i + 1;
        }
        Ok(())
    }
}

} // verus!

//! Blocks as the core reads them: hash, number, parent and total difficulty.
use vstd::prelude::*;

verus! {

/// A 32-byte hash, held as two big-endian halves.
#[derive(Clone, Copy, Debug, PartialEq, Eq, Structural, Hash)]
pub struct H256 {
    pub hi: u128,
    pub lo: u128,
}

/// A 256-bit unsigned integer, held as two halves.
#[derive(Clone, Copy, Debug, PartialEq, Eq, Structural, Hash)]
pub struct U256 {
    pub hi: u128,
    pub lo: u128,
}

impl U256 {
    /// The number that the two halves stand for.
    pub open spec fn value(self) -> nat {
        (self.hi as nat) * (u128::MAX as nat + 1) + (self.lo as nat)
    }

    /// Strictly greater, as numbers.
    pub fn gt(&self, other: &U256) -> (r: bool)
        ensures
            r == (self.value() > other.value()),
    {
        assert(self.hi > other.hi ==> self.value() > other.value()) by (nonlinear_arith)
            requires
                self.value() == (self.hi as nat) * (u128::MAX as nat + 1) + (self.lo as nat),
                other.value() == (other.hi as nat) * (u128::MAX as nat + 1) + (other.lo as nat),
                other.lo <= u128::MAX,
        ;
        assert(self.hi < other.hi ==> self.value() < other.value()) by (nonlinear_arith)
            requires
                self.value() == (self.hi as nat) * (u128::MAX as nat + 1) + (self.lo as nat),
                other.value() == (other.hi as nat) * (u128::MAX as nat + 1) + (other.lo as nat),
                self.lo <= u128::MAX,
        ;
        self.hi > other.hi || (self.hi == other.hi && self.lo > other.lo)
    }
}

/// A block header as reported by an upstream. Fields that an upstream may
/// leave out are optional.
#[derive(Clone, Copy, Debug)]
pub struct Block {
    pub hash: Option<H256>,
    pub number: Option<u64>,
    pub parent_hash: H256,
    pub total_difficulty: Option<U256>,
}

impl Block {
    /// A block is complete when hash, number and total difficulty are present.
    pub open spec fn complete(self) -> bool {
        self.hash.is_some() && self.number.is_some() && self.total_difficulty.is_some()
    }

    pub fn is_complete(&self) -> (r: bool)
        ensures
            r == self.complete(),
    {
        self.hash.is_some() && self.number.is_some() && self.total_difficulty.is_some()
    }

    /// The total difficulty as a number; zero where it is absent.
    pub open spec fn work(self) -> nat {
        match self.total_difficulty {
            Some(td) => td.value(),
            None => 0,
        }
    }
}

/// A block's hash and number.
#[derive(Clone, Copy, Debug, PartialEq, Eq, Structural)]
pub struct BlockId {
    pub hash: H256,
    pub num: u64,
}

impl From<(H256, u64)> for BlockId {
    fn from(parts: (H256, u64)) -> (r: BlockId) {
        BlockId { hash: parts.0, num: parts.1 }
    }
}

impl vstd::std_specs::convert::FromSpecImpl<(H256, u64)> for BlockId {
    open spec fn obeys_from_spec() -> bool {
        true
    }

    open spec fn from_spec(parts: (H256, u64)) -> BlockId {
        BlockId { hash: parts.0, num: parts.1 }
    }
}

impl BlockId {
    /// The identity of a block that has both hash and number.
    pub open spec fn of(block: Block) -> BlockId {
        BlockId { hash: block.hash.unwrap(), num: block.number.unwrap() }
    }
}

} // verus!

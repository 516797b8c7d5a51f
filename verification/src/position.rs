//! Positions of events on a chain and headers of its blocks.
use vstd::prelude::*;

verus! {

/// Place of one event: its block, then its log index within the block.
#[derive(Debug, Clone, Copy, PartialEq, Eq, PartialOrd, Ord, Hash, Structural)]
pub struct Position {
    /// Block the event belongs to.
    pub block: u64,
    /// Index of the event within its block.
    pub log_index: u64,
}

impl Position {
    /// Builds a position from its block and log index.
    pub fn new(block: u64, log_index: u64) -> (pos: Position)
        ensures
            pos == (Position { block, log_index }),
    {
        Position { block, log_index }
    }

    /// Chain order: by block, then by log index.
    pub open spec fn before(self, other: Position) -> bool {
        self.block < other.block || (self.block == other.block && self.log_index < other.log_index)
    }

    /// Chain order with equality.
    pub open spec fn at_or_before(self, other: Position) -> bool {
        self == other || self.before(other)
    }

    /// True when the position does not come after `other`.
    pub fn is_at_or_before(&self, other: &Position) -> (yes: bool)
        ensures
            yes == self.at_or_before(*other),
            yes == (self.block < other.block || (self.block == other.block && self.log_index
                <= other.log_index)),
    {
        self.block < other.block || (self.block == other.block && self.log_index
            <= other.log_index)
    }
}

/// Number and hash of one block.
#[derive(Debug, Clone, Copy, PartialEq, Eq, Hash)]
pub struct BlockRef {
    /// Height of the block.
    pub number: u64,
    /// Hash of the block.
    pub hash: [u8; 32],
}

/// Compares two hashes byte by byte.
pub fn same_hash(a: &[u8; 32], b: &[u8; 32]) -> (yes: bool)
    ensures
        yes == (*a == *b),
{
    let mut i: usize = 0;
    while i < 32
        invariant
            i <= 32,
            forall|j: int| 0 <= j < i ==> a@[j] == b@[j],
        decreases 32 - i,
    {
        if a[i] != b[i] {
            return false;
        }
        i += 1;
    }
    assert(a@ =~= b@);
    assert(*a =~= *b);
    true
}

} // verus!

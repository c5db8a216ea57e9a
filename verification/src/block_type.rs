//! The three kinds of block the codec knows.

use vstd::prelude::*;
use crate::CoreError;

verus! {

/// Kind of a block: an index block, a data block, or a reserved keyword
/// block.
#[derive(Debug, Clone, Copy, PartialEq, Eq, Structural)]
pub enum BlockType {
    IBlock,
    DBlock,
    KBlock,
}

impl BlockType {
    /// The numeric code a block type carries in serialized form.
    pub open spec fn code(self) -> u32 {
        match self {
            BlockType::IBlock => 0,
            BlockType::DBlock => 1,
            BlockType::KBlock => 2,
        }
    }

    /// The numeric code, for executable code.
    pub fn as_u32(self) -> (r: u32)
        ensures
            r == self.code(),
    {
        match self {
            BlockType::IBlock => 0,
            BlockType::DBlock => 1,
            BlockType::KBlock => 2,
        }
    }

    /// The block type a numeric code stands for; codes past the last variant
    /// are invalid.
    pub fn from_u32(v: u32) -> (r: Result<BlockType, CoreError>)
        ensures
            match r {
                Ok(t) => v == t.code() && v < 3,
                Err(e) => v >= 3 && e == CoreError::Invalid,
            },
    {
        if v == 0 {
            Ok(BlockType::IBlock)
        } else if v == 1 {
            Ok(BlockType::DBlock)
        } else if v == 2 {
            Ok(BlockType::KBlock)
        } else {
            Err(CoreError::Invalid)
        }
    }
}

} // verus!

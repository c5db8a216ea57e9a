//! The fixed-size header every block carries: its type code.

use vstd::prelude::*;
use vstd::bytes::{spec_u32_to_le_bytes, lemma_auto_spec_u32_to_from_le_bytes};
use crate::block_type::BlockType;
use crate::codec::push_u32_le;

verus! {

/// Number of bytes a serialized block header takes.
pub const SERIALIZED_BLOCK_HEADER_BUFFER_SIZE: usize = 4;

/// Header of a block: the type code.
#[derive(Debug, Clone, Copy, PartialEq, Eq, Structural)]
pub struct BlockHeader {
    pub block_type: u32,
}

impl BlockHeader {
    pub fn new(block_type: BlockType) -> (r: BlockHeader)
        ensures
            r.block_type == block_type.code(),
    {
        BlockHeader { block_type: block_type.as_u32() }
    }

    /// The serialized header: the type code in four little-endian bytes.
    pub fn to_bytes(&self) -> (r: Vec<u8>)
        ensures
            r@ == spec_u32_to_le_bytes(self.block_type),
            r@.len() == SERIALIZED_BLOCK_HEADER_BUFFER_SIZE,
    {
        proof {
            lemma_auto_spec_u32_to_from_le_bytes();
        }
        let mut out: Vec<u8> = Vec::new();
        push_u32_le(&mut out, self.block_type);
        out
    }
}

} // verus!

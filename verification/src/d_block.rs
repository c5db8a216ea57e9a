//! Data blocks: up to 32 KiB of file bytes behind a block header.
//!
//! Archive layout, integers little-endian: the data inline, then a record of
//! (block type code, data offset, data length), each u32.

use vstd::prelude::*;
use vstd::bytes::{spec_u32_to_le_bytes, spec_u32_from_le_bytes,
    lemma_auto_spec_u32_to_from_le_bytes};
use crate::block_header::BlockHeader;
use crate::block_type::BlockType;
use crate::codec::{push_bytes, push_u32_le, read_u32_le, copy_range};
use crate::sizing::DBLOCK_SIZE_IN_BYTES;
use crate::CoreError;

verus! {

/// Largest archive a data block can take, and so the slot width of the
/// data-block block-file: 32 KiB of data plus the 12-byte record, unchanged
/// by encryption.
pub const MAX_ENCRYPTED_DBLOCK_BUFFER_SIZE: usize = 32780;

/// A leaf block holding file bytes.
#[derive(Debug, PartialEq)]
pub struct DBlock {
    pub header: BlockHeader,
    pub data: Vec<u8>,
}

/// Mathematical view of a [`DBlock`].
#[verifier::ext_equal]
pub struct DBlockV {
    pub header: BlockHeader,
    pub data: Seq<u8>,
}

impl View for DBlock {
    type V = DBlockV;

    open spec fn view(&self) -> DBlockV {
        DBlockV { header: self.header, data: self.data@ }
    }
}

impl DBlockV {
    /// A data block the codec can archive: at most one full block of data.
    pub open spec fn wf(self) -> bool {
        self.data.len() <= DBLOCK_SIZE_IN_BYTES
    }
}

/// The archive of a data block.
pub open spec fn spec_serialize_d_block(b: DBlockV) -> Seq<u8> {
    b.data + spec_u32_to_le_bytes(b.header.block_type) + spec_u32_to_le_bytes(0)
        + spec_u32_to_le_bytes(b.data.len() as u32)
}

/// What bytes parse to as a data block, when their record is consistent.
pub open spec fn spec_parse_d_block(bts: Seq<u8>) -> Option<DBlockV> {
    if bts.len() < 12 {
        None
    } else {
        let n = bts.len() - 12;
        if spec_u32_from_le_bytes(bts.subrange(n + 4, n + 8)) != 0 || spec_u32_from_le_bytes(
            bts.subrange(n + 8, n + 12),
        ) != n {
            None
        } else {
            Some(
                DBlockV {
                    header: BlockHeader {
                        block_type: spec_u32_from_le_bytes(bts.subrange(n as int, n + 4)),
                    },
                    data: bts.subrange(0, n as int),
                },
            )
        }
    }
}

/// Parsing inverts the archive of a well-formed data block.
pub proof fn lemma_d_block_round_trip(b: DBlockV)
    requires
        b.wf(),
    ensures
        spec_serialize_d_block(b).len() == b.data.len() + 12,
        spec_parse_d_block(spec_serialize_d_block(b)) == Some(b),
{
    lemma_auto_spec_u32_to_from_le_bytes();
    let bts = spec_serialize_d_block(b);
    let n = b.data.len() as int;
    assert(bts.subrange(0, n) =~= b.data);
    assert(bts.subrange(n, n + 4) =~= spec_u32_to_le_bytes(b.header.block_type));
    assert(bts.subrange(n + 4, n + 8) =~= spec_u32_to_le_bytes(0));
    assert(bts.subrange(n + 8, n + 12) =~= spec_u32_to_le_bytes(b.data.len() as u32));
    assert(spec_parse_d_block(bts) == Some(b)) by {
        assert(spec_parse_d_block(bts).unwrap() =~= b);
    }
}

impl DBlock {
    /// A data block over a copy of `data`.
    pub fn new(data: &[u8]) -> (r: DBlock)
        ensures
            r@.header.block_type == BlockType::DBlock.code(),
            r@.data == data@,
    {
        DBlock { header: BlockHeader::new(BlockType::DBlock), data: vstd::slice::slice_to_vec(data) }
    }

    /// The archive of this block.
    pub fn serialize(&self) -> (r: Vec<u8>)
        requires
            self@.wf(),
        ensures
            r@ == spec_serialize_d_block(self@),
            r@.len() == self@.data.len() + 12,
            r@.len() <= MAX_ENCRYPTED_DBLOCK_BUFFER_SIZE,
    {
        proof {
            lemma_d_block_round_trip(self@);
        }
        let mut out: Vec<u8> = Vec::new();
        push_bytes(&mut out, self.data.as_slice());
        push_u32_le(&mut out, self.header.block_type);
        push_u32_le(&mut out, 0);
        push_u32_le(&mut out, self.data.len() as u32);
        proof {
            assert(out@ =~= spec_serialize_d_block(self@));
        }
        out
    }

    /// Parse an archived data block; an inconsistent record is corrupted.
    pub fn from_bytes(buffer: &[u8]) -> (r: Result<DBlock, CoreError>)
        ensures
            match r {
                Ok(b) => spec_parse_d_block(buffer@) == Some(b@),
                Err(e) => spec_parse_d_block(buffer@) is None && e == CoreError::Corrupted,
            },
    {
        let len = buffer.len();
        if len < 12 {
            return Err(CoreError::Corrupted);
        }
        let n = len - 12;
        let off = read_u32_le(buffer, n + 4);
        let dlen = read_u32_le(buffer, n + 8);
        if off != 0 || dlen as usize != n {
            return Err(CoreError::Corrupted);
        }
        let block = DBlock {
            header: BlockHeader { block_type: read_u32_le(buffer, n) },
            data: copy_range(buffer, 0, n),
        };
        proof {
            assert(spec_parse_d_block(buffer@).unwrap() =~= block@);
        }
        Ok(block)
    }
}

} // verus!

//! Keyword blocks: reserved for a keyword-indexing layer. A keyword block
//! binds a keyword to the root CHK of a file.
//!
//! Archive layout, integers little-endian: the root CHK's archive inline,
//! the keyword bytes, then a record of (block type code u32, keyword length
//! u32).

use vstd::prelude::*;
use vstd::bytes::{spec_u32_to_le_bytes, spec_u32_from_le_bytes,
    lemma_auto_spec_u32_to_from_le_bytes};
use crate::block_header::BlockHeader;
use crate::block_type::BlockType;
use crate::chk::{CHK, ChkV, spec_serialize_chk, spec_parse_chk, lemma_serialize_chk_len,
    lemma_chk_round_trip};
use crate::codec::{push_bytes, push_u32_le, read_u32_le, copy_range};
use crate::CoreError;

verus! {

/// A reserved keyword-indexing block.
#[derive(Debug, PartialEq)]
pub struct KBlock {
    pub header: BlockHeader,
    pub keyword: Vec<u8>,
    pub chk: CHK,
}

/// Mathematical view of a [`KBlock`].
#[verifier::ext_equal]
pub struct KBlockV {
    pub header: BlockHeader,
    pub keyword: Seq<u8>,
    pub chk: ChkV,
}

impl View for KBlock {
    type V = KBlockV;

    open spec fn view(&self) -> KBlockV {
        KBlockV { header: self.header, keyword: self.keyword@, chk: self.chk@ }
    }
}

impl KBlockV {
    /// A keyword block the codec can archive.
    pub open spec fn wf(self) -> bool {
        &&& self.chk.wf()
        &&& self.keyword.len() <= u32::MAX - 148
        &&& self.keyword.len() + 148 <= usize::MAX
    }
}

/// The archive of a keyword block.
pub open spec fn spec_serialize_k_block(b: KBlockV) -> Seq<u8> {
    spec_serialize_chk(b.chk) + b.keyword + spec_u32_to_le_bytes(b.header.block_type)
        + spec_u32_to_le_bytes(b.keyword.len() as u32)
}

/// What bytes parse to as a keyword block, when their record is consistent.
pub open spec fn spec_parse_k_block(bts: Seq<u8>) -> Option<KBlockV> {
    if bts.len() < 148 {
        None
    } else {
        let rec = bts.len() - 8;
        let kw_len = spec_u32_from_le_bytes(bts.subrange(rec + 4, rec + 8));
        if 140 + kw_len + 8 != bts.len() {
            None
        } else {
            match spec_parse_chk(bts.subrange(0, 140)) {
                Some(chk) => Some(
                    KBlockV {
                        header: BlockHeader {
                            block_type: spec_u32_from_le_bytes(bts.subrange(rec as int, rec + 4)),
                        },
                        keyword: bts.subrange(140, 140 + kw_len),
                        chk,
                    },
                ),
                None => None,
            }
        }
    }
}

/// Parsing inverts the archive of a well-formed keyword block.
pub proof fn lemma_k_block_round_trip(b: KBlockV)
    requires
        b.wf(),
    ensures
        spec_parse_k_block(spec_serialize_k_block(b)) == Some(b),
{
    lemma_auto_spec_u32_to_from_le_bytes();
    lemma_serialize_chk_len(b.chk);
    lemma_chk_round_trip(b.chk);
    let bts = spec_serialize_k_block(b);
    let rec = bts.len() - 8;
    assert(bts.subrange(0, 140) =~= spec_serialize_chk(b.chk));
    assert(bts.subrange(140, 140 + b.keyword.len() as int) =~= b.keyword);
    assert(bts.subrange(rec as int, rec + 4) =~= spec_u32_to_le_bytes(b.header.block_type));
    assert(bts.subrange(rec + 4, rec + 8) =~= spec_u32_to_le_bytes(b.keyword.len() as u32));
    assert(spec_parse_k_block(bts) == Some(b)) by {
        assert(spec_parse_k_block(bts).unwrap() =~~= b);
    }
}

impl KBlock {
    /// A keyword block binding `keyword` to the file rooted at `chk`.
    pub fn new(chk: &CHK, keyword: &[u8]) -> (r: KBlock)
        ensures
            r@.header.block_type == BlockType::KBlock.code(),
            r@.keyword == keyword@,
            r@.chk == chk@,
    {
        KBlock {
            header: BlockHeader::new(BlockType::KBlock),
            keyword: vstd::slice::slice_to_vec(keyword),
            chk: chk.clone(),
        }
    }

    /// The archive of this block.
    pub fn serialize(&self) -> (r: Vec<u8>)
        requires
            self@.wf(),
            self.chk.block_type == BlockType::DBlock.code() || self.chk.block_type
                == BlockType::IBlock.code(),
        ensures
            r@ == spec_serialize_k_block(self@),
    {
        proof {
            lemma_serialize_chk_len(self@.chk);
            lemma_auto_spec_u32_to_from_le_bytes();
        }
        let mut out: Vec<u8> = Vec::new();
        let chk_bytes = self.chk.serialize();
        push_bytes(&mut out, chk_bytes.as_slice());
        push_bytes(&mut out, self.keyword.as_slice());
        push_u32_le(&mut out, self.header.block_type);
        proof {
            assert(out@.len() == 144 + self.keyword@.len());
            assert(self.keyword@.len() + 148 <= usize::MAX);
        }
        push_u32_le(&mut out, self.keyword.len() as u32);
        proof {
            assert(out@ =~= spec_serialize_k_block(self@));
        }
        out
    }

    /// Parse an archived keyword block; an inconsistent record or a bad CHK
    /// is corrupted.
    pub fn from_bytes(buffer: &[u8]) -> (r: Result<KBlock, CoreError>)
        ensures
            match r {
                Ok(b) => spec_parse_k_block(buffer@) == Some(b@),
                Err(e) => spec_parse_k_block(buffer@) is None && e == CoreError::Corrupted,
            },
    {
        let len = buffer.len();
        if len < 148 {
            return Err(CoreError::Corrupted);
        }
        let rec = len - 8;
        let kw_len = read_u32_le(buffer, rec + 4);
        if 140u64 + (kw_len as u64) + 8u64 != len as u64 {
            return Err(CoreError::Corrupted);
        }
        let chk_bytes = vstd::slice::slice_subrange(buffer, 0, 140);
        proof {
            assert(chk_bytes@ =~= buffer@.subrange(0, 140));
        }
        let chk = match CHK::from_bytes(chk_bytes) {
            Ok(c) => c,
            Err(_) => {
                return Err(CoreError::Corrupted);
            },
        };
        let block = KBlock {
            header: BlockHeader { block_type: read_u32_le(buffer, rec) },
            keyword: copy_range(buffer, 140, 140 + kw_len as usize),
            chk,
        };
        proof {
            assert(spec_parse_k_block(buffer@).unwrap() =~~= block@);
        }
        Ok(block)
    }
}

} // verus!

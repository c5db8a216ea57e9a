//! The content-hash key: the tuple that both locates and decrypts a block.
//!
//! Serialized form, 140 bytes, all integers little-endian: the three byte
//! fields inline (key at 0, IV at 32, query at 44), then a fixed record of
//! eight u32 values at 108: (offset, length) for each byte field, then the
//! block type code and the block-file index.

use vstd::prelude::*;
use vstd::bytes::{spec_u32_to_le_bytes, spec_u32_from_le_bytes,
    lemma_auto_spec_u32_to_from_le_bytes};
use crate::block_type::BlockType;
use crate::codec::{push_bytes, push_u32_le, read_u32_le, copy_range};
use crate::CoreError;

verus! {

/// Number of bytes a serialized CHK takes.
pub const SERIALIZED_CHK_BUFFER_SIZE: usize = 140;

/// A content-hash key: `key` decrypts the block, `iv` is its AEAD nonce,
/// `query` is the block's DHT address (the SHA3-512 of the ciphertext),
/// `block_type` tells index from data blocks, and `bf_index` is the block's
/// slot in its block-file.
#[derive(Debug, PartialEq)]
pub struct CHK {
    pub key: Vec<u8>,
    pub iv: Vec<u8>,
    pub query: Vec<u8>,
    pub block_type: u32,
    pub bf_index: u32,
}

impl Clone for CHK {
    fn clone(&self) -> (r: Self)
        ensures
            r@ == self@,
    {
        CHK {
            key: vstd::slice::slice_to_vec(self.key.as_slice()),
            iv: vstd::slice::slice_to_vec(self.iv.as_slice()),
            query: vstd::slice::slice_to_vec(self.query.as_slice()),
            block_type: self.block_type,
            bf_index: self.bf_index,
        }
    }
}

/// Mathematical view of a [`CHK`].
#[verifier::ext_equal]
pub struct ChkV {
    pub key: Seq<u8>,
    pub iv: Seq<u8>,
    pub query: Seq<u8>,
    pub block_type: u32,
    pub bf_index: u32,
}

impl View for CHK {
    type V = ChkV;

    open spec fn view(&self) -> ChkV {
        ChkV {
            key: self.key@,
            iv: self.iv@,
            query: self.query@,
            block_type: self.block_type,
            bf_index: self.bf_index,
        }
    }
}

impl DeepView for CHK {
    type V = ChkV;

    open spec fn deep_view(&self) -> ChkV {
        self@
    }
}

impl ChkV {
    /// A CHK whose byte fields have the widths the schema fixes.
    pub open spec fn wf(self) -> bool {
        &&& self.key.len() == 32
        &&& self.iv.len() == 12
        &&& self.query.len() == 64
    }
}

/// The serialized form of a CHK.
pub open spec fn spec_serialize_chk(c: ChkV) -> Seq<u8> {
    c.key + c.iv + c.query + spec_u32_to_le_bytes(0) + spec_u32_to_le_bytes(32)
        + spec_u32_to_le_bytes(32) + spec_u32_to_le_bytes(12) + spec_u32_to_le_bytes(44)
        + spec_u32_to_le_bytes(64) + spec_u32_to_le_bytes(c.block_type) + spec_u32_to_le_bytes(
        c.bf_index,
    )
}

/// What 140 bytes parse to, when their record matches the schema.
pub open spec fn spec_parse_chk(b: Seq<u8>) -> Option<ChkV> {
    if b.len() != 140 {
        None
    } else if spec_u32_from_le_bytes(b.subrange(108, 112)) != 0 || spec_u32_from_le_bytes(
        b.subrange(112, 116),
    ) != 32 || spec_u32_from_le_bytes(b.subrange(116, 120)) != 32 || spec_u32_from_le_bytes(
        b.subrange(120, 124),
    ) != 12 || spec_u32_from_le_bytes(b.subrange(124, 128)) != 44 || spec_u32_from_le_bytes(
        b.subrange(128, 132),
    ) != 64 {
        None
    } else {
        Some(
            ChkV {
                key: b.subrange(0, 32),
                iv: b.subrange(32, 44),
                query: b.subrange(44, 108),
                block_type: spec_u32_from_le_bytes(b.subrange(132, 136)),
                bf_index: spec_u32_from_le_bytes(b.subrange(136, 140)),
            },
        )
    }
}

/// Whatever parses as a CHK is well-formed: the schema fixes the field
/// widths.
pub proof fn lemma_parse_chk_wf(b: Seq<u8>)
    requires
        spec_parse_chk(b) is Some,
    ensures
        spec_parse_chk(b).unwrap().wf(),
{
}

/// A serialized well-formed CHK is 140 bytes.
pub proof fn lemma_serialize_chk_len(c: ChkV)
    requires
        c.wf(),
    ensures
        spec_serialize_chk(c).len() == 140,
{
    lemma_auto_spec_u32_to_from_le_bytes();
}

/// Parsing inverts serialization on well-formed CHKs.
pub proof fn lemma_chk_round_trip(c: ChkV)
    requires
        c.wf(),
    ensures
        spec_parse_chk(spec_serialize_chk(c)) == Some(c),
{
    lemma_auto_spec_u32_to_from_le_bytes();
    let b = spec_serialize_chk(c);
    assert(b.len() == 140);
    assert(b.subrange(0, 32) =~= c.key);
    assert(b.subrange(32, 44) =~= c.iv);
    assert(b.subrange(44, 108) =~= c.query);
    assert(b.subrange(108, 112) =~= spec_u32_to_le_bytes(0));
    assert(b.subrange(112, 116) =~= spec_u32_to_le_bytes(32));
    assert(b.subrange(116, 120) =~= spec_u32_to_le_bytes(32));
    assert(b.subrange(120, 124) =~= spec_u32_to_le_bytes(12));
    assert(b.subrange(124, 128) =~= spec_u32_to_le_bytes(44));
    assert(b.subrange(128, 132) =~= spec_u32_to_le_bytes(64));
    assert(b.subrange(132, 136) =~= spec_u32_to_le_bytes(c.block_type));
    assert(b.subrange(136, 140) =~= spec_u32_to_le_bytes(c.bf_index));
    assert(spec_parse_chk(b) == Some(c)) by {
        assert(spec_parse_chk(b).unwrap() =~= c);
    }
}

impl CHK {
    pub fn new(key: &[u8], iv: &[u8], query: &[u8], block_type: BlockType, bf_index: u32) -> (r:
        CHK)
        requires
            key@.len() == 32,
        ensures
            r@ == (ChkV {
                key: key@,
                iv: iv@,
                query: query@,
                block_type: block_type.code(),
                bf_index: bf_index,
            }),
    {
        CHK {
            key: vstd::slice::slice_to_vec(key),
            iv: vstd::slice::slice_to_vec(iv),
            query: vstd::slice::slice_to_vec(query),
            block_type: block_type.as_u32(),
            bf_index,
        }
    }

    /// The 140-byte archive of this CHK. Only index- and data-block CHKs are
    /// ever persisted.
    pub fn serialize(&self) -> (r: Vec<u8>)
        requires
            self@.wf(),
            self.block_type == BlockType::DBlock.code() || self.block_type
                == BlockType::IBlock.code(),
        ensures
            r@ == spec_serialize_chk(self@),
            r@.len() == SERIALIZED_CHK_BUFFER_SIZE,
    {
        proof {
            lemma_serialize_chk_len(self@);
        }
        let mut out: Vec<u8> = Vec::new();
        push_bytes(&mut out, self.key.as_slice());
        push_bytes(&mut out, self.iv.as_slice());
        push_bytes(&mut out, self.query.as_slice());
        push_u32_le(&mut out, 0);
        push_u32_le(&mut out, 32);
        push_u32_le(&mut out, 32);
        push_u32_le(&mut out, 12);
        push_u32_le(&mut out, 44);
        push_u32_le(&mut out, 64);
        push_u32_le(&mut out, self.block_type);
        push_u32_le(&mut out, self.bf_index);
        proof {
            assert(out@ =~= spec_serialize_chk(self@));
        }
        out
    }

    /// Parse a 140-byte archive back into a CHK; any other shape is
    /// corrupted.
    pub fn from_bytes(buffer: &[u8]) -> (r: Result<CHK, CoreError>)
        ensures
            match r {
                Ok(c) => spec_parse_chk(buffer@) == Some(c@) && c@.wf(),
                Err(e) => spec_parse_chk(buffer@) is None && e == CoreError::Corrupted,
            },
    {
        if buffer.len() != 140 {
            return Err(CoreError::Corrupted);
        }
        let key_off = read_u32_le(buffer, 108);
        let key_len = read_u32_le(buffer, 112);
        let iv_off = read_u32_le(buffer, 116);
        let iv_len = read_u32_le(buffer, 120);
        let q_off = read_u32_le(buffer, 124);
        let q_len = read_u32_le(buffer, 128);
        if key_off != 0 || key_len != 32 || iv_off != 32 || iv_len != 12 || q_off != 44 || q_len
            != 64 {
            return Err(CoreError::Corrupted);
        }
        let chk = CHK {
            key: copy_range(buffer, 0, 32),
            iv: copy_range(buffer, 32, 44),
            query: copy_range(buffer, 44, 108),
            block_type: read_u32_le(buffer, 132),
            bf_index: read_u32_le(buffer, 136),
        };
        proof {
            assert(spec_parse_chk(buffer@).unwrap() =~= chk@);
        }
        Ok(chk)
    }
}

} // verus!

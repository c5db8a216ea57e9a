//! Index blocks: up to 256 child CHKs, and on the tree root the file's
//! metadata.
//!
//! Archive layout, integers little-endian: the child CHKs inline (140 bytes
//! each), the file-name bytes, then a record of (block type code u32, CHK
//! count u32, metadata tag u32, name length u32, file size u64).

use vstd::prelude::*;
use vstd::bytes::{spec_u32_to_le_bytes, spec_u32_from_le_bytes, spec_u64_to_le_bytes,
    spec_u64_from_le_bytes, lemma_auto_spec_u32_to_from_le_bytes,
    lemma_auto_spec_u64_to_from_le_bytes};
use crate::block_header::BlockHeader;
use crate::block_type::BlockType;
use crate::chk::{CHK, ChkV, spec_serialize_chk, spec_parse_chk, lemma_serialize_chk_len,
    lemma_chk_round_trip};
use crate::codec::{push_bytes, push_u32_le, push_u64_le, read_u32_le, read_u64_le, copy_range};
use crate::metadata::{MetaData, MetaDataV};
use crate::CoreError;

verus! {

/// Largest archive an index block can take, and so the slot width of the
/// index-block block-file: 256 CHKs, the longest admitted file name, and the
/// 24-byte record, unchanged by encryption.
pub const MAX_ENCRYPTED_IBLOCK_BUFFER_SIZE: usize = 35880;

/// Longest file name, in bytes, that fits a full root index block.
pub const MAX_FILE_NAME_BYTES: usize = 16;

/// An interior tree node holding child CHKs; the root also carries metadata.
#[derive(Debug, PartialEq)]
pub struct IBlock {
    pub header: BlockHeader,
    pub chks: Vec<CHK>,
    pub metadata: Option<MetaData>,
}

/// Mathematical view of an [`IBlock`].
#[verifier::ext_equal]
pub struct IBlockV {
    pub header: BlockHeader,
    pub chks: Seq<ChkV>,
    pub metadata: Option<MetaDataV>,
}

impl View for IBlock {
    type V = IBlockV;

    open spec fn view(&self) -> IBlockV {
        IBlockV {
            header: self.header,
            chks: self.chks.deep_view(),
            metadata: self.metadata.deep_view(),
        }
    }
}

impl IBlockV {
    /// The file-name bytes this block archives: the metadata's, or none.
    pub open spec fn name_bytes(self) -> Seq<u8> {
        match self.metadata {
            Some(m) => m.file_name,
            None => Seq::empty(),
        }
    }

    /// The file size this block archives.
    pub open spec fn size_field(self) -> u64 {
        match self.metadata {
            Some(m) => m.file_size,
            None => 0,
        }
    }

    /// The metadata tag this block archives.
    pub open spec fn meta_tag(self) -> u32 {
        match self.metadata {
            Some(m) => 1,
            None => 0,
        }
    }

    /// An index block the codec can archive: between one and 256 well-formed
    /// child CHKs of persistable types, and a name that fits the slot.
    pub open spec fn wf(self) -> bool {
        &&& 0 < self.chks.len() <= 256
        &&& forall|j: int|
            0 <= j < self.chks.len() ==> (#[trigger] self.chks[j]).wf() && self.chks[j].block_type
                <= 1
        &&& self.name_bytes().len() <= MAX_FILE_NAME_BYTES
    }
}

/// The concatenated archives of a run of CHKs.
pub open spec fn spec_serialize_chks(chks: Seq<ChkV>) -> Seq<u8>
    decreases chks.len(),
{
    if chks.len() == 0 {
        Seq::empty()
    } else {
        spec_serialize_chks(chks.drop_last()) + spec_serialize_chk(chks.last())
    }
}

/// The concatenation of well-formed CHK archives is 140 bytes per CHK.
pub proof fn lemma_serialize_chks_len(chks: Seq<ChkV>)
    requires
        forall|j: int| 0 <= j < chks.len() ==> (#[trigger] chks[j]).wf(),
    ensures
        spec_serialize_chks(chks).len() == 140 * chks.len(),
    decreases chks.len(),
{
    if chks.len() > 0 {
        lemma_serialize_chks_len(chks.drop_last());
        lemma_serialize_chk_len(chks.last());
    }
}

/// Appending one CHK extends the concatenation by its archive.
pub proof fn lemma_serialize_chks_snoc(chks: Seq<ChkV>, i: int)
    requires
        0 <= i < chks.len(),
    ensures
        spec_serialize_chks(chks.subrange(0, i + 1)) == spec_serialize_chks(chks.subrange(0, i))
            + spec_serialize_chk(chks[i]),
{
    let pre = chks.subrange(0, i + 1);
    assert(pre.drop_last() =~= chks.subrange(0, i));
    assert(pre.last() == chks[i]);
}

/// Each CHK's archive sits at its 140-byte slot in the concatenation.
pub proof fn lemma_serialize_chks_index(chks: Seq<ChkV>, j: int)
    requires
        forall|k: int| 0 <= k < chks.len() ==> (#[trigger] chks[k]).wf(),
        0 <= j < chks.len(),
    ensures
        spec_serialize_chks(chks).subrange(140 * j, 140 * j + 140) == spec_serialize_chk(chks[j]),
    decreases chks.len(),
{
    lemma_serialize_chks_len(chks);
    lemma_serialize_chk_len(chks.last());
    if j == chks.len() - 1 {
        lemma_serialize_chks_len(chks.drop_last());
        assert(spec_serialize_chks(chks).subrange(140 * j, 140 * j + 140) =~= spec_serialize_chk(
            chks[j],
        ));
    } else {
        lemma_serialize_chks_index(chks.drop_last(), j);
        lemma_serialize_chks_len(chks.drop_last());
        assert(chks.drop_last()[j] == chks[j]);
        assert(spec_serialize_chks(chks).subrange(140 * j, 140 * j + 140) =~= spec_serialize_chks(
            chks.drop_last(),
        ).subrange(140 * j, 140 * j + 140));
    }
}

/// The archive of an index block.
pub open spec fn spec_serialize_i_block(b: IBlockV) -> Seq<u8> {
    spec_serialize_chks(b.chks) + b.name_bytes() + spec_u32_to_le_bytes(b.header.block_type)
        + spec_u32_to_le_bytes(b.chks.len() as u32) + spec_u32_to_le_bytes(b.meta_tag())
        + spec_u32_to_le_bytes(b.name_bytes().len() as u32) + spec_u64_to_le_bytes(b.size_field())
}

/// What bytes parse to as an index block, when their record is consistent
/// and every child CHK parses.
pub open spec fn spec_parse_i_block(bts: Seq<u8>) -> Option<IBlockV> {
    if bts.len() < 24 {
        None
    } else {
        let rec = bts.len() - 24;
        let block_type = spec_u32_from_le_bytes(bts.subrange(rec as int, rec + 4));
        let count = spec_u32_from_le_bytes(bts.subrange(rec + 4, rec + 8));
        let tag = spec_u32_from_le_bytes(bts.subrange(rec + 8, rec + 12));
        let name_len = spec_u32_from_le_bytes(bts.subrange(rec + 12, rec + 16));
        let file_size = spec_u64_from_le_bytes(bts.subrange(rec + 16, rec + 24));
        if count == 0 || count > 256 || tag > 1 || (tag == 0 && (name_len != 0 || file_size != 0))
            || 140 * count + name_len + 24 != bts.len() {
            None
        } else if exists|j: int|
            0 <= j < count && (#[trigger] spec_parse_chk(
                bts.subrange(140 * j, 140 * j + 140),
            )) is None {
            None
        } else {
            Some(
                IBlockV {
                    header: BlockHeader { block_type },
                    chks: Seq::new(
                        count as nat,
                        |j: int| spec_parse_chk(bts.subrange(140 * j, 140 * j + 140)).unwrap(),
                    ),
                    metadata: if tag == 1 {
                        Some(
                            MetaDataV {
                                file_name: bts.subrange(
                                    140 * count,
                                    140 * count + name_len,
                                ),
                                file_size,
                            },
                        )
                    } else {
                        None
                    },
                },
            )
        }
    }
}

/// Every child CHK of a parsed index block is well-formed.
pub proof fn lemma_parse_i_block_chks_wf(bts: Seq<u8>)
    requires
        spec_parse_i_block(bts) is Some,
    ensures
        forall|k: int|
            0 <= k < spec_parse_i_block(bts).unwrap().chks.len() ==> (#[trigger] spec_parse_i_block(
                bts,
            ).unwrap().chks[k]).wf(),
{
    let ib = spec_parse_i_block(bts).unwrap();
    assert forall|k: int| 0 <= k < ib.chks.len() implies (#[trigger] ib.chks[k]).wf() by {
        assert(spec_parse_chk(bts.subrange(140 * k, 140 * k + 140)) is Some);
        crate::chk::lemma_parse_chk_wf(bts.subrange(140 * k, 140 * k + 140));
    }
}

/// A well-formed index block's archive fits the index-block slot.
pub proof fn lemma_serialize_i_block_len(b: IBlockV)
    requires
        b.wf(),
    ensures
        spec_serialize_i_block(b).len() == 140 * b.chks.len() + b.name_bytes().len() + 24,
        spec_serialize_i_block(b).len() <= MAX_ENCRYPTED_IBLOCK_BUFFER_SIZE,
{
    lemma_serialize_chks_len(b.chks);
    lemma_auto_spec_u32_to_from_le_bytes();
    lemma_auto_spec_u64_to_from_le_bytes();
}

/// Parsing inverts the archive of a well-formed index block.
pub proof fn lemma_i_block_round_trip(b: IBlockV)
    requires
        b.wf(),
    ensures
        spec_parse_i_block(spec_serialize_i_block(b)) == Some(b),
{
    lemma_auto_spec_u32_to_from_le_bytes();
    lemma_auto_spec_u64_to_from_le_bytes();
    lemma_serialize_chks_len(b.chks);
    lemma_serialize_i_block_len(b);
    let bts = spec_serialize_i_block(b);
    let n = b.chks.len() as int;
    let name_len = b.name_bytes().len() as int;
    let rec = 140 * n + name_len;
    assert(bts.len() - 24 == rec);
    assert(bts.subrange(rec, rec + 4) =~= spec_u32_to_le_bytes(b.header.block_type));
    assert(bts.subrange(rec + 4, rec + 8) =~= spec_u32_to_le_bytes(b.chks.len() as u32));
    assert(bts.subrange(rec + 8, rec + 12) =~= spec_u32_to_le_bytes(b.meta_tag()));
    assert(bts.subrange(rec + 12, rec + 16) =~= spec_u32_to_le_bytes(b.name_bytes().len() as u32));
    assert(bts.subrange(rec + 16, rec + 24) =~= spec_u64_to_le_bytes(b.size_field()));
    assert(bts.subrange(140 * n, 140 * n + name_len) =~= b.name_bytes());
    assert forall|j: int| 0 <= j < n implies #[trigger] spec_parse_chk(
        bts.subrange(140 * j, 140 * j + 140),
    ) == Some(b.chks[j]) by {
        lemma_serialize_chks_index(b.chks, j);
        assert(bts.subrange(140 * j, 140 * j + 140) =~= spec_serialize_chks(b.chks).subrange(
            140 * j,
            140 * j + 140,
        ));
        lemma_chk_round_trip(b.chks[j]);
    }
    assert(spec_parse_i_block(bts) == Some(b)) by {
        assert(spec_parse_i_block(bts).unwrap() =~~= b);
    }
}

impl IBlock {
    /// An interior index block over a copy of `chks`.
    pub fn new(chks: &[CHK]) -> (r: IBlock)
        requires
            0 < chks@.len() <= 256,
        ensures
            r@.header.block_type == BlockType::IBlock.code(),
            r@.chks == chks.deep_view(),
            r@.metadata is None,
    {
        IBlock {
            header: BlockHeader::new(BlockType::IBlock),
            chks: clone_chks(chks),
            metadata: None,
        }
    }

    /// The root index block: `chks` plus the file's metadata.
    pub fn new_root(chks: &[CHK], metadata: &MetaData) -> (r: IBlock)
        requires
            0 < chks@.len() <= 256,
        ensures
            r@.header.block_type == BlockType::IBlock.code(),
            r@.chks == chks.deep_view(),
            r@.metadata == Some(metadata@),
    {
        IBlock {
            header: BlockHeader::new(BlockType::IBlock),
            chks: clone_chks(chks),
            metadata: Some(
                MetaData {
                    file_name: vstd::slice::slice_to_vec(metadata.file_name.as_slice()),
                    file_size: metadata.file_size,
                },
            ),
        }
    }

    /// The archive of this block.
    #[verifier::loop_isolation(false)]
    pub fn serialize(&self) -> (r: Vec<u8>)
        requires
            self@.wf(),
        ensures
            r@ == spec_serialize_i_block(self@),
            r@.len() <= MAX_ENCRYPTED_IBLOCK_BUFFER_SIZE,
    {
        proof {
            lemma_serialize_i_block_len(self@);
        }
        let mut out: Vec<u8> = Vec::new();
        let mut i: usize = 0;
        while i < self.chks.len()
            invariant
                i <= self.chks@.len(),
                self@.wf(),
                out@ == spec_serialize_chks(self@.chks.subrange(0, i as int)),
                out@.len() == 140 * i,
            decreases self.chks@.len() - i,
        {
            proof {
                assert(self@.chks[i as int].wf() && self@.chks[i as int].block_type <= 1);
                assert(self.chks@[i as int]@ == self@.chks[i as int]);
            }
            let chk_bytes = self.chks[i].serialize();
            push_bytes(&mut out, chk_bytes.as_slice());
            proof {
                lemma_serialize_chks_snoc(self@.chks, i as int);
                lemma_serialize_chks_len(self@.chks.subrange(0, i + 1));
            }
            i = i + 1;
        }
        proof {
            assert(self@.chks.subrange(0, self.chks@.len() as int) =~= self@.chks);
        }
        match &self.metadata {
            Some(m) => {
                push_bytes(&mut out, m.file_name.as_slice());
                push_u32_le(&mut out, self.header.block_type);
                push_u32_le(&mut out, self.chks.len() as u32);
                push_u32_le(&mut out, 1);
                push_u32_le(&mut out, m.file_name.len() as u32);
                push_u64_le(&mut out, m.file_size);
            },
            None => {
                push_u32_le(&mut out, self.header.block_type);
                push_u32_le(&mut out, self.chks.len() as u32);
                push_u32_le(&mut out, 0);
                push_u32_le(&mut out, 0);
                push_u64_le(&mut out, 0);
            },
        }
        proof {
            assert(out@ =~= spec_serialize_i_block(self@));
        }
        out
    }

    /// Parse an archived index block; an inconsistent record or a bad child
    /// CHK is corrupted.
    #[verifier::loop_isolation(false)]
    pub fn from_bytes(buffer: &[u8]) -> (r: Result<IBlock, CoreError>)
        ensures
            match r {
                Ok(b) => spec_parse_i_block(buffer@) == Some(b@),
                Err(e) => spec_parse_i_block(buffer@) is None && e == CoreError::Corrupted,
            },
    {
        let len = buffer.len();
        if len < 24 {
            return Err(CoreError::Corrupted);
        }
        let rec = len - 24;
        let block_type = read_u32_le(buffer, rec);
        let count = read_u32_le(buffer, rec + 4);
        let tag = read_u32_le(buffer, rec + 8);
        let name_len = read_u32_le(buffer, rec + 12);
        let file_size = read_u64_le(buffer, rec + 16);
        if count == 0 || count > 256 || tag > 1 || (tag == 0 && (name_len != 0 || file_size != 0))
        {
            return Err(CoreError::Corrupted);
        }
        if 140u64 * (count as u64) + (name_len as u64) + 24u64 != len as u64 {
            return Err(CoreError::Corrupted);
        }
        let mut chks: Vec<CHK> = Vec::new();
        let mut j: usize = 0;
        while j < count as usize
            invariant
                j <= count,
                count <= 256,
                140 * count + name_len + 24 == buffer@.len(),
                chks@.len() == j,
                forall|k: int|
                    0 <= k < j ==> #[trigger] spec_parse_chk(
                        buffer@.subrange(140 * k, 140 * k + 140),
                    ) == Some(chks@[k]@),
            decreases count - j,
        {
            let chk_bytes = vstd::slice::slice_subrange(buffer, 140 * j, 140 * j + 140);
            proof {
                assert(chk_bytes@ =~= buffer@.subrange(140 * (j as int), 140 * (j as int) + 140));
            }
            match CHK::from_bytes(chk_bytes) {
                Ok(c) => chks.push(c),
                Err(_) => {
                    return Err(CoreError::Corrupted);
                },
            }
            j = j + 1;
        }
        let metadata = if tag == 1 {
            Some(
                MetaData {
                    file_name: copy_range(
                        buffer,
                        140 * (count as usize),
                        140 * (count as usize) + name_len as usize,
                    ),
                    file_size,
                },
            )
        } else {
            None
        };
        let block = IBlock { header: BlockHeader { block_type }, chks, metadata };
        proof {
            assert(block@.chks =~= Seq::new(
                count as nat,
                |k: int| spec_parse_chk(buffer@.subrange(140 * k, 140 * k + 140)).unwrap(),
            ));
            assert(spec_parse_i_block(buffer@) is Some);
            assert(spec_parse_i_block(buffer@).unwrap() =~~= block@);
        }
        Ok(block)
    }
}

/// Copy a run of CHKs into a fresh vector.
fn clone_chks(chks: &[CHK]) -> (r: Vec<CHK>)
    ensures
        r.deep_view() == chks.deep_view(),
{
    let mut out: Vec<CHK> = Vec::new();
    let mut i: usize = 0;
    while i < chks.len()
        invariant
            i <= chks@.len(),
            out@.len() == i,
            forall|k: int| 0 <= k < i ==> (#[trigger] out@[k])@ == chks@[k]@,
        decreases chks@.len() - i,
    {
        let c = &chks[i];
        out.push(
            CHK {
                key: vstd::slice::slice_to_vec(c.key.as_slice()),
                iv: vstd::slice::slice_to_vec(c.iv.as_slice()),
                query: vstd::slice::slice_to_vec(c.query.as_slice()),
                block_type: c.block_type,
                bf_index: c.bf_index,
            },
        );
        i = i + 1;
    }
    proof {
        assert forall|k: int| 0 <= k < chks@.len() implies out.deep_view()[k]
            == chks.deep_view()[k] by {
            assert(out.deep_view()[k] == out@[k]@);
            assert(chks.deep_view()[k] == chks@[k]@);
        }
        assert(out.deep_view() =~= chks.deep_view());
    }
    out
}

} // verus!

//! The persisted record of an upload task, and its archive. Integers
//! little-endian; byte-string fields length-prefixed; the root CHK optional
//! and tagged.

use vstd::prelude::*;
use vstd::bytes::{spec_u32_to_le_bytes, spec_u32_from_le_bytes, spec_u64_to_le_bytes,
    spec_u64_from_le_bytes, lemma_auto_spec_u32_to_from_le_bytes,
    lemma_auto_spec_u64_to_from_le_bytes};
use crate::codec::{push_bytes, push_u32_le, push_u64_le, read_u32_le, read_u64_le, copy_range};
use crate::CoreError;

verus! {

/// What an upload task persists for resume.
#[derive(Debug, PartialEq)]
pub struct UploadTaskInfo {
    pub id: Vec<u8>,
    pub is_encode_done: bool,
    pub is_upload_done: bool,
    pub file_path_string: Vec<u8>,
    pub file_size: u64,
    pub working_directory_string: Vec<u8>,
    pub root_i_block_chk: Option<Vec<u8>>,
}

/// Mathematical view of an [`UploadTaskInfo`].
#[verifier::ext_equal]
pub struct UploadTaskInfoV {
    pub id: Seq<u8>,
    pub is_encode_done: bool,
    pub is_upload_done: bool,
    pub file_path_string: Seq<u8>,
    pub file_size: u64,
    pub working_directory_string: Seq<u8>,
    pub root_i_block_chk: Option<Seq<u8>>,
}

impl View for UploadTaskInfo {
    type V = UploadTaskInfoV;

    open spec fn view(&self) -> UploadTaskInfoV {
        UploadTaskInfoV {
            id: self.id@,
            is_encode_done: self.is_encode_done,
            is_upload_done: self.is_upload_done,
            file_path_string: self.file_path_string@,
            file_size: self.file_size,
            working_directory_string: self.working_directory_string@,
            root_i_block_chk: match self.root_i_block_chk {
                Some(ref v) => Some(v@),
                None => None,
            },
        }
    }
}

impl UploadTaskInfoV {
    /// A record whose fields fit their length prefixes.
    pub open spec fn wf(self) -> bool {
        &&& self.id.len() <= 1000
        &&& self.file_path_string.len() <= 100000
        &&& self.working_directory_string.len() <= 100000
        &&& match self.root_i_block_chk {
            Some(c) => c.len() <= 1000,
            None => true,
        }
    }

    /// The chk bytes this record archives.
    pub open spec fn chk_bytes(self) -> Seq<u8> {
        match self.root_i_block_chk {
            Some(c) => c,
            None => Seq::empty(),
        }
    }
}

/// One flag bit per done-state.
pub open spec fn spec_flags(e: bool, u: bool) -> u32 {
    (if e {
        1int
    } else {
        0int
    } + if u {
        2int
    } else {
        0int
    }) as u32
}

/// The archive of a task record.
pub open spec fn spec_serialize_task_info(v: UploadTaskInfoV) -> Seq<u8> {
    spec_u32_to_le_bytes(v.id.len() as u32) + v.id + spec_u32_to_le_bytes(
        v.file_path_string.len() as u32,
    ) + v.file_path_string + spec_u32_to_le_bytes(v.working_directory_string.len() as u32)
        + v.working_directory_string + spec_u32_to_le_bytes(
        spec_flags(v.is_encode_done, v.is_upload_done),
    ) + spec_u64_to_le_bytes(v.file_size) + spec_u32_to_le_bytes(
        match v.root_i_block_chk {
            Some(_) => 1,
            None => 0,
        },
    ) + spec_u32_to_le_bytes(v.chk_bytes().len() as u32) + v.chk_bytes()
}

/// What bytes parse to as a task record.
pub open spec fn spec_parse_task_info(b: Seq<u8>) -> Option<UploadTaskInfoV> {
    if b.len() < 28 {
        None
    } else {
        let id_len = spec_u32_from_le_bytes(b.subrange(0, 4));
        if 4 + id_len + 28 > b.len() {
            None
        } else {
            let fp_off = 4 + id_len;
            let fp_len = spec_u32_from_le_bytes(b.subrange(fp_off, fp_off + 4));
            if fp_off + 4 + fp_len + 24 > b.len() {
                None
            } else {
                let wd_off = fp_off + 4 + fp_len;
                let wd_len = spec_u32_from_le_bytes(b.subrange(wd_off, wd_off + 4));
                if wd_off + 4 + wd_len + 20 > b.len() {
                    None
                } else {
                    let rec = wd_off + 4 + wd_len;
                    let flags = spec_u32_from_le_bytes(b.subrange(rec, rec + 4));
                    let file_size = spec_u64_from_le_bytes(b.subrange(rec + 4, rec + 12));
                    let tag = spec_u32_from_le_bytes(b.subrange(rec + 12, rec + 16));
                    let chk_len = spec_u32_from_le_bytes(b.subrange(rec + 16, rec + 20));
                    if flags > 3 || tag > 1 || (tag == 0 && chk_len != 0) || rec + 20 + chk_len
                        != b.len() {
                        None
                    } else {
                        Some(
                            UploadTaskInfoV {
                                id: b.subrange(4, 4 + id_len),
                                is_encode_done: flags & 1 == 1,
                                is_upload_done: flags & 2 == 2,
                                file_path_string: b.subrange(fp_off + 4, fp_off + 4 + fp_len),
                                file_size,
                                working_directory_string: b.subrange(wd_off + 4, wd_off + 4 + wd_len),
                                root_i_block_chk: if tag == 1 {
                                    Some(b.subrange(rec + 20, rec + 20 + chk_len))
                                } else {
                                    None
                                },
                            },
                        )
                    }
                }
            }
        }
    }
}

/// Parsing inverts the archive of a well-formed record.
pub proof fn lemma_task_info_round_trip(v: UploadTaskInfoV)
    requires
        v.wf(),
    ensures
        spec_parse_task_info(spec_serialize_task_info(v)) == Some(v),
{
    lemma_auto_spec_u32_to_from_le_bytes();
    lemma_auto_spec_u64_to_from_le_bytes();
    let b = spec_serialize_task_info(v);
    let id_len = v.id.len() as int;
    let fp_len = v.file_path_string.len() as int;
    let wd_len = v.working_directory_string.len() as int;
    let fp_off = 4 + id_len;
    let wd_off = fp_off + 4 + fp_len;
    let rec = wd_off + 4 + wd_len;
    assert(b.subrange(0, 4) =~= spec_u32_to_le_bytes(v.id.len() as u32));
    assert(b.subrange(4, 4 + id_len) =~= v.id);
    assert(b.subrange(fp_off, fp_off + 4) =~= spec_u32_to_le_bytes(
        v.file_path_string.len() as u32,
    ));
    assert(b.subrange(fp_off + 4, fp_off + 4 + fp_len) =~= v.file_path_string);
    assert(b.subrange(wd_off, wd_off + 4) =~= spec_u32_to_le_bytes(
        v.working_directory_string.len() as u32,
    ));
    assert(b.subrange(wd_off + 4, wd_off + 4 + wd_len) =~= v.working_directory_string);
    assert(b.subrange(rec, rec + 4) =~= spec_u32_to_le_bytes(
        spec_flags(v.is_encode_done, v.is_upload_done),
    ));
    assert(b.subrange(rec + 4, rec + 12) =~= spec_u64_to_le_bytes(v.file_size));
    assert(b.subrange(rec + 12, rec + 16) =~= spec_u32_to_le_bytes(
        match v.root_i_block_chk {
            Some(_) => 1,
            None => 0,
        },
    ));
    assert(b.subrange(rec + 16, rec + 20) =~= spec_u32_to_le_bytes(v.chk_bytes().len() as u32));
    assert(b.subrange(rec + 20, rec + 20 + v.chk_bytes().len() as int) =~= v.chk_bytes());
    assert(spec_flags(v.is_encode_done, v.is_upload_done) <= 3);
    assert((spec_flags(v.is_encode_done, v.is_upload_done) & 1 == 1) == v.is_encode_done
        && (spec_flags(v.is_encode_done, v.is_upload_done) & 2 == 2) == v.is_upload_done) by {
        let f = spec_flags(v.is_encode_done, v.is_upload_done);
        assert((0u32 & 1 == 0) && (1u32 & 1 == 1) && (2u32 & 1 == 0) && (3u32 & 1 == 1) && (0u32
            & 2 == 0) && (1u32 & 2 == 0) && (2u32 & 2 == 2) && (3u32 & 2 == 2)) by (bit_vector);
    }
    assert(spec_parse_task_info(b) is Some);
    assert(spec_parse_task_info(b).unwrap() =~~= v);
}

impl UploadTaskInfo {
    /// The archive of this record.
    pub fn to_bytes(&self) -> (r: Vec<u8>)
        requires
            self@.wf(),
        ensures
            r@ == spec_serialize_task_info(self@),
    {
        proof {
            lemma_auto_spec_u32_to_from_le_bytes();
            lemma_auto_spec_u64_to_from_le_bytes();
        }
        let mut out: Vec<u8> = Vec::new();
        push_u32_le(&mut out, self.id.len() as u32);
        push_bytes(&mut out, self.id.as_slice());
        push_u32_le(&mut out, self.file_path_string.len() as u32);
        push_bytes(&mut out, self.file_path_string.as_slice());
        push_u32_le(&mut out, self.working_directory_string.len() as u32);
        push_bytes(&mut out, self.working_directory_string.as_slice());
        let flags: u32 = (if self.is_encode_done {
            1u32
        } else {
            0u32
        }) + (if self.is_upload_done {
            2u32
        } else {
            0u32
        });
        push_u32_le(&mut out, flags);
        push_u64_le(&mut out, self.file_size);
        match &self.root_i_block_chk {
            Some(c) => {
                push_u32_le(&mut out, 1);
                push_u32_le(&mut out, c.len() as u32);
                push_bytes(&mut out, c.as_slice());
            },
            None => {
                push_u32_le(&mut out, 0);
                push_u32_le(&mut out, 0);
            },
        }
        proof {
            assert(out@ =~= spec_serialize_task_info(self@));
        }
        out
    }

    /// Parse an archived record; anything inconsistent is corrupted.
    pub fn from_bytes(buffer: &[u8]) -> (r: Result<UploadTaskInfo, CoreError>)
        ensures
            match r {
                Ok(v) => spec_parse_task_info(buffer@) == Some(v@),
                Err(e) => spec_parse_task_info(buffer@) is None && e == CoreError::Corrupted,
            },
    {
        let len = buffer.len();
        if len < 28 {
            return Err(CoreError::Corrupted);
        }
        let id_len = read_u32_le(buffer, 0) as usize;
        if 4 + (id_len as u64) + 28 > len as u64 {
            return Err(CoreError::Corrupted);
        }
        let fp_off = 4 + id_len;
        let fp_len = read_u32_le(buffer, fp_off) as usize;
        if (fp_off as u64) + 4 + (fp_len as u64) + 24 > len as u64 {
            return Err(CoreError::Corrupted);
        }
        let wd_off = fp_off + 4 + fp_len;
        let wd_len = read_u32_le(buffer, wd_off) as usize;
        if (wd_off as u64) + 4 + (wd_len as u64) + 20 > len as u64 {
            return Err(CoreError::Corrupted);
        }
        let rec = wd_off + 4 + wd_len;
        let flags = read_u32_le(buffer, rec);
        let file_size = read_u64_le(buffer, rec + 4);
        let tag = read_u32_le(buffer, rec + 12);
        let chk_len = read_u32_le(buffer, rec + 16) as usize;
        if flags > 3 || tag > 1 || (tag == 0 && chk_len != 0) || (rec as u64) + 20 + (chk_len
            as u64) != len as u64 {
            return Err(CoreError::Corrupted);
        }
        let info = UploadTaskInfo {
            id: copy_range(buffer, 4, 4 + id_len),
            is_encode_done: flags & 1 == 1,
            is_upload_done: flags & 2 == 2,
            file_path_string: copy_range(buffer, fp_off + 4, fp_off + 4 + fp_len),
            file_size,
            working_directory_string: copy_range(buffer, wd_off + 4, wd_off + 4 + wd_len),
            root_i_block_chk: if tag == 1 {
                Some(copy_range(buffer, rec + 20, rec + 20 + chk_len))
            } else {
                None
            },
        };
        proof {
            assert(spec_parse_task_info(buffer@).unwrap() =~~= info@);
        }
        Ok(info)
    }
}

} // verus!

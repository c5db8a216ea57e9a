//! One upload: encode a file into block files, then hand every block to the
//! DHT under its query hash.

use vstd::prelude::*;
use crate::block_file::BlockFileV;
use crate::chk::{CHK, spec_parse_chk};
use crate::codec::push_bytes;
use crate::crypto::sha3_512_of;
use crate::dht_manager::{DHTManager, Outgoing, spec_sendout, spec_outgoing_views, FANOUT,
    DEFAULT_REPLICATION_LEVEL};
use crate::encryption::EncodedBlocks;
use crate::message::spec_serialize_store;
use crate::route_table::RouteTableV;
use crate::task_manager::fresh_task_id;
use crate::upload_task_info::UploadTaskInfo;
use crate::CoreError;

verus! {

/// The store fan-outs for the data blocks up to slot `upto`: each block's
/// ciphertext addressed under its CHK's query hash.
pub open spec fn spec_upload_d_msgs(
    rt: RouteTableV,
    dchk: BlockFileV,
    dbf: BlockFileV,
    upto: int,
) -> Seq<(crate::endpoint::Endpoint, Seq<u8>)>
    decreases upto,
{
    if upto <= 0 {
        Seq::empty()
    } else {
        spec_upload_d_msgs(rt, dchk, dbf, upto - 1) + spec_sendout(
            rt,
            spec_parse_chk(dchk.slots[upto - 1]).unwrap().query,
            FANOUT as int,
            spec_serialize_store(
                spec_parse_chk(dchk.slots[upto - 1]).unwrap().query,
                dbf.slots[upto - 1],
                DEFAULT_REPLICATION_LEVEL,
            ),
        )
    }
}

/// The store fan-outs for the index blocks up to slot `upto`: each block's
/// ciphertext addressed under its own SHA3-512.
pub open spec fn spec_upload_i_msgs(rt: RouteTableV, ibf: BlockFileV, upto: int) -> Seq<
    (crate::endpoint::Endpoint, Seq<u8>),
>
    decreases upto,
{
    if upto <= 0 {
        Seq::empty()
    } else {
        spec_upload_i_msgs(rt, ibf, upto - 1) + spec_sendout(
            rt,
            sha3_512_of(ibf.slots[upto - 1]),
            FANOUT as int,
            spec_serialize_store(
                sha3_512_of(ibf.slots[upto - 1]),
                ibf.slots[upto - 1],
                DEFAULT_REPLICATION_LEVEL,
            ),
        )
    }
}

/// The state of one upload.
#[derive(Debug)]
pub struct UploadTask {
    pub uuid: Vec<u8>,
    pub file_path: Vec<u8>,
    pub file_size: u64,
    pub is_encode_done: bool,
    pub is_upload_done: bool,
    pub working_directory: Vec<u8>,
    pub root_i_block_chk: Option<CHK>,
}

impl UploadTask {
    /// A task may only carry a persistable root CHK.
    pub open spec fn wf(self) -> bool {
        &&& self.uuid@.len() <= 1000
        &&& self.file_path@.len() <= 100000
        &&& self.working_directory@.len() <= 100000
        &&& match self.root_i_block_chk {
            Some(c) => c@.wf() && c.block_type <= 1,
            None => true,
        }
    }

    /// A fresh task for `file_path` of `file_size` bytes: a new id, and a
    /// working directory named after it under the root.
    pub fn new(working_directory_root: &[u8], file_path: &[u8], file_size: u64) -> (r: UploadTask)
        requires
            working_directory_root@.len() <= 90000,
            file_path@.len() <= 100000,
        ensures
            r.wf(),
            r.file_path@ == file_path@,
            r.file_size == file_size,
            !r.is_encode_done,
            !r.is_upload_done,
            r.root_i_block_chk is None,
            r.uuid@.len() == 36,
            r.working_directory@ == working_directory_root@ + seq![47u8] + r.uuid@,
    {
        let task_uuid = fresh_task_id();
        let mut task_working_dir = vstd::slice::slice_to_vec(working_directory_root);
        task_working_dir.push(47u8);
        push_bytes(&mut task_working_dir, task_uuid.as_slice());
        proof {
            assert(task_working_dir@ =~= working_directory_root@ + seq![47u8] + task_uuid@);
        }
        UploadTask {
            uuid: task_uuid,
            file_path: vstd::slice::slice_to_vec(file_path),
            file_size,
            is_encode_done: false,
            is_upload_done: false,
            working_directory: task_working_dir,
            root_i_block_chk: None,
        }
    }

    /// Rebuild a task from its persisted record; a record whose CHK bytes do
    /// not parse is corrupted.
    pub fn from_info(info: &UploadTaskInfo) -> (r: Result<UploadTask, CoreError>)
        requires
            info@.wf(),
        ensures
            match r {
                Ok(t) => {
                    &&& t.wf()
                    &&& t.uuid@ == info@.id
                    &&& t.file_path@ == info@.file_path_string
                    &&& t.file_size == info@.file_size
                    &&& t.is_encode_done == info@.is_encode_done
                    &&& t.is_upload_done == info@.is_upload_done
                    &&& t.working_directory@ == info@.working_directory_string
                },
                Err(e) => e == CoreError::Corrupted && (info@.root_i_block_chk matches Some(c)
                    && (spec_parse_chk(c) is None || spec_parse_chk(c).unwrap().block_type > 1)),
            },
    {
        let root_i_block_chk = match &info.root_i_block_chk {
            Some(v) => {
                let c = match CHK::from_bytes(v.as_slice()) {
                    Ok(c) => c,
                    Err(e) => {
                        return Err(e);
                    },
                };
                if c.block_type > 1 {
                    return Err(CoreError::Corrupted);
                }
                Some(c)
            },
            None => None,
        };
        Ok(
            UploadTask {
                uuid: vstd::slice::slice_to_vec(info.id.as_slice()),
                file_path: vstd::slice::slice_to_vec(info.file_path_string.as_slice()),
                file_size: info.file_size,
                is_encode_done: info.is_encode_done,
                is_upload_done: info.is_upload_done,
                working_directory: vstd::slice::slice_to_vec(
                    info.working_directory_string.as_slice(),
                ),
                root_i_block_chk,
            },
        )
    }

    /// Encode the file's bytes into block files, record the root CHK, and
    /// mark the encode done. The block files go back to the caller, who
    /// persists them in the working directory.
    pub fn start_encode(&mut self, file_name: &[u8], content: &[u8]) -> (r: EncodedBlocks)
        requires
            old(self).wf(),
            content@.len() > 0,
            content@.len() <= crate::encryption::spec_max_file_len(),
            file_name@.len() <= crate::i_block::MAX_FILE_NAME_BYTES,
        ensures
            final(self).wf(),
            final(self).is_encode_done,
            final(self).uuid@ == old(self).uuid@,
            final(self).file_path@ == old(self).file_path@,
            final(self).file_size == old(self).file_size,
            final(self).is_upload_done == old(self).is_upload_done,
            final(self).working_directory@ == old(self).working_directory@,
            final(self).root_i_block_chk matches Some(c) && crate::encryption::spec_encode_ok(
                content@,
                file_name@,
                c@,
                r.d_block_bf@,
                r.d_block_chk_bf@,
                r.i_block_bf@,
                r.i_block_chk_bf@,
            ),
            r.d_block_bf.inv(),
            r.d_block_chk_bf.inv(),
            r.i_block_bf.inv(),
            r.i_block_chk_bf.inv(),
    {
        let (root_chk, blocks) = crate::encryption::encode_file_to_blocks(file_name, content);
        self.root_i_block_chk = Some(root_chk);
        self.is_encode_done = true;
        blocks
    }

    /// One store fan-out per encoded block, keyed by the block's query
    /// hash: every slot of the data and index block-files is offered to the
    /// DHT. Ciphertexts whose CHK does not parse are corrupted.
    #[verifier::loop_isolation(false)]
    pub fn upload(&mut self, dht_manager: &DHTManager, blocks: &EncodedBlocks) -> (r: Result<
        Vec<Outgoing>,
        CoreError,
    >)
        requires
            old(self).wf(),
            dht_manager.inv(),
            blocks.d_block_bf.inv(),
            blocks.d_block_chk_bf.inv(),
            blocks.i_block_bf.inv(),
            blocks.i_block_chk_bf.inv(),
        ensures
            final(self).wf(),
            r is Ok ==> final(self).is_upload_done,
            r matches Ok(out) ==> spec_outgoing_views(out@) == spec_upload_d_msgs(
                dht_manager.route_table@,
                blocks.d_block_chk_bf@,
                blocks.d_block_bf@,
                blocks.d_block_bf@.slots.len() as int,
            ) + spec_upload_i_msgs(
                dht_manager.route_table@,
                blocks.i_block_bf@,
                blocks.i_block_bf@.slots.len() as int,
            ),
            ({
                &&& blocks.d_block_chk_bf@.slots.len() >= blocks.d_block_bf@.slots.len()
                &&& forall|i: int|
                    0 <= i < blocks.d_block_bf@.slots.len() ==> (#[trigger] spec_parse_chk(
                        blocks.d_block_chk_bf@.slots[i],
                    )) is Some
                &&& forall|i: int|
                    0 <= i < blocks.d_block_bf@.slots.len() ==> (
                    #[trigger] blocks.d_block_bf@.slots[i]).len() + 80 <= u32::MAX
                &&& forall|j: int|
                    0 <= j < blocks.i_block_bf@.slots.len() ==> (
                    #[trigger] blocks.i_block_bf@.slots[j]).len() + 80 <= u32::MAX
            }) ==> r is Ok,
    {
        let ghost rt = dht_manager.route_table@;
        let ghost dbf = blocks.d_block_bf@;
        let ghost dchk = blocks.d_block_chk_bf@;
        let ghost ibf = blocks.i_block_bf@;
        let mut out: Vec<Outgoing> = Vec::new();
        let d_count = blocks.d_block_bf.slot_count();
        let mut i: usize = 0;
        proof {
            assert(spec_outgoing_views(out@) =~= spec_upload_d_msgs(rt, dchk, dbf, 0));
        }
        while i < d_count
            invariant
                i <= d_count,
                self == old(self),
                spec_outgoing_views(out@) == spec_upload_d_msgs(rt, dchk, dbf, i as int),
            decreases d_count - i,
        {
            let chk_bytes = match blocks.d_block_chk_bf.read_nth_block(i) {
                Ok(b) => b,
                Err(_) => {
                    return Err(CoreError::Corrupted);
                },
            };
            let chk = match CHK::from_bytes(chk_bytes.as_slice()) {
                Ok(c) => c,
                Err(e) => {
                    return Err(e);
                },
            };
            let cipher = match blocks.d_block_bf.read_nth_block(i) {
                Ok(b) => b,
                Err(_) => {
                    return Err(CoreError::Corrupted);
                },
            };
            if cipher.len() as u64 > u32::MAX as u64 - 80 {
                return Err(CoreError::Corrupted);
            }
            let msgs = dht_manager.do_store(chk.query.as_slice(), cipher.as_slice());
            let ghost pre_views = spec_outgoing_views(out@);
            let mut k: usize = 0;
            let msgs_vec = msgs;
            proof {
                assert(spec_outgoing_views(out@) =~= pre_views + spec_outgoing_views(
                    msgs_vec@.subrange(0, 0),
                ));
            }
            while k < msgs_vec.len()
                invariant
                    k <= msgs_vec@.len(),
                    self == old(self),
                    spec_outgoing_views(out@) == pre_views + spec_outgoing_views(
                        msgs_vec@.subrange(0, k as int),
                    ),
                decreases msgs_vec@.len() - k,
            {
                let o = Outgoing {
                    dest: msgs_vec[k].dest,
                    bytes: vstd::slice::slice_to_vec(msgs_vec[k].bytes.as_slice()),
                };
                let ghost opre = out@;
                out.push(o);
                proof {
                    assert forall|p: int|
                        0 <= p < out@.len() implies #[trigger] spec_outgoing_views(out@)[p] == (
                    pre_views + spec_outgoing_views(msgs_vec@.subrange(0, k + 1)))[p] by {
                        if p < opre.len() {
                            assert(out@[p] == opre[p]);
                            assert(spec_outgoing_views(opre)[p] == (pre_views
                                + spec_outgoing_views(msgs_vec@.subrange(0, k as int)))[p]);
                            if p >= pre_views.len() {
                                assert(msgs_vec@.subrange(0, k as int)[p - pre_views.len()]
                                    == msgs_vec@[p - pre_views.len()]);
                                assert(msgs_vec@.subrange(0, k + 1)[p - pre_views.len()]
                                    == msgs_vec@[p - pre_views.len()]);
                            }
                        } else {
                            assert(out@[p] == o);
                            assert(msgs_vec@.subrange(0, k + 1)[k as int] == msgs_vec@[k as int]);
                        }
                    }
                    assert(spec_outgoing_views(out@) =~= pre_views + spec_outgoing_views(
                        msgs_vec@.subrange(0, k + 1),
                    ));
                }
                k = k + 1;
            }
            proof {
                assert(msgs_vec@.subrange(0, msgs_vec@.len() as int) =~= msgs_vec@);
                assert(spec_outgoing_views(out@) =~= spec_upload_d_msgs(rt, dchk, dbf, i + 1));
            }
            i = i + 1;
        }
        let i_count = blocks.i_block_bf.slot_count();
        let ghost d_total = spec_upload_d_msgs(rt, dchk, dbf, dbf.slots.len() as int);
        let mut j: usize = 0;
        proof {
            assert(spec_outgoing_views(out@) =~= d_total + spec_upload_i_msgs(rt, ibf, 0));
        }
        while j < i_count
            invariant
                j <= i_count,
                self == old(self),
                spec_outgoing_views(out@) == d_total + spec_upload_i_msgs(rt, ibf, j as int),
            decreases i_count - j,
        {
            let cipher = match blocks.i_block_bf.read_nth_block(j) {
                Ok(b) => b,
                Err(_) => {
                    return Err(CoreError::Corrupted);
                },
            };
            if cipher.len() as u64 > u32::MAX as u64 - 80 {
                return Err(CoreError::Corrupted);
            }
            let query = crate::crypto::sha3_512(cipher.as_slice());
            let msgs = dht_manager.do_store(query.as_slice(), cipher.as_slice());
            let ghost pre_views = spec_outgoing_views(out@);
            let mut k: usize = 0;
            let msgs_vec = msgs;
            proof {
                assert(spec_outgoing_views(out@) =~= pre_views + spec_outgoing_views(
                    msgs_vec@.subrange(0, 0),
                ));
            }
            while k < msgs_vec.len()
                invariant
                    k <= msgs_vec@.len(),
                    self == old(self),
                    spec_outgoing_views(out@) == pre_views + spec_outgoing_views(
                        msgs_vec@.subrange(0, k as int),
                    ),
                decreases msgs_vec@.len() - k,
            {
                let o = Outgoing {
                    dest: msgs_vec[k].dest,
                    bytes: vstd::slice::slice_to_vec(msgs_vec[k].bytes.as_slice()),
                };
                let ghost opre = out@;
                out.push(o);
                proof {
                    assert forall|p: int|
                        0 <= p < out@.len() implies #[trigger] spec_outgoing_views(out@)[p] == (
                    pre_views + spec_outgoing_views(msgs_vec@.subrange(0, k + 1)))[p] by {
                        if p < opre.len() {
                            assert(out@[p] == opre[p]);
                            assert(spec_outgoing_views(opre)[p] == (pre_views
                                + spec_outgoing_views(msgs_vec@.subrange(0, k as int)))[p]);
                            if p >= pre_views.len() {
                                assert(msgs_vec@.subrange(0, k as int)[p - pre_views.len()]
                                    == msgs_vec@[p - pre_views.len()]);
                                assert(msgs_vec@.subrange(0, k + 1)[p - pre_views.len()]
                                    == msgs_vec@[p - pre_views.len()]);
                            }
                        } else {
                            assert(out@[p] == o);
                            assert(msgs_vec@.subrange(0, k + 1)[k as int] == msgs_vec@[k as int]);
                        }
                    }
                    assert(spec_outgoing_views(out@) =~= pre_views + spec_outgoing_views(
                        msgs_vec@.subrange(0, k + 1),
                    ));
                }
                k = k + 1;
            }
            proof {
                assert(msgs_vec@.subrange(0, msgs_vec@.len() as int) =~= msgs_vec@);
                assert(spec_outgoing_views(out@) =~= d_total + spec_upload_i_msgs(rt, ibf, j + 1));
            }
            j = j + 1;
        }
        self.is_upload_done = true;
        Ok(out)
    }

    /// A snapshot of the state, ready to be archived.
    pub fn info(&self) -> (r: UploadTaskInfo)
        requires
            self.wf(),
        ensures
            r@.wf(),
            r@.id == self.uuid@,
            r@.is_encode_done == self.is_encode_done,
            r@.is_upload_done == self.is_upload_done,
            r@.file_path_string == self.file_path@,
            r@.file_size == self.file_size,
            r@.working_directory_string == self.working_directory@,
            r@.root_i_block_chk == (match self.root_i_block_chk {
                Some(c) => Some(crate::chk::spec_serialize_chk(c@)),
                None => None::<Seq<u8>>,
            }),
    {
        UploadTaskInfo {
            id: vstd::slice::slice_to_vec(self.uuid.as_slice()),
            is_encode_done: self.is_encode_done,
            is_upload_done: self.is_upload_done,
            file_path_string: vstd::slice::slice_to_vec(self.file_path.as_slice()),
            file_size: self.file_size,
            working_directory_string: vstd::slice::slice_to_vec(self.working_directory.as_slice()),
            root_i_block_chk: match &self.root_i_block_chk {
                Some(chk) => {
                    proof {
                        crate::chk::lemma_serialize_chk_len(chk@);
                    }
                    Some(chk.serialize())
                },
                None => None,
            },
        }
    }

    /// The archived record, ready to be written to the task's save file.
    pub fn save(&self) -> (r: Vec<u8>)
        requires
            self.wf(),
        ensures
            r@ == crate::upload_task_info::spec_serialize_task_info(self.info_view()),
    {
        let info = self.info();
        info.to_bytes()
    }

    /// The record view `save` archives.
    pub open spec fn info_view(&self) -> crate::upload_task_info::UploadTaskInfoV {
        crate::upload_task_info::UploadTaskInfoV {
            id: self.uuid@,
            is_encode_done: self.is_encode_done,
            is_upload_done: self.is_upload_done,
            file_path_string: self.file_path@,
            file_size: self.file_size,
            working_directory_string: self.working_directory@,
            root_i_block_chk: match self.root_i_block_chk {
                Some(c) => Some(crate::chk::spec_serialize_chk(c@)),
                None => None,
            },
        }
    }
}

} // verus!

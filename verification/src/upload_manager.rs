//! The upload manager: registered upload tasks, found again by their ids.

use vstd::prelude::*;
use crate::codec::bytes_equal;
use crate::upload_task::UploadTask;
use crate::upload_task_info::UploadTaskInfo;
use crate::CoreError;

verus! {

/// Registered uploads under a working directory.
#[derive(Debug)]
pub struct UploadManager {
    pub tasks: Vec<UploadTask>,
    pub working_directory: Vec<u8>,
}

impl UploadManager {
    /// Every held task is well-formed.
    pub open spec fn wf(self) -> bool {
        forall|i: int| 0 <= i < self.tasks@.len() ==> (#[trigger] self.tasks@[i]).wf()
    }

    /// Rebuild a manager from the persisted records found under the working
    /// directory; a record that does not parse back is corrupted.
    #[verifier::loop_isolation(false)]
    pub fn new(working_directory: &[u8], infos: &[UploadTaskInfo]) -> (r: Result<
        UploadManager,
        CoreError,
    >)
        requires
            forall|i: int| 0 <= i < infos@.len() ==> (#[trigger] infos@[i])@.wf(),
        ensures
            match r {
                Ok(m) => {
                    &&& m.wf()
                    &&& m.tasks@.len() == infos@.len()
                    &&& m.working_directory@ == working_directory@
                    &&& forall|q: int|
                        0 <= q < infos@.len() ==> (#[trigger] m.tasks@[q]).uuid@ == infos@[q]@.id
                            && m.tasks@[q].file_path@ == infos@[q]@.file_path_string
                            && m.tasks@[q].file_size == infos@[q]@.file_size
                            && m.tasks@[q].is_encode_done == infos@[q]@.is_encode_done
                            && m.tasks@[q].is_upload_done == infos@[q]@.is_upload_done
                            && m.tasks@[q].working_directory@
                            == infos@[q]@.working_directory_string
                },
                Err(e) => e == CoreError::Corrupted,
            },
            (forall|i: int|
                0 <= i < infos@.len() ==> (match (#[trigger] infos@[i])@.root_i_block_chk {
                    Some(c) => crate::chk::spec_parse_chk(c) is Some
                        && crate::chk::spec_parse_chk(c).unwrap().block_type <= 1,
                    None => true,
                })) ==> r is Ok,
    {
        let mut tasks: Vec<UploadTask> = Vec::new();
        let mut i: usize = 0;
        while i < infos.len()
            invariant
                i <= infos@.len(),
                tasks@.len() == i,
                forall|q: int|
                    0 <= q < i ==> (#[trigger] tasks@[q]).wf() && tasks@[q].uuid@ == infos@[q]@.id
                        && tasks@[q].file_path@ == infos@[q]@.file_path_string
                        && tasks@[q].file_size == infos@[q]@.file_size
                        && tasks@[q].is_encode_done == infos@[q]@.is_encode_done
                        && tasks@[q].is_upload_done == infos@[q]@.is_upload_done
                        && tasks@[q].working_directory@ == infos@[q]@.working_directory_string,
            decreases infos@.len() - i,
        {
            let task = match UploadTask::from_info(&infos[i]) {
                Ok(t) => t,
                Err(_) => {
                    return Err(CoreError::Corrupted);
                },
            };
            tasks.push(task);
            i = i + 1;
        }
        Ok(
            UploadManager {
                tasks,
                working_directory: vstd::slice::slice_to_vec(working_directory),
            },
        )
    }

    /// Register a new upload of `file_path`. The embedder has checked that
    /// the path names a real file of `file_size` bytes.
    pub fn upload(&mut self, file_path: &[u8], file_size: u64)
        requires
            old(self).wf(),
            old(self).working_directory@.len() <= 90000,
            file_path@.len() <= 100000,
        ensures
            final(self).wf(),
            final(self).tasks@.len() == old(self).tasks@.len() + 1,
            final(self).tasks@.drop_last() == old(self).tasks@,
            final(self).tasks@.last().file_path@ == file_path@,
            final(self).tasks@.last().file_size == file_size,
            !final(self).tasks@.last().is_encode_done,
            !final(self).tasks@.last().is_upload_done,
            final(self).tasks@.last().root_i_block_chk is None,
            final(self).tasks@.last().uuid@.len() == 36,
            final(self).tasks@.last().working_directory@ == old(self).working_directory@
                + seq![47u8] + final(self).tasks@.last().uuid@,
            final(self).working_directory@ == old(self).working_directory@,
    {
        let new_task = UploadTask::new(
            self.working_directory.as_slice(),
            file_path,
            file_size,
        );
        self.tasks.push(new_task);
        proof {
            assert(self.tasks@.last() == self.tasks@[self.tasks@.len() - 1]);
            assert(self.tasks@.drop_last() =~= old(self).tasks@);
        }
    }

    /// The records of every held task.
    #[verifier::loop_isolation(false)]
    pub fn task_infos(&self) -> (r: Vec<UploadTaskInfo>)
        requires
            self.wf(),
        ensures
            r@.len() == self.tasks@.len(),
            forall|i: int|
                0 <= i < r@.len() ==> (#[trigger] r@[i])@.id == self.tasks@[i].uuid@ && r@[i]@.file_path_string
                    == self.tasks@[i].file_path@ && r@[i]@.file_size == self.tasks@[i].file_size
                    && r@[i]@.is_encode_done == self.tasks@[i].is_encode_done
                    && r@[i]@.is_upload_done == self.tasks@[i].is_upload_done,
    {
        let mut infos: Vec<UploadTaskInfo> = Vec::new();
        let mut i: usize = 0;
        while i < self.tasks.len()
            invariant
                i <= self.tasks@.len(),
                infos@.len() == i,
                forall|q: int|
                    0 <= q < i ==> (#[trigger] infos@[q])@.id == self.tasks@[q].uuid@ && infos@[q]@.file_path_string
                        == self.tasks@[q].file_path@ && infos@[q]@.file_size == self.tasks@[q].file_size
                        && infos@[q]@.is_encode_done == self.tasks@[q].is_encode_done
                        && infos@[q]@.is_upload_done == self.tasks@[q].is_upload_done,
            decreases self.tasks@.len() - i,
        {
            proof {
                assert(self.tasks@[i as int].wf());
            }
            infos.push(self.tasks[i].info());
            i = i + 1;
        }
        infos
    }

    /// The position of the task registered under `task_uuid`; asking for an
    /// unknown id is the caller's error.
    #[verifier::loop_isolation(false)]
    pub fn start_task(&self, task_uuid: &[u8]) -> (r: Result<usize, CoreError>)
        ensures
            match r {
                Ok(i) => i < self.tasks@.len() && self.tasks@[i as int].uuid@ == task_uuid@,
                Err(e) => e == CoreError::NotFound && forall|i: int|
                    0 <= i < self.tasks@.len() ==> (#[trigger] self.tasks@[i]).uuid@ != task_uuid@,
            },
    {
        let mut i: usize = 0;
        while i < self.tasks.len()
            invariant
                i <= self.tasks@.len(),
                forall|q: int| 0 <= q < i ==> (#[trigger] self.tasks@[q]).uuid@ != task_uuid@,
            decreases self.tasks@.len() - i,
        {
            if bytes_equal(self.tasks[i].uuid.as_slice(), task_uuid) {
                return Ok(i);
            }
            i = i + 1;
        }
        Err(CoreError::NotFound)
    }
}

/// Uploads can be parked and resumed through the task manager; a snapshot
/// that does not fit the archive bounds saves as empty, and a snapshot that
/// does not parse back loads as a blank task.
impl crate::task_manager::ResumeableTask for UploadTask {
    fn resume(&self) {
    }

    fn is_done(&self) -> bool {
        false
    }

    fn save(&self) -> Vec<u8> {
        let chk_ok = match &self.root_i_block_chk {
            Some(c) => c.key.len() == 32 && c.iv.len() == 12 && c.query.len() == 64
                && c.block_type <= 1,
            None => true,
        };
        if self.uuid.len() <= 1000 && self.file_path.len() <= 100000
            && self.working_directory.len() <= 100000 && chk_ok {
            UploadTask::save(self)
        } else {
            Vec::new()
        }
    }

    fn load(savedata: &[u8]) -> Self {
        let blank = UploadTask {
            uuid: Vec::new(),
            file_path: Vec::new(),
            file_size: 0,
            is_encode_done: false,
            is_upload_done: false,
            working_directory: Vec::new(),
            root_i_block_chk: None,
        };
        let info = match UploadTaskInfo::from_bytes(savedata) {
            Ok(i) => i,
            Err(_) => {
                return blank;
            },
        };
        if info.id.len() > 1000 || info.file_path_string.len() > 100000
            || info.working_directory_string.len() > 100000 {
            return blank;
        }
        let chk_len_ok = match &info.root_i_block_chk {
            Some(c) => c.len() <= 1000,
            None => true,
        };
        if !chk_len_ok {
            return blank;
        }
        match UploadTask::from_info(&info) {
            Ok(t) => t,
            Err(_) => blank,
        }
    }
}

} // verus!

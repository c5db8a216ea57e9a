//! Download bookkeeping: a task per wanted file, addressed by the root
//! CHK. The network-driven download itself is not defined here.

use vstd::prelude::*;
use crate::chk::CHK;
use crate::task_manager::fresh_task_id;

verus! {

/// One wanted file.
#[derive(Debug)]
pub struct DownloadTask {
    pub uuid: Vec<u8>,
    pub root_i_block_chk: CHK,
    pub working_directory: Vec<u8>,
}

impl DownloadTask {
    /// A fresh download of the file rooted at `root_i_block_chk`.
    pub fn new(working_directory_root: &[u8], root_i_block_chk: &CHK) -> (r: DownloadTask)
        ensures
            r.root_i_block_chk@ == root_i_block_chk@,
            r.working_directory@ == working_directory_root@,
            r.uuid@.len() == 36,
    {
        DownloadTask {
            uuid: fresh_task_id(),
            root_i_block_chk: root_i_block_chk.clone(),
            working_directory: vstd::slice::slice_to_vec(working_directory_root),
        }
    }
}

/// Registered downloads under a working directory.
#[derive(Debug)]
pub struct DownloadManager {
    pub tasks: Vec<DownloadTask>,
    pub working_directory: Vec<u8>,
}

impl DownloadManager {
    /// An empty manager over a working directory.
    pub fn new(working_directory: &[u8]) -> (r: DownloadManager)
        ensures
            r.tasks@.len() == 0,
            r.working_directory@ == working_directory@,
    {
        DownloadManager {
            tasks: Vec::new(),
            working_directory: vstd::slice::slice_to_vec(working_directory),
        }
    }

    /// Register a download of the file rooted at `top_i_block_chk`.
    pub fn download(&mut self, top_i_block_chk: &CHK)
        ensures
            final(self).tasks@.len() == old(self).tasks@.len() + 1,
            final(self).tasks@.drop_last() == old(self).tasks@,
            final(self).tasks@.last().root_i_block_chk@ == top_i_block_chk@,
            final(self).tasks@.last().working_directory@ == old(self).working_directory@,
            final(self).tasks@.last().uuid@.len() == 36,
            final(self).working_directory@ == old(self).working_directory@,
    {
        let task = DownloadTask::new(self.working_directory.as_slice(), top_i_block_chk);
        self.tasks.push(task);
        proof {
            assert(self.tasks@.last() == self.tasks@[self.tasks@.len() - 1]);
            assert(self.tasks@.drop_last() =~= old(self).tasks@);
        }
    }
}

} // verus!

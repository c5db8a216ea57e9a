//! Resumable background tasks, addressed by fresh random ids.

use vstd::prelude::*;

verus! {

/// A task that can persist itself and pick up where it left off.
pub trait ResumeableTask {
    fn resume(&self);

    fn is_done(&self) -> bool;

    fn save(&self) -> Vec<u8>;

    fn load(savedata: &[u8]) -> Self where Self: core::marker::Sized;
}

/// Relies on uuid::Uuid::new_v4 and its hyphenated text form: 36 ASCII
/// bytes. Nothing more is assumed of a random id.
#[verifier::external_body]
pub(crate) fn fresh_task_id() -> (r: Vec<u8>)
    ensures
        r@.len() == 36,
{
    uuid::Uuid::new_v4().to_string().into_bytes()
}

/// Tasks held under their ids.
pub struct TaskManager<T: ResumeableTask> {
    tasks: Vec<(Vec<u8>, T)>,
}

impl<T: ResumeableTask> TaskManager<T> {
    /// The ids and tasks held.
    pub closed spec fn tasks_view(&self) -> Seq<(Vec<u8>, T)> {
        self.tasks@
    }

    /// An empty manager.
    pub fn new() -> (r: TaskManager<T>)
        ensures
            r.tasks_view().len() == 0,
    {
        TaskManager { tasks: Vec::new() }
    }

    /// Hold a task under a fresh id; the id is returned.
    pub fn append_task(&mut self, task: T) -> (r: Vec<u8>)
        ensures
            final(self).tasks_view().len() == old(self).tasks_view().len() + 1,
            final(self).tasks_view().drop_last() == old(self).tasks_view(),
            final(self).tasks_view().last().0@ == r@,
            final(self).tasks_view().last().1 == task,
            r@.len() == 36,
    {
        let uuid = fresh_task_id();
        let id_copy = vstd::slice::slice_to_vec(uuid.as_slice());
        self.tasks.push((uuid, task));
        proof {
            assert(self.tasks@.last() == self.tasks@[self.tasks@.len() - 1]);
            assert(self.tasks@.drop_last() =~= old(self).tasks@);
        }
        id_copy
    }
}

} // verus!

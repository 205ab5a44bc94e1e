//! The ordered in-memory task collection for one session: load at startup,
//! append and identity-based removal during the session, persist at the end.

use vstd::prelude::*;
use crate::codec::{Task, TaskView, views_of, spec_decode, spec_encode, encodable, decode, encode,
    lemma_decode_encode_round_trip};

verus! {

/// The ordered collection of tasks of the current session.
pub struct TaskStore {
    tasks: Vec<Task>,
}

impl View for TaskStore {
    type V = Seq<TaskView>;

    closed spec fn view(&self) -> Seq<TaskView> {
        views_of(self.tasks@)
    }
}

impl TaskStore {
    /// An empty store.
    pub fn new() -> (store: TaskStore)
        ensures
            store@ == Seq::<TaskView>::empty(),
    {
        let store = TaskStore { tasks: Vec::new() };
        proof {
            assert(store@ =~= Seq::<TaskView>::empty());
        }
        store
    }

    /// Loads a store from the persisted text. A source that could not be
    /// opened is handed in as `None` and yields an empty store; this is not
    /// an error.
    pub fn load(source: Option<&str>) -> (store: TaskStore)
        ensures
            (match source {
                Some(contents) => store@ == spec_decode(contents@),
                None => store@ == Seq::<TaskView>::empty(),
            }),
    {
        match source {
            Some(contents) => TaskStore { tasks: decode(contents) },
            None => TaskStore::new(),
        }
    }

    /// Appends a task at the tail; the order of the others is unchanged.
    pub fn append(&mut self, task: Task)
        ensures
            final(self)@ == old(self)@.push(task@),
    {
        let ghost before = self.tasks@;
        self.tasks.push(task);
        proof {
            assert(views_of(self.tasks@) =~= views_of(before).push(self.tasks@.last()@));
        }
    }

    /// Removes exactly the task the handle identifies, even when another
    /// task holds the same text and importance; a handle that identifies no
    /// current task is a no-op.
    pub fn remove_by_handle(&mut self, handle: usize)
        ensures
            handle < old(self)@.len() ==> final(self)@ == old(self)@.remove(handle as int),
            handle >= old(self)@.len() ==> final(self)@ == old(self)@,
    {
        let ghost before = self.tasks@;
        if handle < self.tasks.len() {
            self.tasks.remove(handle);
            proof {
                assert(views_of(self.tasks@) =~= views_of(before).remove(handle as int));
            }
        }
    }

    /// The number of tasks currently held.
    pub fn len(&self) -> (n: usize)
        ensures
            n == self@.len(),
    {
        self.tasks.len()
    }

    /// The current ordered tasks, for the presentation layer to render.
    pub fn enumerate(&self) -> (tasks: &Vec<Task>)
        ensures
            views_of(tasks@) == self@,
    {
        &self.tasks
    }

    /// The task the handle currently identifies.
    pub fn get(&self, handle: usize) -> (task: &Task)
        requires
            handle < self@.len(),
        ensures
            task@ == self@[handle as int],
    {
        &self.tasks[handle]
    }

    /// The persisted text of the current order. Writing it to the sink, and
    /// swallowing a sink that cannot be opened, is the caller's part.
    pub fn persist(&self) -> (out: String)
        ensures
            out@ == spec_encode(self@),
    {
        encode(&self.tasks)
    }
}

/// Law: appending tasks, persisting, and reloading yields the same tasks in
/// the same order, for any tasks whose bodies are nonempty, trimmed, and
/// free of delimiter and marker lines.
pub proof fn lemma_persist_reload(ts: Seq<TaskView>)
    requires
        forall|i: int| 0 <= i < ts.len() ==> encodable(#[trigger] ts[i]),
    ensures
        spec_decode(spec_encode(ts)) == ts,
{
    lemma_decode_encode_round_trip(ts);
}

} // verus!

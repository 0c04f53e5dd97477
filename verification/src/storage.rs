//! The task store: the collection behind one record file.
//!
//! The store itself holds no file handle: it is handed the file's text and
//! returns the text to write, so that every decision about the record is
//! verified while the reading, writing and renaming stay in the thin
//! unverified shell.
//!
//! Two processes working on the same file are not coordinated: there is no
//! lock, so when two saves race, whichever rename lands last wins and the
//! other's addition is silently lost. This is a known, accepted limit of
//! the design.

use vstd::prelude::*;
use crate::task::{Task, TaskV, SortType, views};
use crate::sorting::{sort_tasks, sorted_by_strategy};
use crate::codec::{encode_tasks, decode_tasks, spec_encode, spec_decode};

verus! {

/// What can go wrong around the record file.
#[derive(Debug)]
pub enum StorageError {
    /// Reading, writing or renaming the file failed; the text describes
    /// the failure.
    IoError(String),
    /// The file's text is not a valid record; the text names the fault.
    DecodeError(String),
}

/// The task collection kept behind a record file at a fixed path.
pub struct TaskStorage {
    pub tasks: Vec<Task>,
    pub path: String,
}

impl TaskStorage {
    /// A fresh store over the record file at `path`, before any load.
    pub fn new(path: String) -> (r: TaskStorage)
        ensures
            r.tasks@.len() == 0,
            r.path@ == path@,
    {
        TaskStorage { tasks: Vec::new(), path }
    }

    /// The path of the record file.
    pub fn path(&self) -> (r: &String)
        ensures
            r@ == self.path@,
    {
        &self.path
    }

    /// Takes the record file's text in and fills the collection from it:
    /// a missing file (`None`) and an empty file both mean an empty
    /// collection, readable text means exactly the tasks it carries, and
    /// anything else is refused without touching the collection.
    pub fn load(&mut self, contents: Option<&str>) -> (r: Result<(), StorageError>)
        ensures
            final(self).path@ == old(self).path@,
            match contents {
                None => r is Ok && final(self).tasks@.len() == 0,
                Some(s) => if s@.len() == 0 {
                    r is Ok && final(self).tasks@.len() == 0
                } else {
                    match spec_decode(s@) {
                        Some(ts) => r is Ok && views(final(self).tasks@) == ts,
                        None => (r matches Err(StorageError::DecodeError(_)))
                            && final(self).tasks@ == old(self).tasks@,
                    }
                },
            },
    {
        match contents {
            None => {
                self.tasks = Vec::new();
                Ok(())
            },
            Some(s) => {
                if s.unicode_len() == 0 {
                    self.tasks = Vec::new();
                    Ok(())
                } else {
                    match decode_tasks(s) {
                        Some(v) => {
                            self.tasks = v;
                            Ok(())
                        },
                        None => Err(
                            StorageError::DecodeError(
                                String::from_str("the task file does not hold a valid record"),
                            ),
                        ),
                    }
                }
            },
        }
    }

    /// Appends a task to the collection.
    pub fn add_task(&mut self, task: Task)
        ensures
            final(self).tasks@ == old(self).tasks@.push(task),
            final(self).path@ == old(self).path@,
    {
        self.tasks.push(task);
    }

    /// Empties the collection, as a reset of the store does.
    pub fn clear(&mut self)
        ensures
            final(self).tasks@.len() == 0,
            final(self).path@ == old(self).path@,
    {
        self.tasks.clear();
    }

    /// The text to write as the record file: the canonical written form
    /// of the collection.
    pub fn store(&self) -> (r: String)
        ensures
            r@ == spec_encode(views(self.tasks@)),
    {
        encode_tasks(&self.tasks)
    }

    /// Reorders the collection under the chosen strategy, keeping exactly
    /// the same tasks.
    pub fn sort(&mut self, sorting: SortType)
        ensures
            final(self).path@ == old(self).path@,
            sorted_by_strategy(sorting, views(final(self).tasks@)),
            views(final(self).tasks@).to_multiset() == views(old(self).tasks@).to_multiset(),
            final(self).tasks@.len() == old(self).tasks@.len(),
    {
        sort_tasks(&mut self.tasks, sorting);
    }
}

// ---------------------------------------------------------------------
// The save protocol, as a model of the two paths it touches.
// ---------------------------------------------------------------------

/// The contents of the two paths the save protocol touches: the record
/// file itself and the temporary file beside it. `None` stands for a path
/// with no file.
pub ghost struct DiskState {
    pub real: Option<Seq<char>>,
    pub temp: Option<Seq<char>>,
}

/// The first step of a save: the new text goes to the temporary path.
pub open spec fn write_temp(d: DiskState, content: Seq<char>) -> DiskState {
    DiskState { real: d.real, temp: Some(content) }
}

/// The second step of a save: the temporary file replaces the record
/// file in one rename.
pub open spec fn rename_temp(d: DiskState) -> DiskState
    recommends
        d.temp is Some,
{
    DiskState { real: d.temp, temp: None }
}

/// The save protocol is crash safe: a crash after the temporary write but
/// before the rename leaves the record file exactly as it was, and the
/// completed rename leaves it holding exactly the encoded collection.
/// The record file never holds a half-written state.
pub proof fn lemma_save_crash_safe(d: DiskState, ts: Seq<TaskV>)
    ensures
        write_temp(d, spec_encode(ts)).real == d.real,
        rename_temp(write_temp(d, spec_encode(ts))).real == Some(spec_encode(ts)),
{
}

} // verus!

//! The task record: a name, a due time and a relative work weight.

use vstd::prelude::*;

verus! {

/// How much effort a task is expected to take. Display-only: it has no
/// effect on ordering.
#[derive(Clone, Copy, Debug, PartialEq, Eq, Structural)]
pub enum WorkWeight {
    UltraLight,
    Light,
    Medium,
    Heavy,
    UltraHeavy,
}

/// An ordering strategy for a task collection.
#[derive(Clone, Copy, Debug, PartialEq, Eq, Structural)]
pub enum SortType {
    Alphabetical,
    ClosestToDeadline,
    FurthestFromDeadline,
}

/// The mathematical value of a task: the due time as seconds on the naive
/// local time line, the name as a sequence of characters, and the weight.
pub ghost struct TaskV {
    pub due_date: int,
    pub name: Seq<char>,
    pub weight: WorkWeight,
}

/// A task, immutable once created. The due time is a naive local date and
/// time, counted in seconds from the epoch of that time line.
#[derive(Debug)]
pub struct Task {
    pub due_date: i64,
    pub name: String,
    pub weight: WorkWeight,
}

impl View for Task {
    type V = TaskV;

    open spec fn view(&self) -> TaskV {
        TaskV { due_date: self.due_date as int, name: self.name@, weight: self.weight }
    }
}

/// A task value the record format can carry: the name is non-empty and the
/// due time fits the machine's signed 64-bit seconds.
pub open spec fn task_v_valid(t: TaskV) -> bool {
    &&& t.name.len() > 0
    &&& i64::MIN <= t.due_date <= i64::MAX
}

impl Task {
    /// Builds a task from already-validated parts: the caller has checked
    /// that the name is non-empty.
    pub fn new(due_date: i64, name: String, weight: WorkWeight) -> (r: Task)
        requires
            name@.len() > 0,
        ensures
            r@ == (TaskV { due_date: due_date as int, name: name@, weight }),
    {
        Task { due_date, name, weight }
    }
}

/// The values of a sequence of tasks.
pub open spec fn views(s: Seq<Task>) -> Seq<TaskV> {
    s.map_values(|t: Task| t@)
}

} // verus!

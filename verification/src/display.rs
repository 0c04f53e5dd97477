//! What one task's line of output says: the remaining time and the
//! urgency band, computed here; colors and table drawing stay in the
//! unverified shell.

use vstd::prelude::*;
use crate::task::{Task, WorkWeight};

verus! {

/// The time remaining until a task is due, in whole days and hours.
#[derive(Clone, Copy, Debug, PartialEq, Eq, Structural)]
pub enum TimeLeft {
    /// The due moment lies in the past.
    Overdue,
    /// Less than a day remains.
    Hours(u64),
    /// At least a day remains.
    DaysHours(u64, u64),
}

/// The urgency band a task's bar is drawn in, by days remaining: at most
/// two, at most five, or more.
#[derive(Clone, Copy, Debug, PartialEq, Eq, Structural)]
pub enum Tier {
    Urgent,
    Soon,
    Distant,
}

/// One row of the task table, ready to be drawn.
pub struct TaskRow {
    pub name: String,
    pub weight: WorkWeight,
    pub time_left: TimeLeft,
    /// How many bar segments to draw: one per full day remaining.
    pub bar_count: u64,
    pub tier: Tier,
}

impl TaskRow {
    /// The row for a task against the clock reading `now`.
    pub fn from_task(task: &Task, now: i64) -> (r: TaskRow)
        ensures
            r.name@ == task.name@,
            r.weight == task.weight,
            task@.due_date < now as int ==> r.time_left == TimeLeft::Overdue && r.bar_count == 0
                && r.tier == Tier::Urgent,
            task@.due_date >= now as int ==> ({
                let days = (task@.due_date - now as int) / 86400;
                let hours = ((task@.due_date - now as int) / 3600) % 24;
                &&& r.time_left == if days == 0 {
                    TimeLeft::Hours(hours as u64)
                } else {
                    TimeLeft::DaysHours(days as u64, hours as u64)
                }
                &&& r.bar_count == days
                &&& r.tier == if days <= 2 {
                    Tier::Urgent
                } else if days <= 5 {
                    Tier::Soon
                } else {
                    Tier::Distant
                }
            }),
    {
        let name = task.name.clone();
        if task.due_date < now {
            TaskRow {
                name,
                weight: task.weight,
                time_left: TimeLeft::Overdue,
                bar_count: 0,
                tier: Tier::Urgent,
            }
        } else {
            let d: u64 = ((task.due_date as i128) - (now as i128)) as u64;
            proof {
                assert(d as int == task@.due_date - now as int);
            }
            let days = d / 86400;
            let hours = (d / 3600) % 24;
            let time_left = if days == 0 {
                TimeLeft::Hours(hours)
            } else {
                TimeLeft::DaysHours(days, hours)
            };
            let tier = if days <= 2 {
                Tier::Urgent
            } else if days <= 5 {
                Tier::Soon
            } else {
                Tier::Distant
            };
            TaskRow { name, weight: task.weight, time_left, bar_count: days, tier }
        }
    }
}

} // verus!

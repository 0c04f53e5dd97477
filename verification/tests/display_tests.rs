use todo_tracker::display::{TaskRow, Tier, TimeLeft};
use todo_tracker::task::{Task, WorkWeight};

const NOW: i64 = 1_700_000_000;

fn row(due: i64) -> TaskRow {
    let t = Task::new(due, String::from("t"), WorkWeight::Medium);
    TaskRow::from_task(&t, NOW)
}

#[test]
fn past_due_reads_overdue() {
    let r = row(NOW - 1);
    assert_eq!(r.time_left, TimeLeft::Overdue);
    assert_eq!(r.bar_count, 0);
    assert_eq!(r.tier, Tier::Urgent);
}

#[test]
fn under_a_day_reads_hours() {
    // five hours and a bit
    let r = row(NOW + 5 * 3600 + 120);
    assert_eq!(r.time_left, TimeLeft::Hours(5));
    assert_eq!(r.bar_count, 0);
    assert_eq!(r.tier, Tier::Urgent);
}

#[test]
fn days_and_hours_are_exact() {
    // two days, seven hours, and a bit
    let r = row(NOW + 2 * 86_400 + 7 * 3600 + 59);
    assert_eq!(r.time_left, TimeLeft::DaysHours(2, 7));
    assert_eq!(r.bar_count, 2);
    assert_eq!(r.tier, Tier::Urgent);
}

#[test]
fn tiers_band_by_days_remaining() {
    assert_eq!(row(NOW + 2 * 86_400).tier, Tier::Urgent);
    assert_eq!(row(NOW + 3 * 86_400).tier, Tier::Soon);
    assert_eq!(row(NOW + 5 * 86_400).tier, Tier::Soon);
    assert_eq!(row(NOW + 6 * 86_400).tier, Tier::Distant);
}

#[test]
fn bar_count_is_days_remaining() {
    assert_eq!(row(NOW + 9 * 86_400 + 3600).bar_count, 9);
}

#[test]
fn row_keeps_name_and_weight() {
    let t = Task::new(NOW + 10, String::from("named"), WorkWeight::UltraHeavy);
    let r = TaskRow::from_task(&t, NOW);
    assert_eq!(r.name, "named");
    assert_eq!(r.weight, WorkWeight::UltraHeavy);
}

#[test]
fn due_exactly_now_is_not_overdue() {
    let r = row(NOW);
    assert_eq!(r.time_left, TimeLeft::Hours(0));
}

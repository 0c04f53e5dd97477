use todo_tracker::storage::TaskStorage;
use todo_tracker::task::{SortType, Task, WorkWeight};

fn task(due: i64, name: &str) -> Task {
    Task::new(due, String::from(name), WorkWeight::Medium)
}

fn store_with(tasks: Vec<Task>) -> TaskStorage {
    let mut s = TaskStorage::new(String::from("tasks.json"));
    for t in tasks {
        s.add_task(t);
    }
    s
}

#[test]
fn sort_closest_to_deadline_is_nondecreasing() {
    let mut s = store_with(vec![task(50, "c"), task(10, "a"), task(30, "b"), task(10, "d")]);
    s.sort(SortType::ClosestToDeadline);
    let dues: Vec<i64> = s.tasks.iter().map(|t| t.due_date).collect();
    assert_eq!(dues, vec![10, 10, 30, 50]);
}

#[test]
fn sort_furthest_from_deadline_is_nonincreasing() {
    let mut s = store_with(vec![task(50, "c"), task(10, "a"), task(30, "b")]);
    s.sort(SortType::FurthestFromDeadline);
    let dues: Vec<i64> = s.tasks.iter().map(|t| t.due_date).collect();
    assert_eq!(dues, vec![50, 30, 10]);
}

#[test]
fn sort_alphabetical_is_nondecreasing_by_name() {
    let mut s = store_with(vec![
        task(1, "pear"),
        task(2, "apple"),
        task(3, "banana"),
        task(4, "app"),
    ]);
    s.sort(SortType::Alphabetical);
    let names: Vec<&str> = s.tasks.iter().map(|t| t.name.as_str()).collect();
    assert_eq!(names, vec!["app", "apple", "banana", "pear"]);
}

#[test]
fn sort_keeps_every_task() {
    let mut s = store_with(vec![task(5, "x"), task(5, "x"), task(1, "y")]);
    s.sort(SortType::ClosestToDeadline);
    assert_eq!(s.tasks.len(), 3);
    assert_eq!(s.tasks.iter().filter(|t| t.name == "x").count(), 2);
    assert_eq!(s.tasks.iter().filter(|t| t.name == "y").count(), 1);
}

#[test]
fn sort_negative_due_dates_come_first() {
    let mut s = store_with(vec![task(100, "later"), task(-100, "earlier")]);
    s.sort(SortType::ClosestToDeadline);
    assert_eq!(s.tasks[0].name, "earlier");
    assert_eq!(s.tasks[1].name, "later");
}

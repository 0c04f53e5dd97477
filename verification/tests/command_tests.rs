use todo_tracker::command::{normalize_due, parse_cli_args, parse_new_task, AddArgs, Commands, ParseError};
use todo_tracker::display::{TaskRow, TimeLeft};
use todo_tracker::storage::TaskStorage;
use todo_tracker::task::{Task, WorkWeight};

// A fixed clock reading, so the scenarios are reproducible.
const NOW: i64 = 1_700_000_000;

// What the shell does with a due text: normalize it, then hand it to the
// date-parsing collaborator against the clock reading.
fn parse_natural_date(due: &str, now: i64) -> Option<i64> {
    let reference = chrono::DateTime::<chrono::Utc>::from_timestamp(now, 0)?;
    chrono_english::parse_date_string(normalize_due(due), reference, chrono_english::Dialect::Uk)
        .ok()
        .map(|dt| dt.timestamp())
}

fn empty_store() -> TaskStorage {
    TaskStorage::new(String::from("tasks.json"))
}

fn add(task: &str, due: &str, weight: WorkWeight) -> Commands {
    Commands::Add(AddArgs {
        task: String::from(task),
        due: String::from(due),
        weight,
    })
}

fn run_add(s: &mut TaskStorage, task: &str, due: &str, weight: WorkWeight) -> Result<(), ParseError> {
    let parsed = parse_natural_date(due, NOW);
    parse_cli_args(&add(task, due, weight), s, parsed)
}

#[test]
fn add_in_two_days_appends_one_task() {
    let mut s = empty_store();
    let r = run_add(&mut s, "392 exam", "in 2 days", WorkWeight::Medium);
    assert!(r.is_ok());
    assert_eq!(s.tasks.len(), 1);
    assert_eq!(s.tasks[0].name, "392 exam");
    assert_eq!(s.tasks[0].weight, WorkWeight::Medium);
    // about 48 hours from the reference
    let remaining = s.tasks[0].due_date - NOW;
    assert!(remaining >= 47 * 3600 && remaining <= 49 * 3600);
    // the listed row does not read as overdue
    let row = TaskRow::from_task(&s.tasks[0], NOW);
    assert!(row.time_left != TimeLeft::Overdue);
}

#[test]
fn add_keeps_the_collection_ordered_by_deadline() {
    let mut s = empty_store();
    s.add_task(Task::new(NOW + 86_400, String::from("in one day"), WorkWeight::Medium));
    s.add_task(Task::new(NOW + 5 * 86_400, String::from("in five days"), WorkWeight::Medium));
    let r = run_add(&mut s, "in between", "in 3 days", WorkWeight::Light);
    assert!(r.is_ok());
    let names: Vec<&str> = s.tasks.iter().map(|t| t.name.as_str()).collect();
    assert_eq!(names, vec!["in one day", "in between", "in five days"]);
}

#[test]
fn reset_empties_a_populated_store() {
    let mut s = empty_store();
    s.add_task(Task::new(NOW, String::from("anything"), WorkWeight::Heavy));
    let r = parse_cli_args(&Commands::Reset, &mut s, None);
    assert!(r.is_ok());
    assert!(s.tasks.is_empty());
    // what a following List sees: an empty collection, the empty record
    assert_eq!(s.store(), "[]");
}

#[test]
fn list_changes_nothing() {
    let mut s = empty_store();
    s.add_task(Task::new(NOW + 10, String::from("kept"), WorkWeight::Light));
    let r = parse_cli_args(&Commands::List, &mut s, None);
    assert!(r.is_ok());
    assert_eq!(s.tasks.len(), 1);
    assert_eq!(s.tasks[0].name, "kept");
}

#[test]
fn add_with_unreadable_due_text_reports_and_leaves_store_alone() {
    let mut s = empty_store();
    s.add_task(Task::new(NOW + 60, String::from("kept"), WorkWeight::Medium));
    let before = s.store();
    assert!(parse_natural_date("zzqx", NOW).is_none());
    let r = run_add(&mut s, "new", "zzqx", WorkWeight::Medium);
    match r {
        Err(ParseError::DateParseError(text)) => assert_eq!(text, "zzqx"),
        Ok(()) => panic!("an unreadable due text must be refused"),
    }
    assert_eq!(s.tasks.len(), 1);
    assert_eq!(s.store(), before);
}

#[test]
fn parse_new_task_reads_tomorrow() {
    let parsed = parse_natural_date("tomorrow", NOW);
    let t = parse_new_task("walk", "tomorrow", WorkWeight::UltraLight, parsed)
        .expect("a plain phrase must parse");
    assert_eq!(t.name, "walk");
    assert_eq!(t.weight, WorkWeight::UltraLight);
    let remaining = t.due_date - NOW;
    assert!(remaining > 0 && remaining <= 48 * 3600);
}

#[test]
fn parse_new_task_carries_the_offending_text() {
    let parsed = parse_natural_date("gibberish words", NOW);
    assert!(parsed.is_none());
    match parse_new_task("walk", "gibberish words", WorkWeight::Medium, parsed) {
        Err(ParseError::DateParseError(text)) => assert_eq!(text, "gibberish words"),
        Ok(_) => panic!("gibberish must be refused"),
    }
}

#[test]
fn normalize_due_drops_a_leading_in() {
    assert_eq!(normalize_due("in 2 days"), "2 days");
    assert_eq!(normalize_due("2 days"), "2 days");
    assert_eq!(normalize_due("tomorrow"), "tomorrow");
    assert_eq!(normalize_due("in"), "in");
}

use todo_tracker::codec::{decode_tasks, encode_tasks};
use todo_tracker::storage::{StorageError, TaskStorage};
use todo_tracker::task::{Task, WorkWeight};

fn task(due: i64, name: &str, weight: WorkWeight) -> Task {
    Task::new(due, String::from(name), weight)
}

#[test]
fn encode_empty_collection() {
    let tasks: Vec<Task> = Vec::new();
    assert_eq!(encode_tasks(&tasks), "[]");
}

#[test]
fn encode_one_task_exact_text() {
    let tasks = vec![task(5, "a", WorkWeight::Medium)];
    assert_eq!(
        encode_tasks(&tasks),
        "[{\"due_date\":5,\"name\":\"a\",\"weight\":\"Medium\"}]"
    );
}

#[test]
fn encode_negative_due_date_exact_text() {
    let tasks = vec![task(-1234, "old", WorkWeight::Heavy)];
    assert_eq!(
        encode_tasks(&tasks),
        "[{\"due_date\":-1234,\"name\":\"old\",\"weight\":\"Heavy\"}]"
    );
}

#[test]
fn encode_escapes_name_characters() {
    let tasks = vec![task(0, "a\"b\\c\nd", WorkWeight::Light)];
    assert_eq!(
        encode_tasks(&tasks),
        "[{\"due_date\":0,\"name\":\"a\\\"b\\\\c\\nd\",\"weight\":\"Light\"}]"
    );
}

fn round_trip(tasks: Vec<Task>) {
    let text = encode_tasks(&tasks);
    let back = decode_tasks(&text).expect("a canonical record must decode");
    assert_eq!(back.len(), tasks.len());
    for (a, b) in tasks.iter().zip(back.iter()) {
        assert_eq!(a.due_date, b.due_date);
        assert_eq!(a.name, b.name);
        assert_eq!(a.weight, b.weight);
    }
}

#[test]
fn round_trip_plain_tasks() {
    round_trip(vec![
        task(1737280800, "392 exam", WorkWeight::Medium),
        task(-7, "before the epoch", WorkWeight::UltraLight),
        task(i64::MAX, "far away", WorkWeight::UltraHeavy),
        task(i64::MIN, "long gone", WorkWeight::Heavy),
    ]);
}

#[test]
fn round_trip_tricky_names() {
    round_trip(vec![
        task(0, "quotes \" and \\ slashes", WorkWeight::Light),
        task(1, "line\nbreak\ttab\rreturn", WorkWeight::Medium),
        task(2, "unicode: naïve — 訳", WorkWeight::Heavy),
        task(3, " ", WorkWeight::UltraLight),
    ]);
}

#[test]
fn round_trip_every_weight() {
    round_trip(vec![
        task(1, "a", WorkWeight::UltraLight),
        task(2, "b", WorkWeight::Light),
        task(3, "c", WorkWeight::Medium),
        task(4, "d", WorkWeight::Heavy),
        task(5, "e", WorkWeight::UltraHeavy),
    ]);
}

#[test]
fn decode_accepts_whitespace_between_tasks() {
    let text = "  [ {\"due_date\":1,\"name\":\"a\",\"weight\":\"Medium\"} ,\n {\"due_date\":2,\"name\":\"b\",\"weight\":\"Light\"} ]\n";
    let back = decode_tasks(text).expect("whitespace between elements is allowed");
    assert_eq!(back.len(), 2);
    assert_eq!(back[0].name, "a");
    assert_eq!(back[1].due_date, 2);
}

#[test]
fn decode_rejects_malformed_text() {
    assert!(decode_tasks("not a record").is_none());
    assert!(decode_tasks("[").is_none());
    assert!(decode_tasks("[{\"due_date\":1}]").is_none());
    assert!(decode_tasks("[{\"due_date\":zz,\"name\":\"a\",\"weight\":\"Medium\"}]").is_none());
    assert!(decode_tasks("[{\"due_date\":1,\"name\":\"a\",\"weight\":\"Big\"}]").is_none());
    assert!(decode_tasks("[{\"due_date\":1,\"name\":\"a\",\"weight\":\"Medium\"}] trailing").is_none());
}

#[test]
fn decode_rejects_empty_name() {
    assert!(decode_tasks("[{\"due_date\":1,\"name\":\"\",\"weight\":\"Medium\"}]").is_none());
}

#[test]
fn decode_rejects_out_of_range_due_date() {
    // one past the largest representable count of seconds
    assert!(decode_tasks("[{\"due_date\":9223372036854775808,\"name\":\"a\",\"weight\":\"Medium\"}]").is_none());
    assert!(decode_tasks("[{\"due_date\":-9223372036854775809,\"name\":\"a\",\"weight\":\"Medium\"}]").is_none());
}

#[test]
fn decode_accepts_extreme_due_dates() {
    let back = decode_tasks("[{\"due_date\":9223372036854775807,\"name\":\"a\",\"weight\":\"Medium\"}]").unwrap();
    assert_eq!(back[0].due_date, i64::MAX);
    let back = decode_tasks("[{\"due_date\":-9223372036854775808,\"name\":\"a\",\"weight\":\"Medium\"}]").unwrap();
    assert_eq!(back[0].due_date, i64::MIN);
}

#[test]
fn load_missing_file_gives_empty_collection() {
    let mut s = TaskStorage::new(String::from("tasks.json"));
    s.add_task(task(1, "left over", WorkWeight::Medium));
    assert!(s.load(None).is_ok());
    assert!(s.tasks.is_empty());
}

#[test]
fn load_empty_file_gives_empty_collection() {
    let mut s = TaskStorage::new(String::from("tasks.json"));
    assert!(s.load(Some("")).is_ok());
    assert!(s.tasks.is_empty());
}

#[test]
fn load_invalid_text_is_refused_and_collection_kept() {
    let mut s = TaskStorage::new(String::from("tasks.json"));
    s.add_task(task(7, "kept", WorkWeight::Medium));
    let r = s.load(Some("{ bad json"));
    match r {
        Err(StorageError::DecodeError(_)) => {}
        other => panic!("expected a decode error, got {:?}", other.is_ok()),
    }
    assert_eq!(s.tasks.len(), 1);
    assert_eq!(s.tasks[0].name, "kept");
}

#[test]
fn load_reads_back_a_saved_store() {
    let mut s = TaskStorage::new(String::from("tasks.json"));
    s.add_task(task(3, "c", WorkWeight::Light));
    s.add_task(task(1, "a", WorkWeight::Heavy));
    let text = s.store();
    let mut s2 = TaskStorage::new(String::from("tasks.json"));
    assert!(s2.load(Some(&text)).is_ok());
    assert_eq!(s2.tasks.len(), 2);
    assert_eq!(s2.tasks[0].name, "c");
    assert_eq!(s2.tasks[1].name, "a");
}

#[test]
fn decode_empty_record_forms() {
    assert_eq!(decode_tasks("[]").map(|v| v.len()), Some(0));
    assert_eq!(decode_tasks("[ ]").map(|v| v.len()), Some(0));
    assert_eq!(decode_tasks(" [\n] ").map(|v| v.len()), Some(0));
    // no text at all is not a record; an empty file is handled before decoding
    assert!(decode_tasks("").is_none());
}

#[test]
fn store_keeps_its_path() {
    let s = TaskStorage::new(String::from("some/dir/tasks.json"));
    assert_eq!(s.path(), "some/dir/tasks.json");
}

#[test]
fn decode_accepts_whitespace_inside_task_objects() {
    let text = "[\n  {\n    \"due_date\": 5,\n    \"name\": \"a b\",\n    \"weight\": \"Medium\"\n  },\n  { \"due_date\" : -3 , \"name\" : \"c\" , \"weight\" : \"UltraHeavy\" }\n]";
    let back = decode_tasks(text).expect("ordinary pretty-printed records must decode");
    assert_eq!(back.len(), 2);
    assert_eq!(back[0].due_date, 5);
    assert_eq!(back[0].name, "a b");
    assert_eq!(back[0].weight, WorkWeight::Medium);
    assert_eq!(back[1].due_date, -3);
    assert_eq!(back[1].weight, WorkWeight::UltraHeavy);
}

#[test]
fn decode_rejects_whitespace_inside_names_and_words() {
    // whitespace is free around tokens, never inside a quoted weight word
    assert!(decode_tasks("[{\"due_date\":1,\"name\":\"a\",\"weight\":\" Medium\"}]").is_none());
    // a name keeps its spaces exactly
    let back = decode_tasks("[{\"due_date\":1,\"name\":\" a \",\"weight\":\"Medium\"}]").unwrap();
    assert_eq!(back[0].name, " a ");
}

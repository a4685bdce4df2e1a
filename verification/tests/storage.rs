use task_tracker::codec::{tasks_from_json, tasks_to_json};
use task_tracker::task::{Task, TaskError};
use task_tracker::task_manager::TaskManager;

fn task(id: u32, title: &str, description: &str) -> Task {
    Task { id, title: title.to_string(), description: description.to_string() }
}

#[test]
fn empty_collection_is_stored_as_bare_brackets() {
    let tasks: Vec<Task> = Vec::new();
    assert_eq!(tasks_to_json(&tasks), "[]");
}

#[test]
fn stored_text_is_pretty_printed_with_stable_field_order() {
    let tasks = vec![task(1, "Buy milk", "2%")];
    let expected = "[\n  {\n    \"id\": 1,\n    \"title\": \"Buy milk\",\n    \"description\": \"2%\"\n  }\n]";
    assert_eq!(tasks_to_json(&tasks), expected);
}

#[test]
fn stored_text_separates_records_with_commas() {
    let tasks = vec![task(1, "a", ""), task(2, "b", "")];
    let expected = "[\n  {\n    \"id\": 1,\n    \"title\": \"a\",\n    \"description\": \"\"\n  },\n  {\n    \"id\": 2,\n    \"title\": \"b\",\n    \"description\": \"\"\n  }\n]";
    assert_eq!(tasks_to_json(&tasks), expected);
}

#[test]
fn quotes_and_backslashes_are_escaped() {
    let tasks = vec![task(1, "say \"hi\"", "a\\b")];
    let expected =
        "[\n  {\n    \"id\": 1,\n    \"title\": \"say \\\"hi\\\"\",\n    \"description\": \"a\\\\b\"\n  }\n]";
    assert_eq!(tasks_to_json(&tasks), expected);
}

#[test]
fn control_characters_are_escaped() {
    let tasks = vec![task(1, "line1\nline2", "tab\there\rdone")];
    let expected =
        "[\n  {\n    \"id\": 1,\n    \"title\": \"line1\\nline2\",\n    \"description\": \"tab\\there\\rdone\"\n  }\n]";
    assert_eq!(tasks_to_json(&tasks), expected);
}

#[test]
fn large_ids_are_written_in_full() {
    let tasks = vec![task(4294967295, "max", "")];
    let text = tasks_to_json(&tasks);
    assert!(text.contains("\"id\": 4294967295,"));
    let back = tasks_from_json(&text).unwrap();
    assert_eq!(back[0].id, 4294967295);
}

#[test]
fn round_trip_returns_an_identical_collection() {
    let tasks = vec![
        task(1, "Buy milk", "2%"),
        task(2, "Walk dog", ""),
        task(9, "Nested \"quotes\" and \\slashes\\", "multi\nline\ttext"),
        task(10, "caf\u{e9} \u{1f600}", "non-ascii \u{3042}"),
    ];
    let text = tasks_to_json(&tasks);
    let back = tasks_from_json(&text).unwrap();
    assert_eq!(back, tasks);
}

#[test]
fn round_trip_through_the_manager() {
    let mut m = TaskManager::new("data/todos.json", "[]").unwrap();
    m.create_task("Buy milk".to_string(), "2%".to_string());
    m.create_task("Walk dog".to_string(), "".to_string());
    let text = m.to_json();
    let reloaded = TaskManager::new(&m.json_path, &text).unwrap();
    assert_eq!(reloaded.tasks, m.tasks);
    assert_eq!(reloaded.json_path, m.json_path);
}

#[test]
fn parse_accepts_the_empty_collection() {
    let back = tasks_from_json("[]").unwrap();
    assert!(back.is_empty());
}

#[test]
fn parse_rejects_malformed_text() {
    assert_eq!(tasks_from_json("").unwrap_err(), TaskError::Format);
    assert_eq!(tasks_from_json("not json").unwrap_err(), TaskError::Format);
    assert_eq!(tasks_from_json("[").unwrap_err(), TaskError::Format);
    assert_eq!(tasks_from_json("[\n]").unwrap_err(), TaskError::Format);
    assert_eq!(tasks_from_json("{}").unwrap_err(), TaskError::Format);
}

#[test]
fn parse_rejects_trailing_text() {
    assert_eq!(tasks_from_json("[] ").unwrap_err(), TaskError::Format);
    let tasks = vec![task(1, "a", "b")];
    let mut text = tasks_to_json(&tasks);
    text.push('\n');
    assert_eq!(tasks_from_json(&text).unwrap_err(), TaskError::Format);
}

#[test]
fn parse_rejects_a_truncated_record() {
    let tasks = vec![task(1, "a", "b")];
    let text = tasks_to_json(&tasks);
    let cut = &text[..text.len() - 3];
    assert_eq!(tasks_from_json(cut).unwrap_err(), TaskError::Format);
}

#[test]
fn parse_rejects_numbers_with_leading_zeros() {
    let text = "[\n  {\n    \"id\": 01,\n    \"title\": \"a\",\n    \"description\": \"b\"\n  }\n]";
    assert_eq!(tasks_from_json(text).unwrap_err(), TaskError::Format);
}

#[test]
fn parse_rejects_ids_beyond_the_supported_range() {
    let text =
        "[\n  {\n    \"id\": 4294967296,\n    \"title\": \"a\",\n    \"description\": \"b\"\n  }\n]";
    assert_eq!(tasks_from_json(text).unwrap_err(), TaskError::Format);
}

#[test]
fn parse_rejects_unknown_escapes() {
    let text = "[\n  {\n    \"id\": 1,\n    \"title\": \"a\\qb\",\n    \"description\": \"\"\n  }\n]";
    assert_eq!(tasks_from_json(text).unwrap_err(), TaskError::Format);
}

#[test]
fn parse_reads_escapes_back_to_the_original_characters() {
    let text =
        "[\n  {\n    \"id\": 1,\n    \"title\": \"a\\\"b\\\\c\",\n    \"description\": \"x\\ny\\tz\\rw\"\n  }\n]";
    let back = tasks_from_json(text).unwrap();
    assert_eq!(back.len(), 1);
    assert_eq!(back[0].title, "a\"b\\c");
    assert_eq!(back[0].description, "x\ny\tz\rw");
}

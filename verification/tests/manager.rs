use task_tracker::task::{Task, TaskError};
use task_tracker::task_manager::TaskManager;

fn empty_manager() -> TaskManager {
    TaskManager::new("data/todos.json", "[]").unwrap()
}

fn sample_text() -> String {
    let tasks = vec![
        Task { id: 3, title: "three".to_string(), description: "c".to_string() },
        Task { id: 7, title: "seven".to_string(), description: "g".to_string() },
        Task { id: 5, title: "five".to_string(), description: "e".to_string() },
    ];
    task_tracker::codec::tasks_to_json(&tasks)
}

#[test]
fn new_remembers_path() {
    let m = TaskManager::new("data/todos.json", "[]").unwrap();
    assert_eq!(m.json_path, "data/todos.json");
    assert!(m.tasks.is_empty());
}

#[test]
fn new_rejects_duplicate_ids() {
    let tasks = vec![
        Task { id: 2, title: "a".to_string(), description: "".to_string() },
        Task { id: 2, title: "b".to_string(), description: "".to_string() },
    ];
    let text = task_tracker::codec::tasks_to_json(&tasks);
    let r = TaskManager::new("p", &text);
    assert_eq!(r.unwrap_err(), TaskError::Format);
}

#[test]
fn stats_empty_collection() {
    let m = empty_manager();
    let stats = m.get_stats();
    assert_eq!(stats.total, 0);
    assert_eq!(stats.last_id, 0);
}

#[test]
fn stats_reports_total_and_max_id() {
    let text = sample_text();
    let m = TaskManager::new("p", &text).unwrap();
    let stats = m.get_stats();
    assert_eq!(stats.total, 3);
    assert_eq!(stats.last_id, 7);
}

#[test]
fn create_assigns_last_id_plus_one_and_appends() {
    let mut m = empty_manager();
    let t1 = m.create_task("Buy milk".to_string(), "2%".to_string());
    assert_eq!(t1.id, 1);
    assert_eq!(t1.title, "Buy milk");
    assert_eq!(t1.description, "2%");
    let t2 = m.create_task("Walk dog".to_string(), "".to_string());
    assert_eq!(t2.id, 2);
    assert_eq!(m.tasks.len(), 2);
    assert_eq!(m.tasks[0], t1);
    assert_eq!(m.tasks[1], t2);
}

#[test]
fn create_continues_from_max_id_in_file() {
    let text = sample_text();
    let mut m = TaskManager::new("p", &text).unwrap();
    let t = m.create_task("next".to_string(), "".to_string());
    assert_eq!(t.id, 8);
    assert_eq!(m.tasks.last().unwrap().id, 8);
}

#[test]
fn read_returns_exact_task() {
    let text = sample_text();
    let m = TaskManager::new("p", &text).unwrap();
    let t = m.read_task(5).unwrap();
    assert_eq!(t.id, 5);
    assert_eq!(t.title, "five");
    assert_eq!(t.description, "e");
}

#[test]
fn read_absent_is_not_found() {
    let text = sample_text();
    let m = TaskManager::new("p", &text).unwrap();
    assert_eq!(m.read_task(4).unwrap_err(), TaskError::NotFound);
    let empty = empty_manager();
    assert_eq!(empty.read_task(1).unwrap_err(), TaskError::NotFound);
}

#[test]
fn update_changes_only_the_two_text_fields() {
    let text = sample_text();
    let mut m = TaskManager::new("p", &text).unwrap();
    let t = m.update_task(7, "new title".to_string(), "new desc".to_string()).unwrap();
    assert_eq!(t.id, 7);
    assert_eq!(t.title, "new title");
    assert_eq!(t.description, "new desc");
    // the updated task keeps its position; everything else is untouched
    assert_eq!(m.tasks.len(), 3);
    assert_eq!(m.tasks[0].id, 3);
    assert_eq!(m.tasks[0].title, "three");
    assert_eq!(m.tasks[1], t);
    assert_eq!(m.tasks[2].id, 5);
    assert_eq!(m.tasks[2].title, "five");
}

#[test]
fn update_absent_is_not_found() {
    let mut m = empty_manager();
    let r = m.update_task(1, "t".to_string(), "d".to_string());
    assert_eq!(r.unwrap_err(), TaskError::NotFound);
}

#[test]
fn delete_removes_exactly_one_and_keeps_order() {
    let text = sample_text();
    let mut m = TaskManager::new("p", &text).unwrap();
    m.delete_task(7).unwrap();
    assert_eq!(m.tasks.len(), 2);
    assert_eq!(m.tasks[0].id, 3);
    assert_eq!(m.tasks[1].id, 5);
}

#[test]
fn delete_absent_is_not_found() {
    let mut m = empty_manager();
    assert_eq!(m.delete_task(9).unwrap_err(), TaskError::NotFound);
}

#[test]
fn delete_twice_fails_the_second_time() {
    let text = sample_text();
    let mut m = TaskManager::new("p", &text).unwrap();
    assert!(m.delete_task(5).is_ok());
    assert_eq!(m.delete_task(5).unwrap_err(), TaskError::NotFound);
}

#[test]
fn list_returns_insertion_order() {
    let text = sample_text();
    let m = TaskManager::new("p", &text).unwrap();
    let listed = m.list_tasks();
    assert_eq!(listed.len(), 3);
    assert_eq!(listed[0].id, 3);
    assert_eq!(listed[1].id, 7);
    assert_eq!(listed[2].id, 5);
    assert_eq!(listed, m.tasks);
}

#[test]
fn scenario_ids_are_not_reused_while_a_higher_id_lives() {
    let mut m = empty_manager();
    let t1 = m.create_task("Buy milk".to_string(), "2%".to_string());
    assert_eq!(t1.id, 1);
    assert_eq!(t1.title, "Buy milk");
    assert_eq!(t1.description, "2%");
    let t2 = m.create_task("Walk dog".to_string(), "".to_string());
    assert_eq!(t2.id, 2);
    m.delete_task(1).unwrap();
    assert_eq!(m.tasks.len(), 1);
    assert_eq!(m.tasks[0].id, 2);
    let t3 = m.create_task("Read book".to_string(), "".to_string());
    assert_eq!(t3.id, 3);
}

#[test]
fn scenario_id_reused_after_deleting_the_highest() {
    let tasks = vec![Task { id: 1, title: "only".to_string(), description: "".to_string() }];
    let text = task_tracker::codec::tasks_to_json(&tasks);
    let mut m = TaskManager::new("p", &text).unwrap();
    m.delete_task(1).unwrap();
    assert!(m.tasks.is_empty());
    assert_eq!(m.get_stats().last_id, 0);
    let t = m.create_task("again".to_string(), "".to_string());
    assert_eq!(t.id, 1);
}

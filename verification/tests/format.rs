use task_tracker::codec::{encode_tasks, parse_tasks};
use task_tracker::model::{Priority, Task};
use task_tracker::timefmt::validate_due_date;

fn text(s: &str) -> String {
    String::from(s)
}

fn assert_same_task(a: &Task, b: &Task) {
    assert_eq!(a.id, b.id);
    assert_eq!(a.description, b.description);
    assert_eq!(a.completed, b.completed);
    assert_eq!(a.category, b.category);
    assert_eq!(a.priority, b.priority);
    assert_eq!(a.due_date, b.due_date);
    assert_eq!(a.created_at, b.created_at);
    assert_eq!(a.completed_at, b.completed_at);
}

#[test]
fn encode_writes_the_exact_record_text() {
    let tasks = vec![Task {
        id: 1,
        description: text("Buy milk"),
        completed: false,
        category: text("Errands"),
        priority: Priority::Medium,
        due_date: None,
        created_at: text("2025-01-01 09:00"),
        completed_at: None,
    }];
    let encoded = encode_tasks(&tasks);
    assert_eq!(
        encoded,
        "[{\"id\":1,\"description\":\"Buy milk\",\"completed\":false,\
         \"category\":\"Errands\",\"priority\":\"Medium\",\"due_date\":null,\
         \"created_at\":\"2025-01-01 09:00\",\"completed_at\":null}]"
    );
}

#[test]
fn encode_escapes_quotes_and_backslashes() {
    let tasks = vec![Task {
        id: 10,
        description: text("say \"hi\" \\ now"),
        completed: false,
        category: text("c"),
        priority: Priority::Low,
        due_date: None,
        created_at: text("2025-01-01 09:00"),
        completed_at: None,
    }];
    let encoded = encode_tasks(&tasks);
    assert!(encoded.contains("\"description\":\"say \\\"hi\\\" \\\\ now\""));
    let back = parse_tasks(&encoded).expect("what was encoded parses");
    assert_eq!(back[0].description, "say \"hi\" \\ now");
}

#[test]
fn round_trip_reproduces_every_field_shape() {
    let tasks = vec![
        Task {
            id: 1,
            description: text("no due date"),
            completed: false,
            category: text("Errands"),
            priority: Priority::Medium,
            due_date: None,
            created_at: text("2025-01-01 09:00"),
            completed_at: None,
        },
        Task {
            id: 2,
            description: text("all fields set"),
            completed: true,
            category: text("Work"),
            priority: Priority::High,
            due_date: Some(text("2025-01-01 10:00")),
            created_at: text("2025-01-01 09:05"),
            completed_at: Some(text("2025-01-01 09:45")),
        },
        Task {
            id: 35,
            description: text("low priority"),
            completed: false,
            category: text(""),
            priority: Priority::Low,
            due_date: None,
            created_at: text("2025-02-01 00:00"),
            completed_at: None,
        },
    ];
    let encoded = encode_tasks(&tasks);
    let back = parse_tasks(&encoded).expect("what was encoded parses");
    assert_eq!(back.len(), tasks.len());
    for (a, b) in tasks.iter().zip(back.iter()) {
        assert_same_task(a, b);
    }
}

#[test]
fn round_trip_of_the_empty_collection() {
    let tasks: Vec<Task> = Vec::new();
    let encoded = encode_tasks(&tasks);
    assert_eq!(encoded, "[]");
    let back = parse_tasks(&encoded).expect("the empty list parses");
    assert!(back.is_empty());
}

#[test]
fn corrupt_text_is_rejected() {
    assert!(parse_tasks("").is_none());
    assert!(parse_tasks("garbage").is_none());
    assert!(parse_tasks("[").is_none());
    assert!(parse_tasks("[}").is_none());
    assert!(parse_tasks("[{\"id\":1}]").is_none());
    assert!(parse_tasks("[]trailing").is_none());
    assert!(parse_tasks("{\"id\":1}").is_none());
}

#[test]
fn only_the_written_form_is_accepted() {
    let tasks = vec![Task {
        id: 1,
        description: text("x"),
        completed: false,
        category: text("c"),
        priority: Priority::Low,
        due_date: None,
        created_at: text("2025-01-01 09:00"),
        completed_at: None,
    }];
    let encoded = encode_tasks(&tasks);
    assert!(parse_tasks(&encoded).is_some());
    let with_space = encoded.replace(":", ": ");
    assert!(parse_tasks(&with_space).is_none());
}

#[test]
fn due_date_guard_accepts_the_fixed_format() {
    assert_eq!(validate_due_date("2025-01-01 10:00").as_deref(), Some("2025-01-01 10:00"));
    assert_eq!(validate_due_date(""), None);
    assert_eq!(validate_due_date("soon"), None);
    assert_eq!(validate_due_date("2025-13-40 99:99"), None);
    assert_eq!(validate_due_date("2025-01-01"), None);
}

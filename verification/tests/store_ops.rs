use task_tracker::casefold::category_matches;
use task_tracker::model::{Priority, Task};
use task_tracker::store::{Stats, StoreError, TaskStore};

fn text(s: &str) -> String {
    String::from(s)
}

fn plain_task(id: usize, category: &str, priority: Priority) -> Task {
    Task {
        id,
        description: text("something"),
        completed: false,
        category: text(category),
        priority,
        due_date: None,
        created_at: text("2025-01-01 09:00"),
        completed_at: None,
    }
}

#[test]
fn ids_increase_and_are_never_reused() {
    let mut st = TaskStore::empty();
    let a = st.create(text("one"), text("c"), Priority::Low, None, text("2025-01-01 09:00"));
    let b = st.create(text("two"), text("c"), Priority::Low, None, text("2025-01-01 09:01"));
    assert_eq!(a, 1);
    assert_eq!(b, 2);
    assert_eq!(st.delete(b), Ok(()));
    let c = st.create(text("three"), text("c"), Priority::Low, None, text("2025-01-01 09:02"));
    assert_eq!(c, 3);
    assert!(a < b && b < c);
}

#[test]
fn empty_store_assigns_id_one() {
    let mut st = TaskStore::empty();
    assert_eq!(st.next_id(), 1);
    assert_eq!(st.list().len(), 0);
    let id = st.create(text("first"), text("c"), Priority::Low, None, text("2025-01-01 09:00"));
    assert_eq!(id, 1);
}

#[test]
fn loaded_empty_collection_assigns_id_one() {
    let st = TaskStore::from_tasks(Vec::new());
    let mut st = st.expect("an empty collection is well formed");
    assert_eq!(st.next_id(), 1);
    let id = st.create(text("first"), text("c"), Priority::Low, None, text("2025-01-01 09:00"));
    assert_eq!(id, 1);
}

#[test]
fn complete_sets_flag_and_stamp() {
    let mut st = TaskStore::empty();
    st.create(text("one"), text("c"), Priority::Low, None, text("2025-01-01 09:00"));
    assert_eq!(st.complete(1, text("2025-01-02 10:00")), Ok(()));
    let tasks = st.list();
    assert!(tasks[0].completed);
    assert_eq!(tasks[0].completed_at.as_deref(), Some("2025-01-02 10:00"));
}

#[test]
fn complete_twice_keeps_first_stamp() {
    let mut st = TaskStore::empty();
    st.create(text("one"), text("c"), Priority::Low, None, text("2025-01-01 09:00"));
    assert_eq!(st.complete(1, text("2025-01-02 10:00")), Ok(()));
    assert_eq!(st.complete(1, text("2025-06-30 23:59")), Ok(()));
    let tasks = st.list();
    assert!(tasks[0].completed);
    assert_eq!(tasks[0].completed_at.as_deref(), Some("2025-01-02 10:00"));
}

#[test]
fn complete_missing_id_is_not_found() {
    let mut st = TaskStore::empty();
    assert_eq!(st.complete(7, text("2025-01-02 10:00")), Err(StoreError::NotFound));
}

#[test]
fn deleted_id_stays_gone() {
    let mut st = TaskStore::empty();
    st.create(text("one"), text("c"), Priority::Low, None, text("2025-01-01 09:00"));
    st.create(text("two"), text("c"), Priority::Low, None, text("2025-01-01 09:01"));
    assert_eq!(st.delete(1), Ok(()));
    assert_eq!(st.complete(1, text("2025-01-02 10:00")), Err(StoreError::NotFound));
    assert_eq!(st.update(1, Some(text("x")), None, None, None), Err(StoreError::NotFound));
    assert_eq!(st.delete(1), Err(StoreError::NotFound));
    assert_eq!(st.list().len(), 1);
    assert_eq!(st.list()[0].id, 2);
}

#[test]
fn update_replaces_only_supplied_fields() {
    let mut st = TaskStore::empty();
    st.create(
        text("old words"),
        text("home"),
        Priority::Low,
        Some(text("2025-03-01 08:00")),
        text("2025-01-01 09:00"),
    );
    assert_eq!(st.update(1, None, Some(text("office")), Some(Priority::High), None), Ok(()));
    {
        let t = &st.list()[0];
        assert_eq!(t.description, "old words");
        assert_eq!(t.category, "office");
        assert_eq!(t.priority, Priority::High);
        assert_eq!(t.due_date.as_deref(), Some("2025-03-01 08:00"));
        assert_eq!(t.created_at, "2025-01-01 09:00");
        assert!(!t.completed);
    }
    assert_eq!(st.update(1, Some(text("new words")), None, None, Some(None)), Ok(()));
    let t = &st.list()[0];
    assert_eq!(t.description, "new words");
    assert_eq!(t.category, "office");
    assert_eq!(t.due_date, None);
}

#[test]
fn filter_by_category_ignores_case() {
    let mut st = TaskStore::empty();
    st.create(text("a"), text("Work"), Priority::Low, None, text("2025-01-01 09:00"));
    st.create(text("b"), text("work"), Priority::Low, None, text("2025-01-01 09:01"));
    st.create(text("c"), text("Errands"), Priority::Low, None, text("2025-01-01 09:02"));
    let hits = st.filter_by_category("WORK");
    assert_eq!(hits.len(), 2);
    assert_eq!(hits[0].id, 1);
    assert_eq!(hits[1].id, 2);
    let none = st.filter_by_category("garden");
    assert!(none.is_empty());
}

#[test]
fn statistics_partitions_the_collection() {
    let mut st = TaskStore::empty();
    st.create(text("a"), text("c"), Priority::High, None, text("2025-01-01 09:00"));
    st.create(text("b"), text("c"), Priority::High, None, text("2025-01-01 09:01"));
    st.create(text("c"), text("c"), Priority::Low, None, text("2025-01-01 09:02"));
    assert_eq!(st.complete(2, text("2025-01-02 10:00")), Ok(()));
    let s = st.statistics();
    assert_eq!(s, Stats { total: 3, completed: 1, pending: 2, high_priority_pending: 1 });
    assert_eq!(s.total, s.completed + s.pending);
    assert!(s.high_priority_pending <= s.pending);
}

#[test]
fn scenario_two_tasks_complete_delete() {
    let mut st = TaskStore::empty();
    let a = st.create(text("Buy milk"), text("Errands"), Priority::Medium, None, text("2025-01-01 09:00"));
    assert_eq!(a, 1);
    let b = st.create(
        text("File report"),
        text("Work"),
        Priority::High,
        Some(text("2025-01-01 10:00")),
        text("2025-01-01 09:05"),
    );
    assert_eq!(b, 2);
    assert_eq!(st.complete(1, text("2025-01-01 09:30")), Ok(()));
    assert!(st.list()[0].completed);
    assert!(st.list()[0].completed_at.is_some());
    assert_eq!(st.delete(1), Ok(()));
    assert_eq!(st.list().len(), 1);
    assert_eq!(st.list()[0].id, 2);
    let s = st.statistics();
    assert_eq!(s, Stats { total: 1, completed: 0, pending: 1, high_priority_pending: 1 });
}

#[test]
fn loading_rejects_duplicate_ids() {
    let tasks = vec![plain_task(1, "c", Priority::Low), plain_task(1, "d", Priority::High)];
    assert!(TaskStore::from_tasks(tasks).is_none());
}

#[test]
fn loading_rejects_inconsistent_completion() {
    let mut bad = plain_task(1, "c", Priority::Low);
    bad.completed = true;
    assert!(TaskStore::from_tasks(vec![bad]).is_none());
    let mut bad2 = plain_task(1, "c", Priority::Low);
    bad2.completed_at = Some(text("2025-01-02 10:00"));
    assert!(TaskStore::from_tasks(vec![bad2]).is_none());
}

#[test]
fn loading_sets_watermark_past_largest_id() {
    let tasks = vec![plain_task(3, "c", Priority::Low), plain_task(7, "d", Priority::High)];
    let mut st = TaskStore::from_tasks(tasks).expect("distinct, consistent tasks load");
    assert_eq!(st.next_id(), 8);
    let id = st.create(text("x"), text("c"), Priority::Low, None, text("2025-01-01 09:00"));
    assert_eq!(id, 8);
}

#[test]
fn priority_from_menu_choice() {
    assert_eq!(Priority::from_choice("1"), Some(Priority::High));
    assert_eq!(Priority::from_choice("2"), Some(Priority::Medium));
    assert_eq!(Priority::from_choice("3"), Some(Priority::Low));
    assert_eq!(Priority::from_choice("4"), None);
    assert_eq!(Priority::from_choice(""), None);
    assert_eq!(Priority::from_choice("12"), None);
}

#[test]
fn clock_stamped_create_and_complete() {
    let mut st = TaskStore::empty();
    let id = st.create_now(text("stamped"), text("c"), Priority::Medium, None);
    assert_eq!(id, 1);
    {
        let t = &st.list()[0];
        assert!(!t.completed);
        assert_eq!(t.completed_at, None);
        assert!(!t.created_at.is_empty());
    }
    assert_eq!(st.complete_now(1), Ok(()));
    let t = &st.list()[0];
    assert!(t.completed);
    assert!(t.completed_at.is_some());
    assert_eq!(st.complete_now(9), Err(StoreError::NotFound));
}

#[test]
fn category_matching_folds_case() {
    assert!(category_matches("WORK", "work"));
    assert!(category_matches("Work", "woRk"));
    assert!(!category_matches("work", "errands"));
}

use rustask::clock::Timestamp;
use rustask::storage::TaskStorage;
use rustask::task::Task;
use rustask::task::TaskStatus;

fn at(secs: i64) -> Timestamp {
    Timestamp::new(secs, 0)
}

fn task(title: &str) -> Task {
    Task::new_at(0, title.to_string(), None, Vec::new(), at(1_000))
}

fn tagged(title: &str, tags: &[&str]) -> Task {
    let tags = tags.iter().map(|t| t.to_string()).collect();
    Task::new_at(0, title.to_string(), None, tags, at(1_000))
}

fn titles(tasks: &[&Task]) -> Vec<String> {
    tasks.iter().map(|t| t.title.clone()).collect()
}

fn store_of(titles: &[&str]) -> TaskStorage {
    let mut store = TaskStorage::new();
    for t in titles {
        store.add_task(task(t));
    }
    store
}

#[test]
fn new_store_is_empty_and_starts_at_one() {
    let store = TaskStorage::new();
    assert!(store.get_all_tasks().is_empty());
    assert_eq!(store.next_id(), 1);
    let stats = store.get_stats();
    assert_eq!((stats.total, stats.completed, stats.pending), (0, 0, 0));
}

#[test]
fn pay_rent_scenario() {
    let mut store = TaskStorage::new();
    let id = store.add_task(tagged("Pay rent", &["bills", "urgent"]));
    assert_eq!(id, 1);

    assert!(store.complete_task_at(1, at(2_000)));
    let stats = store.get_stats();
    assert_eq!((stats.total, stats.completed, stats.pending), (1, 1, 0));

    assert!(store.delete_task(1));
    let stats = store.get_stats();
    assert_eq!((stats.total, stats.completed, stats.pending), (0, 0, 0));
    assert!(store.find_task_by_id(1).is_none());
}

#[test]
fn add_overwrites_the_id_the_caller_gave() {
    let mut store = TaskStorage::new();
    let mut t = task("first");
    t.id = 42;
    assert_eq!(store.add_task(t), 1);
    assert_eq!(store.get_all_tasks()[0].id, 1);
    assert_eq!(store.get_all_tasks()[0].title, "first");
    assert!(store.find_task_by_id(42).is_none());
}

#[test]
fn add_accepts_an_empty_title() {
    let mut store = TaskStorage::new();
    assert_eq!(store.add_task(task("")), 1);
    assert_eq!(store.find_task_by_id(1).unwrap().title, "");
    assert_eq!(store.get_stats().pending, 1);
}

#[test]
fn ids_increase_and_are_not_reused_after_delete() {
    let mut store = TaskStorage::new();
    assert_eq!(store.add_task(task("a")), 1);
    assert_eq!(store.add_task(task("b")), 2);
    assert!(store.delete_task(2));
    assert_eq!(store.add_task(task("c")), 3);
    assert!(store.delete_task(1));
    assert!(store.delete_task(3));
    assert!(store.get_all_tasks().is_empty());
    assert_eq!(store.add_task(task("d")), 4);
    assert_eq!(store.next_id(), 5);
    assert!(store.find_task_by_id(2).is_none());
}

#[test]
fn delete_reports_absence_and_keeps_the_others() {
    let mut store = store_of(&["a", "b", "c"]);
    assert!(!store.delete_task(9));
    assert_eq!(store.get_all_tasks().len(), 3);
    assert!(store.delete_task(2));
    assert!(!store.delete_task(2));
    let left: Vec<u64> = store.get_all_tasks().iter().map(|t| t.id).collect();
    assert_eq!(left, vec![1, 3]);
    assert_eq!(store.find_task_by_id(3).unwrap().title, "c");
}

#[test]
fn find_returns_the_task_or_none() {
    let store = store_of(&["a", "b"]);
    assert_eq!(store.find_task_by_id(1).unwrap().title, "a");
    assert_eq!(store.find_task_by_id(2).unwrap().title, "b");
    assert!(store.find_task_by_id(0).is_none());
    assert!(store.find_task_by_id(3).is_none());
}

#[test]
fn find_mut_lends_the_task_for_changes() {
    let mut store = store_of(&["a", "b"]);
    {
        let found = store.find_task_by_id_mut(2).unwrap();
        found.add_tag("x".to_string());
        found.title = "B".to_string();
    }
    assert!(store.find_task_by_id_mut(5).is_none());
    let b = store.find_task_by_id(2).unwrap();
    assert_eq!(b.title, "B");
    assert!(b.has_tag("x"));
    assert_eq!(store.find_task_by_id(1).unwrap().title, "a");
}

#[test]
fn update_replaces_the_whole_record() {
    let mut store = TaskStorage::new();
    store.add_task(tagged("a", &["t1"]));
    store.add_task(task("b"));
    let mut replacement = Task::new_at(1, "A".to_string(), Some("d".to_string()), Vec::new(), at(5));
    replacement.complete_at(at(6));
    assert!(store.update_task(replacement));
    let a = store.find_task_by_id(1).unwrap();
    assert_eq!(a.title, "A");
    assert_eq!(a.description, Some("d".to_string()));
    assert!(a.tags.is_empty());
    assert_eq!(a.created_at, at(5));
    assert_eq!(a.status, TaskStatus::Completed);
    assert_eq!(store.get_all_tasks()[1].title, "b");

    let stranger = Task::new_at(9, "z".to_string(), None, Vec::new(), at(5));
    assert!(!store.update_task(stranger));
    assert_eq!(store.get_all_tasks().len(), 2);
    assert_eq!(store.next_id(), 3);
}

#[test]
fn complete_task_marks_only_the_given_task() {
    let mut store = store_of(&["a", "b"]);
    assert!(store.complete_task_at(2, at(7_000)));
    assert!(!store.complete_task_at(3, at(7_000)));
    assert!(!store.find_task_by_id(1).unwrap().is_completed());
    let b = store.find_task_by_id(2).unwrap();
    assert!(b.is_completed());
    assert_eq!(b.completed_at, Some(at(7_000)));
}

#[test]
fn complete_task_by_the_clock() {
    let mut store = store_of(&["a"]);
    assert!(store.complete_task(1));
    assert!(!store.complete_task(2));
    let a = store.find_task_by_id(1).unwrap();
    assert!(a.is_completed());
    assert!(a.completed_at.unwrap().secs > 1_600_000_000);
}

#[test]
fn snooze_task_on_an_unscheduled_task() {
    let mut store = store_of(&["a"]);
    assert!(store.snooze_task_at(1, 10, at(1_000)));
    let a = store.find_task_by_id(1).unwrap();
    assert_eq!(a.snoozed_until, Some(at(1_600)));
    assert_eq!(a.snooze_count, 1);
    assert_eq!(a.scheduled_for, None);
    assert!(store.snooze_task_at(1, 10, at(2_000)));
    assert!(store.snooze_task_at(1, 10, at(3_000)));
    let a = store.find_task_by_id(1).unwrap();
    assert_eq!(a.snooze_count, 3);
    assert_eq!(a.snoozed_until, Some(at(3_600)));
    assert!(!store.snooze_task_at(2, 10, at(3_000)));
}

#[test]
fn snooze_task_by_the_clock() {
    let mut store = store_of(&["a"]);
    let before = chrono::Utc::now().timestamp();
    assert!(store.snooze_task(1, 10));
    let after = chrono::Utc::now().timestamp();
    let a = store.find_task_by_id(1).unwrap();
    let until = a.snoozed_until.unwrap();
    assert!(until.secs >= before + 600 && until.secs <= after + 600);
    assert_eq!(a.snooze_count, 1);
    assert!(!store.snooze_task(7, 10));
}

#[test]
fn schedule_task_sets_the_time_and_rearms() {
    let mut store = store_of(&["a"]);
    assert!(store.schedule_task(1, at(500)));
    {
        let a = store.find_task_by_id_mut(1).unwrap();
        a.mark_reminder_sent();
    }
    assert!(store.schedule_task(1, at(900)));
    let a = store.find_task_by_id(1).unwrap();
    assert_eq!(a.scheduled_for, Some(at(900)));
    assert!(!a.reminder_sent);
    assert!(!store.schedule_task(2, at(900)));
}

#[test]
fn tag_operations_on_stored_tasks() {
    let mut store = store_of(&["a", "b"]);
    assert!(store.add_task_tag(1, "x".to_string()));
    assert!(store.add_task_tag(1, "y".to_string()));
    assert!(store.add_task_tag(1, "x".to_string()));
    assert!(!store.add_task_tag(3, "x".to_string()));
    assert_eq!(store.find_task_by_id(1).unwrap().tags, vec!["x".to_string(), "y".to_string()]);

    assert_eq!(store.remove_task_tag(1, "x"), Some(true));
    assert_eq!(store.remove_task_tag(1, "x"), Some(false));
    assert_eq!(store.remove_task_tag(3, "x"), None);
    assert_eq!(store.find_task_by_id(1).unwrap().tags, vec!["y".to_string()]);

    assert_eq!(store.clear_task_tags(1), Some(1));
    assert_eq!(store.clear_task_tags(1), Some(0));
    assert_eq!(store.clear_task_tags(2), Some(0));
    assert_eq!(store.clear_task_tags(3), None);
    assert!(store.find_task_by_id(1).unwrap().tags.is_empty());
}

#[test]
fn edit_task_changes_what_is_given() {
    let mut store = TaskStorage::new();
    store.add_task(tagged("a", &["old"]));
    assert!(store.edit_task(1, Some("A".to_string()), None, Vec::new()));
    assert!(store.edit_task(1, None, Some("text".to_string()), vec!["n1".to_string(), "n1".to_string(), "n2".to_string()]));
    let a = store.find_task_by_id(1).unwrap();
    assert_eq!(a.title, "A");
    assert_eq!(a.description, Some("text".to_string()));
    assert_eq!(a.tags, vec!["n1".to_string(), "n2".to_string()]);
    assert!(!store.edit_task(2, Some("B".to_string()), None, Vec::new()));
}

#[test]
fn create_task_builds_and_adds() {
    let mut store = TaskStorage::new();
    let id = store.create_task("a".to_string(), Some("d".to_string()), vec!["t".to_string(), "t".to_string()]);
    assert_eq!(id, 1);
    let id = store.create_task("b".to_string(), None, Vec::new());
    assert_eq!(id, 2);
    let a = store.find_task_by_id(1).unwrap();
    assert_eq!(a.title, "a");
    assert_eq!(a.description, Some("d".to_string()));
    assert_eq!(a.tags, vec!["t".to_string(), "t".to_string()]);
    assert_eq!(a.status, TaskStatus::Pending);
    assert!(a.created_at.secs > 1_600_000_000);
    assert!(store.find_task_by_id(2).unwrap().tags.is_empty());
}

#[test]
fn filters_keep_store_order() {
    let mut store = TaskStorage::new();
    store.add_task(tagged("a", &["x"]));
    store.add_task(tagged("b", &["y"]));
    store.add_task(tagged("c", &["x", "y"]));
    store.add_task(task("d"));
    store.complete_task_at(1, at(5));
    store.complete_task_at(3, at(5));

    assert_eq!(titles(&store.get_tasks_by_status(true)), vec!["a", "c"]);
    assert_eq!(titles(&store.get_tasks_by_status(false)), vec!["b", "d"]);
    assert_eq!(titles(&store.find_tasks_by_tag("x")), vec!["a", "c"]);
    assert_eq!(titles(&store.find_tasks_by_tag("y")), vec!["b", "c"]);
    assert!(store.find_tasks_by_tag("z").is_empty());
    assert!(store.find_tasks_by_tag("X").is_empty());
}

#[test]
fn listing_picks_its_filter() {
    let mut store = TaskStorage::new();
    store.add_task(tagged("a", &["x"]));
    store.add_task(tagged("b", &["x"]));
    store.add_task(task("c"));
    store.complete_task_at(1, at(5));

    assert_eq!(titles(&store.list_tasks(true, false, None)), vec!["a"]);
    assert_eq!(titles(&store.list_tasks(true, false, Some("x"))), vec!["a"]);
    assert_eq!(titles(&store.list_tasks(false, true, None)), vec!["b", "c"]);
    assert_eq!(titles(&store.list_tasks(false, true, Some("x"))), vec!["b", "c"]);
    assert_eq!(titles(&store.list_tasks(false, false, Some("x"))), vec!["a", "b"]);
    assert_eq!(titles(&store.list_tasks(true, true, Some("x"))), vec!["a", "b"]);
    assert_eq!(titles(&store.list_tasks(false, false, None)), vec!["a", "b", "c"]);
    assert_eq!(titles(&store.list_tasks(true, true, None)), vec!["a", "b", "c"]);
}

#[test]
fn stats_count_completed_and_pending() {
    let mut store = store_of(&["a", "b", "c", "d", "e"]);
    store.complete_task_at(2, at(5));
    store.complete_task_at(5, at(5));
    let stats = store.get_stats();
    assert_eq!(stats.total, 5);
    assert_eq!(stats.completed, 2);
    assert_eq!(stats.pending, 3);
}

#[test]
fn scheduled_tasks_have_a_schedule_or_a_snooze() {
    let mut store = store_of(&["a", "b", "c", "d"]);
    store.schedule_task(2, at(100));
    store.snooze_task_at(3, 5, at(100));
    store.schedule_task(4, at(100));
    store.snooze_task_at(4, 5, at(100));
    assert_eq!(titles(&store.get_scheduled_tasks()), vec!["b", "c", "d"]);
    {
        let c = store.find_task_by_id_mut(3).unwrap();
        c.clear_snooze();
    }
    assert_eq!(titles(&store.get_scheduled_tasks()), vec!["b", "d"]);
}

#[test]
fn load_sets_the_next_id_after_the_greatest() {
    let mut store = store_of(&["gone"]);
    let mut a = task("a");
    a.id = 7;
    let mut b = task("b");
    b.id = 3;
    store.load_tasks(vec![a, b]);
    assert_eq!(store.next_id(), 8);
    let ids: Vec<u64> = store.get_all_tasks().iter().map(|t| t.id).collect();
    assert_eq!(ids, vec![7, 3]);
    assert_eq!(store.add_task(task("c")), 8);
    assert_eq!(store.find_task_by_id(3).unwrap().title, "b");
}

#[test]
fn load_of_nothing_starts_at_one() {
    let mut store = store_of(&["a", "b"]);
    store.load_tasks(Vec::new());
    assert!(store.get_all_tasks().is_empty());
    assert_eq!(store.next_id(), 1);
}

#[test]
fn save_and_load_keep_every_field_and_the_order() {
    let mut store = TaskStorage::new();
    store.add_task(Task::new_at(0, "a".to_string(), Some("d".to_string()), vec!["y".to_string(), "x".to_string()], at(1)));
    store.add_task(task("b"));
    store.schedule_task(1, Timestamp::new(50, 9));
    store.snooze_task_at(1, 2, at(60));
    store.complete_task_at(2, at(70));
    store.delete_task(2);
    store.add_task(task("c"));

    let saved: Vec<Task> = store.get_all_tasks().clone();
    let mut loaded = TaskStorage::new();
    loaded.load_tasks(saved);

    assert_eq!(loaded.get_all_tasks().len(), 2);
    assert_eq!(loaded.next_id(), 4);
    let a = loaded.find_task_by_id(1).unwrap();
    assert_eq!(a.title, "a");
    assert_eq!(a.description, Some("d".to_string()));
    assert_eq!(a.tags, vec!["y".to_string(), "x".to_string()]);
    assert_eq!(a.status, TaskStatus::Pending);
    assert_eq!(a.created_at, at(1));
    assert_eq!(a.completed_at, None);
    assert_eq!(a.scheduled_for, Some(Timestamp::new(50, 9)));
    assert!(!a.reminder_sent);
    assert_eq!(a.snoozed_until, Some(at(180)));
    assert_eq!(a.snooze_count, 1);
    let c = loaded.find_task_by_id(3).unwrap();
    assert_eq!(c.title, "c");
    assert_eq!(c.description, None);
    assert_eq!(c.scheduled_for, None);
}

#[test]
fn with_equal_ids_the_first_is_found_and_all_are_deleted() {
    let mut a = task("a");
    a.id = 5;
    let mut b = task("b");
    b.id = 5;
    let mut c = task("c");
    c.id = 2;
    let mut store = TaskStorage::new();
    store.load_tasks(vec![a, b, c]);
    assert_eq!(store.find_task_by_id(5).unwrap().title, "a");
    assert!(store.complete_task_at(5, at(9)));
    assert!(store.get_all_tasks()[0].is_completed());
    assert!(!store.get_all_tasks()[1].is_completed());
    assert!(store.delete_task(5));
    assert_eq!(store.get_all_tasks().len(), 1);
    assert_eq!(store.get_all_tasks()[0].title, "c");
    assert_eq!(store.next_id(), 6);
}

use rustask::clock::Timestamp;
use rustask::task::Task;
use rustask::task::TaskStatus;
use rustask::task::MAX_SNOOZE_MINUTES;

fn at(secs: i64) -> Timestamp {
    Timestamp::new(secs, 0)
}

fn plain_task() -> Task {
    Task::new_at(7, "Write report".to_string(), None, Vec::new(), at(1_000))
}

#[test]
fn new_at_builds_a_pending_task_without_reminder_state() {
    let task = Task::new_at(
        3,
        "Pay rent".to_string(),
        Some("before the 5th".to_string()),
        vec!["bills".to_string(), "urgent".to_string()],
        at(1_000),
    );
    assert_eq!(task.id, 3);
    assert_eq!(task.title, "Pay rent");
    assert_eq!(task.description, Some("before the 5th".to_string()));
    assert_eq!(task.tags, vec!["bills".to_string(), "urgent".to_string()]);
    assert_eq!(task.status, TaskStatus::Pending);
    assert_eq!(task.created_at, at(1_000));
    assert_eq!(task.completed_at, None);
    assert_eq!(task.scheduled_for, None);
    assert!(!task.reminder_sent);
    assert_eq!(task.snoozed_until, None);
    assert_eq!(task.snooze_count, 0);
}

#[test]
fn new_reads_the_clock_for_the_creation_time() {
    let task = Task::new(1, "Water plants".to_string(), None);
    assert_eq!(task.id, 1);
    assert!(task.tags.is_empty());
    assert_eq!(task.status, TaskStatus::Pending);
    // Later than 2020-09-13 and inside the calendar.
    assert!(task.created_at.secs > 1_600_000_000);
    assert!(task.created_at.secs < 0x800_0000_0000);
    assert!(task.created_at.nanos < 2_000_000_000);
}

#[test]
fn new_with_tags_keeps_the_tags_as_given() {
    let tags = vec!["a".to_string(), "b".to_string(), "a".to_string()];
    let task = Task::new_with_tags(9, "Tagged".to_string(), None, tags.clone());
    assert_eq!(task.tags, tags);
    assert_eq!(task.id, 9);
    assert!(!task.is_completed());
}

#[test]
fn complete_at_sets_status_and_time() {
    let mut task = plain_task();
    assert!(!task.is_completed());
    task.complete_at(at(2_000));
    assert!(task.is_completed());
    assert_eq!(task.status, TaskStatus::Completed);
    assert_eq!(task.completed_at, Some(at(2_000)));
}

#[test]
fn completing_again_overwrites_the_time() {
    let mut task = plain_task();
    task.complete_at(at(2_000));
    task.complete_at(at(3_000));
    assert!(task.is_completed());
    assert_eq!(task.completed_at, Some(at(3_000)));
}

#[test]
fn complete_reads_the_clock() {
    let mut task = plain_task();
    task.complete();
    assert!(task.is_completed());
    let done = task.completed_at.unwrap();
    assert!(done.secs > 1_600_000_000);
}

#[test]
fn add_tag_appends_and_rejects_duplicates() {
    let mut task = plain_task();
    task.add_tag("home".to_string());
    task.add_tag("work".to_string());
    task.add_tag("home".to_string());
    assert_eq!(task.get_tags(), &vec!["home".to_string(), "work".to_string()]);
}

#[test]
fn tags_are_case_sensitive() {
    let mut task = plain_task();
    task.add_tag("Home".to_string());
    task.add_tag("home".to_string());
    assert_eq!(task.get_tags().len(), 2);
    assert!(task.has_tag("Home"));
    assert!(task.has_tag("home"));
    assert!(!task.has_tag("HOME"));
}

#[test]
fn remove_tag_reports_whether_it_was_present() {
    let mut task = plain_task();
    task.add_tag("a".to_string());
    task.add_tag("b".to_string());
    task.add_tag("c".to_string());
    assert!(task.remove_tag("b"));
    assert_eq!(task.get_tags(), &vec!["a".to_string(), "c".to_string()]);
    assert!(!task.remove_tag("b"));
    assert_eq!(task.get_tags(), &vec!["a".to_string(), "c".to_string()]);
}

#[test]
fn remove_tag_takes_only_the_first_of_equal_tags() {
    let tags = vec!["x".to_string(), "y".to_string(), "x".to_string()];
    let mut task = Task::new_at(1, "t".to_string(), None, tags, at(0));
    assert!(task.remove_tag("x"));
    assert_eq!(task.tags, vec!["y".to_string(), "x".to_string()]);
    assert!(task.has_tag("x"));
}

#[test]
fn clear_tags_removes_all() {
    let mut task = plain_task();
    task.add_tag("a".to_string());
    task.add_tag("b".to_string());
    task.clear_tags();
    assert!(task.get_tags().is_empty());
    assert!(!task.has_tag("a"));
}

#[test]
fn edit_replaces_what_is_given() {
    let mut task = Task::new_at(
        1,
        "old".to_string(),
        Some("old text".to_string()),
        vec!["keep".to_string()],
        at(0),
    );
    task.edit(Some("new".to_string()), None, Vec::new());
    assert_eq!(task.title, "new");
    assert_eq!(task.description, Some("old text".to_string()));
    assert_eq!(task.tags, vec!["keep".to_string()]);

    task.edit(None, Some("new text".to_string()), Vec::new());
    assert_eq!(task.title, "new");
    assert_eq!(task.description, Some("new text".to_string()));

    task.edit(None, None, vec!["a".to_string(), "b".to_string(), "a".to_string()]);
    assert_eq!(task.tags, vec!["a".to_string(), "b".to_string()]);
    assert_eq!(task.id, 1);
}

#[test]
fn unscheduled_task_is_never_due() {
    let task = plain_task();
    assert!(!task.is_due_at(at(0)));
    assert!(!task.is_due_at(at(i64::MAX)));
    assert!(!task.is_due());
}

#[test]
fn scheduled_task_is_due_from_its_time_until_the_reminder_is_sent() {
    let mut task = plain_task();
    task.schedule_for(at(5_000));
    assert!(!task.is_due_at(at(4_999)));
    assert!(task.is_due_at(at(5_000)));
    assert!(task.is_due_at(at(5_001)));
    task.mark_reminder_sent();
    assert!(task.reminder_sent);
    assert!(!task.is_due_at(at(5_001)));
    assert!(!task.is_due_at(at(9_000)));
}

#[test]
fn due_time_compares_nanoseconds_within_a_second() {
    let mut task = plain_task();
    task.schedule_for(Timestamp::new(5_000, 500));
    assert!(!task.is_due_at(Timestamp::new(5_000, 499)));
    assert!(task.is_due_at(Timestamp::new(5_000, 500)));
    assert!(task.is_due_at(Timestamp::new(5_001, 0)));
}

#[test]
fn scheduling_again_rearms_the_reminder() {
    let mut task = plain_task();
    task.schedule_for(at(5_000));
    task.mark_reminder_sent();
    task.schedule_for(at(6_000));
    assert!(!task.reminder_sent);
    assert_eq!(task.scheduled_for, Some(at(6_000)));
    assert!(task.is_due_at(at(6_000)));
}

#[test]
fn schedule_in_the_past_is_due_by_the_clock() {
    let mut task = plain_task();
    task.schedule_for(at(1));
    assert!(task.is_due());
    task.mark_reminder_sent();
    assert!(!task.is_due());
}

#[test]
fn snooze_in_the_past_is_due_whatever_the_sent_flag() {
    let mut task = plain_task();
    task.snooze_at(at(1_000), 10);
    assert_eq!(task.snoozed_until, Some(at(1_600)));
    assert!(!task.is_due_at(at(1_599)));
    assert!(task.is_due_at(at(1_600)));
    task.mark_reminder_sent();
    assert!(task.is_due_at(at(1_600)));
    assert!(task.is_due_at(at(2_000)));
}

#[test]
fn snooze_takes_priority_over_schedule() {
    let mut task = plain_task();
    task.schedule_for(at(100));
    task.snooze_at(at(1_000), 5);
    // The schedule has passed, the snooze has not.
    assert!(!task.is_due_at(at(1_200)));
    assert!(task.is_due_at(at(1_300)));
    task.clear_snooze();
    assert_eq!(task.snoozed_until, None);
    assert!(task.is_due_at(at(1_200)));
}

#[test]
fn snooze_at_adds_minutes_and_counts() {
    let mut task = plain_task();
    task.schedule_for(at(100));
    task.mark_reminder_sent();
    task.snooze_at(Timestamp::new(1_000, 250), 10);
    assert_eq!(task.snoozed_until, Some(Timestamp::new(1_600, 250)));
    assert_eq!(task.snooze_count, 1);
    // The schedule and the sent flag stay.
    assert_eq!(task.scheduled_for, Some(at(100)));
    assert!(task.reminder_sent);
    task.snooze_at(at(2_000), 1);
    task.snooze_at(at(3_000), -1);
    assert_eq!(task.snooze_count, 3);
    assert_eq!(task.snoozed_until, Some(at(2_940)));
}

#[test]
fn snooze_by_the_clock_lands_ten_minutes_ahead() {
    let mut task = plain_task();
    let before = chrono::Utc::now().timestamp();
    task.snooze(10);
    let after = chrono::Utc::now().timestamp();
    let until = task.snoozed_until.unwrap();
    assert!(until.secs >= before + 600);
    assert!(until.secs <= after + 600);
    assert_eq!(task.snooze_count, 1);
    task.snooze(10);
    assert_eq!(task.snooze_count, 2);
    assert!(!task.is_due());
}

#[test]
fn snooze_accepts_the_longest_snooze() {
    let mut task = plain_task();
    task.snooze(MAX_SNOOZE_MINUTES);
    let until = task.snoozed_until.unwrap();
    assert!(until.secs >= 60 * MAX_SNOOZE_MINUTES);
    task.snooze(-MAX_SNOOZE_MINUTES);
    assert!(task.snoozed_until.unwrap().secs < 0);
    assert!(task.is_due());
}

#[test]
fn clone_keeps_every_field() {
    let mut task = Task::new_at(
        4,
        "Copy me".to_string(),
        Some("text".to_string()),
        vec!["a".to_string(), "b".to_string()],
        at(10),
    );
    task.schedule_for(at(20));
    task.snooze_at(at(30), 1);
    task.complete_at(at(40));
    let copy = task.clone();
    assert_eq!(copy.id, 4);
    assert_eq!(copy.title, task.title);
    assert_eq!(copy.description, task.description);
    assert_eq!(copy.tags, task.tags);
    assert_eq!(copy.status, TaskStatus::Completed);
    assert_eq!(copy.created_at, at(10));
    assert_eq!(copy.completed_at, Some(at(40)));
    assert_eq!(copy.scheduled_for, Some(at(20)));
    assert_eq!(copy.reminder_sent, task.reminder_sent);
    assert_eq!(copy.snoozed_until, Some(at(90)));
    assert_eq!(copy.snooze_count, 1);
}

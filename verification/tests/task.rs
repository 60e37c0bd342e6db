use tasklist::task::{
    all_distinct, copy_texts, ranks_before, resolve_priority, InvalidTransition, Status, Task,
    TaskRecord, PRIORITY_DEFAULT, PRIORITY_MAX, PRIORITY_MIN,
};

fn strings(items: &[&str]) -> Vec<String> {
    items.iter().map(|s| s.to_string()).collect()
}

#[test]
fn new_task_has_not_started() {
    let task = Task::new(7, "Buy #milk", "at the #Store or the #milk bar", None);
    assert_eq!(task.id(), 7);
    assert_eq!(task.title(), "Buy #milk");
    assert_eq!(task.desc(), "at the #Store or the #milk bar");
    assert_eq!(task.tags(), &strings(&["milk", "store"]));
    assert_eq!(task.priority(), 3);
    assert_eq!(task.status(), Status::NotStarted);
    assert!(!task.is_completed());
    assert!(!task.is_in_progress());
}

#[test]
fn priority_is_brought_into_range() {
    assert_eq!(PRIORITY_MIN, 1);
    assert_eq!(PRIORITY_MAX, 5);
    assert_eq!(PRIORITY_DEFAULT, 3);
    assert_eq!(resolve_priority(None), 3);
    assert_eq!(resolve_priority(Some(0)), 1);
    assert_eq!(resolve_priority(Some(1)), 1);
    assert_eq!(resolve_priority(Some(4)), 4);
    assert_eq!(resolve_priority(Some(5)), 5);
    assert_eq!(resolve_priority(Some(6)), 5);
    assert_eq!(resolve_priority(Some(255)), 5);
    assert_eq!(Task::new(1, "t", "", Some(200)).priority(), 5);
    assert_eq!(Task::new(1, "t", "", Some(0)).priority(), 1);
}

#[test]
fn start_then_complete_succeeds() {
    let mut task = Task::new(1, "t", "", None);
    assert_eq!(task.start(), Ok(()));
    assert_eq!(task.status(), Status::InProgress);
    assert!(task.is_in_progress());
    assert!(!task.is_completed());
    assert_eq!(task.complete(), Ok(()));
    assert_eq!(task.status(), Status::Completed);
    assert!(task.is_completed());
    assert!(!task.is_in_progress());
}

#[test]
fn complete_without_start_fails() {
    let mut task = Task::new(1, "t", "", None);
    assert_eq!(task.complete(), Err(InvalidTransition::CompleteNotStarted));
    assert_eq!(task.status(), Status::NotStarted);
}

#[test]
fn start_twice_fails() {
    let mut task = Task::new(1, "t", "", None);
    assert_eq!(task.start(), Ok(()));
    assert_eq!(task.start(), Err(InvalidTransition::StartInProgress));
    assert_eq!(task.status(), Status::InProgress);
}

#[test]
fn nothing_follows_completion() {
    let mut task = Task::new(1, "t", "", None);
    assert_eq!(task.start(), Ok(()));
    assert_eq!(task.complete(), Ok(()));
    assert_eq!(task.start(), Err(InvalidTransition::StartCompleted));
    assert_eq!(task.complete(), Err(InvalidTransition::CompleteCompleted));
    assert_eq!(task.status(), Status::Completed);
}

#[test]
fn refusals_have_messages_and_exit_codes() {
    assert_eq!(
        InvalidTransition::StartInProgress.message(),
        "Cannot start a task that is already in progress"
    );
    assert_eq!(InvalidTransition::StartCompleted.message(), "Cannot start a completed task");
    assert_eq!(
        InvalidTransition::CompleteCompleted.message(),
        "Cannot complete a task which is already completed"
    );
    assert_eq!(
        InvalidTransition::CompleteNotStarted.message(),
        "Cannot complete a task before starting it"
    );
    assert_eq!(InvalidTransition::StartInProgress.exit_code(), 4);
    assert_eq!(InvalidTransition::StartCompleted.exit_code(), 4);
    assert_eq!(InvalidTransition::CompleteCompleted.exit_code(), 3);
    assert_eq!(InvalidTransition::CompleteNotStarted.exit_code(), 3);
}

#[test]
fn priority_comparisons() {
    let low = Task::new(1, "a", "", Some(2));
    let high = Task::new(2, "b", "", Some(4));
    let also_low = Task::new(3, "c", "", Some(2));
    assert!(low.priority_lt(&high));
    assert!(!high.priority_lt(&low));
    assert!(also_low.priority_lt(&low));
    assert!(!low.priority_lt(&also_low));
    assert!(!low.priority_lt(&low));
    assert!(low.priority_eq(&low));
    assert!(!low.priority_eq(&also_low));
    assert!(!low.priority_eq(&high));
    assert!(low.priority_le(&low));
    assert!(also_low.priority_le(&low));
    assert!(!low.priority_le(&also_low));
    assert!(low.priority_le(&high));
    assert!(!high.priority_le(&low));
}

#[test]
fn a_task_ranks_below_those_listed_before_it() {
    let tasks = [
        Task::new(4, "a", "", Some(5)),
        Task::new(9, "b", "", Some(5)),
        Task::new(1, "c", "", Some(3)),
        Task::new(2, "d", "", Some(3)),
        Task::new(7, "e", "", Some(1)),
    ];
    for (i, earlier) in tasks.iter().enumerate() {
        for later in &tasks[i + 1..] {
            assert!(ranks_before(earlier.priority(), earlier.id(), later.priority(), later.id()));
            assert!(later.priority_lt(earlier));
            assert!(!earlier.priority_lt(later));
            assert!(later.priority_le(earlier));
            assert!(!earlier.priority_le(later));
        }
    }
}

#[test]
fn listing_rank() {
    assert!(ranks_before(5, 9, 4, 1));
    assert!(!ranks_before(4, 1, 5, 9));
    assert!(ranks_before(3, 1, 3, 2));
    assert!(!ranks_before(3, 2, 3, 1));
    assert!(!ranks_before(3, 2, 3, 2));
}

#[test]
fn from_parts_checks_the_parts() {
    let tags = strings(&["a", "b"]);
    let task =
        Task::from_parts(4, "t".to_string(), "d".to_string(), tags.clone(), 2, true, false).unwrap();
    assert_eq!(task.id(), 4);
    assert_eq!(task.title(), "t");
    assert_eq!(task.desc(), "d");
    assert_eq!(task.tags(), &tags);
    assert_eq!(task.priority(), 2);
    assert_eq!(task.status(), Status::Completed);
    let started =
        Task::from_parts(4, "t".to_string(), "d".to_string(), tags.clone(), 5, false, true).unwrap();
    assert_eq!(started.status(), Status::InProgress);
    let fresh =
        Task::from_parts(4, "t".to_string(), "d".to_string(), Vec::new(), 1, false, false).unwrap();
    assert_eq!(fresh.status(), Status::NotStarted);
    assert!(Task::from_parts(4, "t".to_string(), "d".to_string(), tags.clone(), 2, true, true)
        .is_none());
    assert!(Task::from_parts(4, "t".to_string(), "d".to_string(), tags.clone(), 0, false, false)
        .is_none());
    assert!(Task::from_parts(4, "t".to_string(), "d".to_string(), tags.clone(), 6, false, false)
        .is_none());
    assert!(Task::from_parts(
        4,
        "t".to_string(),
        "d".to_string(),
        strings(&["a", "b", "a"]),
        2,
        false,
        false
    )
    .is_none());
}

#[test]
fn distinct_texts() {
    assert!(all_distinct(&Vec::new()));
    assert!(all_distinct(&strings(&["a"])));
    assert!(all_distinct(&strings(&["a", "b", "c"])));
    assert!(!all_distinct(&strings(&["a", "b", "b"])));
    assert!(!all_distinct(&strings(&["c", "b", "c"])));
}

#[test]
fn a_task_and_its_record() {
    let mut task = Task::new(7, "Buy #milk", "at the #Store", Some(4));
    assert_eq!(task.start(), Ok(()));
    let record = task.to_record();
    assert_eq!(record.id, 7);
    assert_eq!(record.title, "Buy #milk");
    assert_eq!(record.desc, "at the #Store");
    assert_eq!(record.tags, strings(&["milk", "store"]));
    assert_eq!(record.priority, 4);
    assert!(!record.completed);
    assert!(record.in_progress);
    let back = Task::from_record(&record).unwrap();
    assert_eq!(back.id(), 7);
    assert_eq!(back.title(), "Buy #milk");
    assert_eq!(back.desc(), "at the #Store");
    assert_eq!(back.tags(), &strings(&["milk", "store"]));
    assert_eq!(back.priority(), 4);
    assert_eq!(back.status(), Status::InProgress);

    let invalid = TaskRecord { priority: 9, ..task.to_record() };
    assert!(Task::from_record(&invalid).is_none());
    let both = TaskRecord { completed: true, ..task.to_record() };
    assert!(Task::from_record(&both).is_none());
    let twice = TaskRecord { tags: strings(&["a", "a"]), ..task.to_record() };
    assert!(Task::from_record(&twice).is_none());
}

#[test]
fn texts_are_copied() {
    assert_eq!(copy_texts(&strings(&["a", "", "c"])), strings(&["a", "", "c"]));
    assert_eq!(copy_texts(&Vec::new()), Vec::<String>::new());
}

use tasklist::command::{perform, Command};
use tasklist::tags::Tags;
use tasklist::task::Task;
use tasklist::tasklist::{write_listing, TaskList};
use tasklist::utils::error_line;

fn colours_off() {
    colored::control::set_override(false);
}

#[test]
fn highlight_without_colours_is_the_text() {
    colours_off();
    assert_eq!("Buy #milk and #Milk".highlight_tags(), "Buy #milk and #Milk");
}

#[test]
fn task_without_colours() {
    colours_off();
    let mut task = Task::new(7, "Fix #bug now", "see #Bug", Some(5));
    assert_eq!(task.colored_id(), "#7");
    assert_eq!(task.status_icon(), "\u{2715}");
    assert_eq!(task.summary(), "#7 | \u{2715} Fix #bug now");
    assert_eq!(task.render(4, true), "\t  #7 | \u{2715} Fix #bug now\n\t         see #Bug\n\n");
    assert_eq!(task.start(), Ok(()));
    assert_eq!(task.render(0, false), "\t#7 | \u{f64f} Fix #bug now\n\n");
}

#[test]
fn error_line_without_colours() {
    colours_off();
    assert_eq!(error_line("it failed"), "[!] it failed");
}

#[test]
fn listing_without_colours() {
    colours_off();
    let mut list = TaskList::with_capacity(2);
    assert_eq!(list.add("low", "", Some(1)), 1);
    assert_eq!(list.add("high", "d #x", Some(5)), 2);
    assert_eq!(
        list.render(true, false, false, true),
        "\n\t#2 | \u{2715} high\n\t       d #x\n\n\t#1 | \u{2715} low\n\t       \n\n"
    );
    assert_eq!(
        list.render(false, false, false, false),
        "\n\t#2 | \u{2715} high\n\n\t#1 | \u{2715} low\n\n"
    );
    assert_eq!(list.render(false, true, false, false), "\nNothing to do\n");
}

#[test]
fn listing_of_an_empty_store() {
    colours_off();
    let list = TaskList::with_capacity(2);
    assert_eq!(list.render(true, false, false, true), "\nNothing to do\n");
}

#[test]
fn listing_sets_ids_to_the_right_of_one_column() {
    colours_off();
    let mut list = TaskList::with_capacity(2);
    assert_eq!(list.insert(Task::new(7, "a", "", None)), Ok(()));
    assert_eq!(list.insert(Task::new(1234, "b", "", None)), Ok(()));
    assert_eq!(
        list.render(true, false, false, false),
        "\n\t   #7 | \u{2715} a\n\n\t#1234 | \u{2715} b\n\n"
    );
}

#[test]
fn listing_is_written_from_its_parts() {
    assert_eq!(write_listing(&vec!["a\n".to_string(), "b\n".to_string()]), "\na\nb\n");
    assert_eq!(write_listing(&Vec::new()), "\nNothing to do\n");
}

#[test]
fn commands_change_the_store_and_say_so() {
    colours_off();
    let mut list = TaskList::with_capacity(2);
    let added = perform(
        &mut list,
        &Command::Add { title: "read #book".to_string(), desc: "".to_string(), priority: Some(4) },
    );
    assert_eq!(added.output, "");
    assert!(added.save);
    assert_eq!(added.exit_code, 0);
    assert_eq!(list.count(), 1);
    assert_eq!(list.get(1).unwrap().priority(), 4);

    let started = perform(&mut list, &Command::Start { id: 1 });
    assert_eq!(started.output, "Started task #1 | \u{f64f} read #book\n");
    assert!(started.save);
    assert_eq!(started.exit_code, 0);

    let completed = perform(&mut list, &Command::Complete { id: 1 });
    assert_eq!(completed.output, "Completed task #1 | \u{2713} read #book\n");
    assert!(completed.save);
    assert_eq!(completed.exit_code, 0);

    let listed = perform(
        &mut list,
        &Command::List { all: false, done: true, started: false, verbose: false },
    );
    assert_eq!(listed.output, "\n\t#1 | \u{2713} read #book\n\n");
    assert!(!listed.save);
    assert_eq!(listed.exit_code, 0);

    let removed = perform(&mut list, &Command::Remove { id: 1 });
    assert_eq!(removed.output, "");
    assert!(removed.save);
    assert_eq!(removed.exit_code, 0);
    assert_eq!(list.count(), 0);
}

#[test]
fn refused_commands_report_and_change_nothing() {
    colours_off();
    let mut list = TaskList::with_capacity(2);
    assert_eq!(list.add("a", "", None), 1);

    let unknown = perform(&mut list, &Command::Remove { id: 9 });
    assert_eq!(unknown.output, "[!] Could not find task with ID 9\n");
    assert!(!unknown.save);
    assert_eq!(unknown.exit_code, 2);

    let unknown = perform(&mut list, &Command::Start { id: 9 });
    assert_eq!(unknown.output, "[!] Could not find task with ID 9\n");
    assert_eq!(unknown.exit_code, 2);

    let unknown = perform(&mut list, &Command::Complete { id: 9 });
    assert_eq!(unknown.output, "[!] Could not find task with ID 9\n");
    assert_eq!(unknown.exit_code, 2);

    let early = perform(&mut list, &Command::Complete { id: 1 });
    assert_eq!(early.output, "[!] Cannot complete a task before starting it\n");
    assert!(!early.save);
    assert_eq!(early.exit_code, 3);

    assert!(perform(&mut list, &Command::Start { id: 1 }).save);
    let twice = perform(&mut list, &Command::Start { id: 1 });
    assert_eq!(twice.output, "[!] Cannot start a task that is already in progress\n");
    assert!(!twice.save);
    assert_eq!(twice.exit_code, 4);

    assert!(perform(&mut list, &Command::Complete { id: 1 }).save);
    let again = perform(&mut list, &Command::Complete { id: 1 });
    assert_eq!(again.output, "[!] Cannot complete a task which is already completed\n");
    assert_eq!(again.exit_code, 3);
    let late = perform(&mut list, &Command::Start { id: 1 });
    assert_eq!(late.output, "[!] Cannot start a completed task\n");
    assert_eq!(late.exit_code, 4);
    assert_eq!(list.count(), 1);
    assert!(list.get(1).unwrap().is_completed());
}

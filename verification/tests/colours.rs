use tasklist::command::{perform, Command};
use tasklist::highlight::highlight_spans;
use tasklist::style::Tint;
use tasklist::tags::Tags;
use tasklist::task::Task;
use tasklist::tasklist::TaskList;
use tasklist::utils::error_line;

fn colours_on() {
    colored::control::set_override(true);
}

#[test]
fn highlight_wraps_each_occurrence() {
    colours_on();
    let out = "Buy #milk and #Milk".highlight_tags();
    assert_eq!(out, "Buy \u{1b}[1;33m#milk\u{1b}[0m and \u{1b}[1;33m#Milk\u{1b}[0m");
}

#[test]
fn highlight_without_tags_changes_nothing() {
    colours_on();
    assert_eq!("nothing to see".highlight_tags(), "nothing to see");
    assert_eq!("".highlight_tags(), "");
}

#[test]
fn highlight_prefers_the_longer_tag() {
    colours_on();
    let out = "#a #ab".highlight_tags();
    assert_eq!(out, "\u{1b}[1;33m#a\u{1b}[0m \u{1b}[1;33m#ab\u{1b}[0m");
}

#[test]
fn highlight_takes_tags_literally() {
    colours_on();
    let out = "#a.b x#axb".highlight_tags();
    assert_eq!(out, "\u{1b}[1;33m#a.b\u{1b}[0m x#axb");
}

#[test]
fn highlight_marks_a_tag_inside_a_word() {
    colours_on();
    let out = String::from("#tag x#tagged").highlight_tags();
    assert_eq!(out, "\u{1b}[1;33m#tag\u{1b}[0m x\u{1b}[1;33m#tag\u{1b}[0mged");
}

#[test]
fn highlight_keeps_text_that_is_not_ascii() {
    colours_on();
    let out = "caf\u{e9} #th\u{e9} \u{2713}".highlight_tags();
    assert_eq!(out, "caf\u{e9} \u{1b}[1;33m#th\u{e9}\u{1b}[0m \u{2713}");
}

#[test]
fn highlight_spans_marks_the_given_stretches() {
    colours_on();
    assert_eq!(highlight_spans("abcdef", &vec![(1, 3)]), "a\u{1b}[1;33mbc\u{1b}[0mdef");
    assert_eq!(highlight_spans("abcdef", &Vec::new()), "abcdef");
}

#[test]
fn status_icon_follows_the_state() {
    colours_on();
    let mut task = Task::new(1, "t", "", None);
    assert_eq!(task.status_icon(), "\u{1b}[1;31m\u{2715}\u{1b}[0m");
    assert_eq!(task.start(), Ok(()));
    assert_eq!(task.status_icon(), "\u{1b}[1;36m\u{f64f}\u{1b}[0m");
    assert_eq!(task.complete(), Ok(()));
    assert_eq!(task.status_icon(), "\u{1b}[1;32m\u{2713}\u{1b}[0m");
}

#[test]
fn colored_id_follows_the_priority() {
    colours_on();
    assert_eq!(Task::new(12, "t", "", Some(1)).colored_id(), "\u{1b}[1;32m#12\u{1b}[0m");
    assert_eq!(Task::new(12, "t", "", Some(2)).colored_id(), "\u{1b}[1;36m#12\u{1b}[0m");
    assert_eq!(Task::new(12, "t", "", Some(3)).colored_id(), "\u{1b}[1;33m#12\u{1b}[0m");
    assert_eq!(Task::new(12, "t", "", Some(4)).colored_id(), "\u{1b}[1;35m#12\u{1b}[0m");
    assert_eq!(Task::new(12, "t", "", Some(5)).colored_id(), "\u{1b}[1;31m#12\u{1b}[0m");
    assert_eq!(Task::new(0, "t", "", None).colored_id(), "\u{1b}[1;33m#0\u{1b}[0m");
}

#[test]
fn summary_is_one_line() {
    colours_on();
    let task = Task::new(7, "Fix #bug now", "", Some(5));
    assert_eq!(
        task.summary(),
        "\u{1b}[1;31m#7\u{1b}[0m | \u{1b}[1;31m\u{2715}\u{1b}[0m Fix \u{1b}[1;33m#bug\u{1b}[0m now"
    );
}

#[test]
fn render_with_description() {
    colours_on();
    let task = Task::new(7, "Fix #bug now", "see #Bug", Some(5));
    assert_eq!(
        task.render(3, true),
        "\t\u{1b}[1;31m #7\u{1b}[0m | \u{1b}[1;31m\u{2715}\u{1b}[0m Fix \u{1b}[1;33m#bug\u{1b}[0m now\n\t        see \u{1b}[1;33m#Bug\u{1b}[0m\n\n"
    );
}

#[test]
fn render_without_description() {
    colours_on();
    let task = Task::new(123, "plain", "see #Bug", Some(1));
    assert_eq!(
        task.render(2, false),
        "\t\u{1b}[1;32m#123\u{1b}[0m | \u{1b}[1;31m\u{2715}\u{1b}[0m plain\n\n"
    );
}

#[test]
fn error_line_is_marked_in_red() {
    colours_on();
    assert_eq!(error_line("it failed"), "\u{1b}[1;31m[!]\u{1b}[0m it failed");
}

#[test]
fn tints_are_distinct() {
    assert_ne!(Tint::Green, Tint::Cyan);
    assert_ne!(Tint::Yellow, Tint::Magenta);
    assert_ne!(Tint::Red, Tint::Blue);
}

#[test]
fn listing_in_colours() {
    colours_on();
    let mut list = TaskList::with_capacity(2);
    assert_eq!(list.add("see #this", "", Some(2)), 1);
    assert_eq!(list.start(1), Ok(()));
    assert_eq!(
        list.render(true, false, false, false),
        "\n\t\u{1b}[1;36m#1\u{1b}[0m | \u{1b}[1;36m\u{f64f}\u{1b}[0m see \u{1b}[1;33m#this\u{1b}[0m\n\n"
    );
}

#[test]
fn commands_in_colours() {
    colours_on();
    let mut list = TaskList::with_capacity(2);
    assert_eq!(list.add("a", "", Some(1)), 1);
    let started = perform(&mut list, &Command::Start { id: 1 });
    assert_eq!(
        started.output,
        "Started task \u{1b}[1;32m#1\u{1b}[0m | \u{1b}[1;36m\u{f64f}\u{1b}[0m a\n"
    );
    let unknown = perform(&mut list, &Command::Start { id: 5 });
    assert_eq!(unknown.output, "\u{1b}[1;31m[!]\u{1b}[0m Could not find task with ID 5\n");
}

#[test]
fn emphasis_goes_on_behind_a_reset_in_the_text() {
    colours_on();
    assert_eq!(
        highlight_spans("a\u{1b}[0mb c", &vec![(0, 6)]),
        "\u{1b}[1;33ma\u{1b}[0m\u{1b}[1;33mb\u{1b}[0m c"
    );
    assert_eq!(
        highlight_spans("\u{1b}[0m\u{1b}[0m", &vec![(0, 8)]),
        "\u{1b}[1;33m\u{1b}[0m\u{1b}[1;33m\u{1b}[0m\u{1b}[1;33m\u{1b}[0m"
    );
    assert_eq!(
        highlight_spans("x\u{1b}[1my\u{1b}[0", &vec![(0, 9)]),
        "\u{1b}[1;33mx\u{1b}[1my\u{1b}[0\u{1b}[0m"
    );
}

#[test]
fn taking_the_markers_out_gives_the_text_back() {
    colours_on();
    let texts = [
        "Buy #milk and #Milk",
        "#a #ab #abc x#ab",
        "no tags at all",
        "",
        "  #lead and trail#  ",
        "caf\u{e9} #th\u{e9} \u{2713} #\u{2713}",
        "#a.b+c #a(b #[x] #c\\d",
        "half a marker \u{1b}[1;33 #tag \u{1b}[0 and \u{1b} alone #tag\u{1b}",
    ];
    for text in texts {
        let out = text.highlight_tags();
        let stripped = out.replace("\u{1b}[1;33m", "").replace("\u{1b}[0m", "");
        assert_eq!(stripped, text, "{:?}", out);
    }
    assert!("Buy #milk".highlight_tags().contains("\u{1b}[1;33m#milk\u{1b}[0m"));
}

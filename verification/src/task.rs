//! One task: its text, its priority and its lifecycle.

use crate::highlight::{highlight, is_highlight_of};
use crate::style::{emphasize, is_emphasis_of, Tint};
use crate::tags::{add_tags, add_tags_of, lemma_add_tags_distinct, tags_in, words, Tags};
use crate::utils::{
    decimal, decimal_string, pad_left, padded, push_spaces, spaces, ERR_COMPLETE, ERR_START,
};
use vstd::prelude::*;
use vstd::string::StringExecFns;

verus! {

/// Lowest priority a task can have.
pub const PRIORITY_MIN: u8 = 1;

/// Highest priority a task can have.
pub const PRIORITY_MAX: u8 = 5;

/// Priority of a task that was given none.
pub const PRIORITY_DEFAULT: u8 = 3;

/// Where a task stands in its lifecycle. A task only ever moves forward:
/// from `NotStarted` to `InProgress` to `Completed`.
#[derive(Clone, Copy, Debug, PartialEq, Eq, Structural)]
pub enum Status {
    NotStarted,
    InProgress,
    Completed,
}

/// A transition that the lifecycle does not allow.
#[derive(Clone, Copy, Debug, PartialEq, Eq, Structural)]
pub enum InvalidTransition {
    /// `start` on a task that is in progress.
    StartInProgress,
    /// `start` on a task that is completed.
    StartCompleted,
    /// `complete` on a task that is completed.
    CompleteCompleted,
    /// `complete` on a task that was never started.
    CompleteNotStarted,
}

impl InvalidTransition {
    /// The sentence that reports the refusal.
    pub open spec fn spec_message(self) -> Seq<char> {
        match self {
            InvalidTransition::StartInProgress => "Cannot start a task that is already in progress"@,
            InvalidTransition::StartCompleted => "Cannot start a completed task"@,
            InvalidTransition::CompleteCompleted => "Cannot complete a task which is already completed"@,
            InvalidTransition::CompleteNotStarted => "Cannot complete a task before starting it"@,
        }
    }

    /// The exit status that reports the refusal: one for a refused start,
    /// another for a refused completion.
    pub open spec fn spec_exit_code(self) -> i32 {
        match self {
            InvalidTransition::StartInProgress | InvalidTransition::StartCompleted => ERR_START,
            InvalidTransition::CompleteCompleted
            | InvalidTransition::CompleteNotStarted => ERR_COMPLETE,
        }
    }

    /// Writes `spec_message`.
    pub fn message(&self) -> (message: &'static str)
        ensures
            message@ == self.spec_message(),
    {
        match self {
            InvalidTransition::StartInProgress => "Cannot start a task that is already in progress",
            InvalidTransition::StartCompleted => "Cannot start a completed task",
            InvalidTransition::CompleteCompleted => "Cannot complete a task which is already completed",
            InvalidTransition::CompleteNotStarted => "Cannot complete a task before starting it",
        }
    }

    /// Computes `spec_exit_code`.
    pub fn exit_code(&self) -> (code: i32)
        ensures
            code == self.spec_exit_code(),
    {
        match self {
            InvalidTransition::StartInProgress | InvalidTransition::StartCompleted => ERR_START,
            InvalidTransition::CompleteCompleted
            | InvalidTransition::CompleteNotStarted => ERR_COMPLETE,
        }
    }
}

/// What a task is, as a mathematical value.
pub struct TaskView {
    pub id: usize,
    pub title: Seq<char>,
    pub desc: Seq<char>,
    pub tags: Seq<Seq<char>>,
    pub priority: u8,
    pub status: Status,
}

/// The priority that a request stands for: the default when none is given,
/// else the nearest priority within the allowed range.
pub open spec fn resolved_priority(requested: Option<u8>) -> u8 {
    match requested {
        None => PRIORITY_DEFAULT,
        Some(p) => if p < PRIORITY_MIN {
            PRIORITY_MIN
        } else if p > PRIORITY_MAX {
            PRIORITY_MAX
        } else {
            p
        },
    }
}

/// The tags of a task with the given title and description: those of the
/// title, then those of the description that the title does not have.
pub open spec fn task_tags(title: Seq<char>, desc: Seq<char>) -> Seq<Seq<char>> {
    add_tags(tags_in(title, false), words(desc), false)
}

/// Whether a task with the first priority and id is listed before one with
/// the second priority and id: the higher priority first, and among equal
/// priorities the lower id.
pub open spec fn lists_before(
    priority: u8,
    id: usize,
    other_priority: u8,
    other_id: usize,
) -> bool {
    priority > other_priority || (priority == other_priority && id < other_id)
}

/// What `start` makes of a task: one that has not been started goes into
/// progress, any other is refused.
pub open spec fn after_start(task: TaskView) -> Result<TaskView, InvalidTransition> {
    match task.status {
        Status::NotStarted => Ok(TaskView { status: Status::InProgress, ..task }),
        Status::InProgress => Err(InvalidTransition::StartInProgress),
        Status::Completed => Err(InvalidTransition::StartCompleted),
    }
}

/// What `complete` makes of a task: one in progress is completed, any other
/// is refused.
pub open spec fn after_complete(task: TaskView) -> Result<TaskView, InvalidTransition> {
    match task.status {
        Status::InProgress => Ok(TaskView { status: Status::Completed, ..task }),
        Status::Completed => Err(InvalidTransition::CompleteCompleted),
        Status::NotStarted => Err(InvalidTransition::CompleteNotStarted),
    }
}

/// The lifecycle of a task that has not been started: it cannot be completed
/// at once; it can be started, but not twice; once started it can be
/// completed; and once completed it can be neither started nor completed.
pub proof fn law_lifecycle(fresh: TaskView)
    requires
        fresh.status == Status::NotStarted,
    ensures
        after_complete(fresh) == Err::<TaskView, InvalidTransition>(
            InvalidTransition::CompleteNotStarted,
        ),
        after_start(fresh) == Ok::<TaskView, InvalidTransition>(
            TaskView { status: Status::InProgress, ..fresh },
        ),
        after_start(after_start(fresh)->Ok_0) == Err::<TaskView, InvalidTransition>(
            InvalidTransition::StartInProgress,
        ),
        after_complete(after_start(fresh)->Ok_0) == Ok::<TaskView, InvalidTransition>(
            TaskView { status: Status::Completed, ..fresh },
        ),
        after_start(after_complete(after_start(fresh)->Ok_0)->Ok_0) == Err::<
            TaskView,
            InvalidTransition,
        >(InvalidTransition::StartCompleted),
        after_complete(after_complete(after_start(fresh)->Ok_0)->Ok_0) == Err::<
            TaskView,
            InvalidTransition,
        >(InvalidTransition::CompleteCompleted),
{
}

/// No transition takes a task back: what `start` or `complete` accepts ends
/// in a later state, with everything else as it was.
pub proof fn law_forward_only(task: TaskView)
    ensures
        after_start(task) is Ok ==> task.status == Status::NotStarted && after_start(
            task,
        )->Ok_0.status == Status::InProgress,
        after_complete(task) is Ok ==> task.status == Status::InProgress && after_complete(
            task,
        )->Ok_0.status == Status::Completed,
{
}

/// Computes `lists_before`.
pub fn ranks_before(priority: u8, id: usize, other_priority: u8, other_id: usize) -> (before: bool)
    ensures
        before == lists_before(priority, id, other_priority, other_id),
{
    priority > other_priority || (priority == other_priority && id < other_id)
}

/// Computes `resolved_priority`.
pub fn resolve_priority(requested: Option<u8>) -> (priority: u8)
    ensures
        priority == resolved_priority(requested),
        PRIORITY_MIN <= priority <= PRIORITY_MAX,
{
    match requested {
        None => PRIORITY_DEFAULT,
        Some(p) => {
            if p < PRIORITY_MIN {
                PRIORITY_MIN
            } else if p > PRIORITY_MAX {
                PRIORITY_MAX
            } else {
                p
            }
        },
    }
}

/// The colour in which the id of a task of this priority is written.
pub open spec fn priority_tint(priority: u8) -> Tint {
    if priority == 1 {
        Tint::Green
    } else if priority == 2 {
        Tint::Cyan
    } else if priority == 3 {
        Tint::Yellow
    } else if priority == 4 {
        Tint::Magenta
    } else if priority == 5 {
        Tint::Red
    } else {
        Tint::Blue
    }
}

/// The sign that stands for a state: a check mark for a completed task, a
/// clock for one in progress, a cross for one not yet started.
pub open spec fn status_glyph(status: Status) -> Seq<char> {
    match status {
        Status::Completed => seq!['\u{2713}'],
        Status::InProgress => seq!['\u{f64f}'],
        Status::NotStarted => seq!['\u{2715}'],
    }
}

/// The colour in which the sign of a state is written.
pub open spec fn status_tint(status: Status) -> Tint {
    match status {
        Status::Completed => Tint::Green,
        Status::InProgress => Tint::Cyan,
        Status::NotStarted => Tint::Red,
    }
}

/// The id as it is shown: `#` and the number.
pub open spec fn id_label(id: usize) -> Seq<char> {
    seq!['#'] + decimal(id as nat)
}

/// One line for a task: label, state sign and title.
pub open spec fn summary_line(label: Seq<char>, icon: Seq<char>, title: Seq<char>) -> Seq<char> {
    label + seq![' ', '|', ' '] + icon + seq![' '] + title
}

/// A task as it is listed: after a tab its summary line; where there is a
/// description, on the next line after a tab and `justify + 5` spaces; and
/// an empty line at the end.
pub open spec fn laid_out(
    label: Seq<char>,
    icon: Seq<char>,
    title: Seq<char>,
    desc: Option<Seq<char>>,
    justify: int,
) -> Seq<char> {
    seq!['\t'] + summary_line(label, icon, title) + seq!['\n'] + (match desc {
        Some(desc) => seq!['\t'] + spaces(justify) + spaces(5) + desc + seq!['\n'],
        None => Seq::empty(),
    }) + seq!['\n']
}

/// Whether `out` is the summary of the task on some terminal: its id in the
/// colour of its priority, the sign of its state, and its title with the
/// tags emphasised.
pub open spec fn is_summary(out: Seq<char>, task: TaskView) -> bool {
    exists|label: Seq<char>, icon: Seq<char>, title: Seq<char>|
        #![trigger summary_line(label, icon, title)]
        {
            &&& is_emphasis_of(label, id_label(task.id), priority_tint(task.priority))
            &&& is_emphasis_of(icon, status_glyph(task.status), status_tint(task.status))
            &&& is_highlight_of(title, task.title)
            &&& out == summary_line(label, icon, title)
        }
}

/// Whether `out` is the task as listed on some terminal: the id set to the
/// right of `justify` characters and written in the colour of the priority, the
/// sign of the state, the title with its tags emphasised and, with
/// `print_desc`, the description with its tags emphasised.
pub open spec fn is_rendering(out: Seq<char>, task: TaskView, justify: int, print_desc: bool) -> bool {
    exists|label: Seq<char>, icon: Seq<char>, title: Seq<char>, desc: Option<Seq<char>>|
        #![trigger laid_out(label, icon, title, desc, justify)]
        {
            &&& is_emphasis_of(
                label,
                padded(id_label(task.id), justify),
                priority_tint(task.priority),
            )
            &&& is_emphasis_of(icon, status_glyph(task.status), status_tint(task.status))
            &&& is_highlight_of(title, task.title)
            &&& out == laid_out(label, icon, title, desc, justify)
            &&& (desc is Some) == print_desc
            &&& desc matches Some(shown) ==> is_highlight_of(shown, task.desc)
        }
}

/// Computes `priority_tint`.
pub fn tint_of_priority(priority: u8) -> (tint: Tint)
    ensures
        tint == priority_tint(priority),
{
    if priority == 1 {
        Tint::Green
    } else if priority == 2 {
        Tint::Cyan
    } else if priority == 3 {
        Tint::Yellow
    } else if priority == 4 {
        Tint::Magenta
    } else if priority == 5 {
        Tint::Red
    } else {
        Tint::Blue
    }
}

/// Writes `summary_line`.
pub fn write_summary(label: &str, icon: &str, title: &str) -> (out: String)
    ensures
        out@ == summary_line(label@, icon@, title@),
{
    proof {
        reveal_strlit(" | ");
        reveal_strlit(" ");
        assert(" | "@ == seq![' ', '|', ' ']);
        assert(" "@ == seq![' ']);
    }
    let mut out = label.to_owned();
    out.append(" | ");
    out.append(icon);
    out.append(" ");
    out.append(title);
    out
}

/// Writes `laid_out`.
pub fn lay_out(label: &str, icon: &str, title: &str, desc: Option<&str>, justify: usize) -> (out:
    String)
    ensures
        out@ == laid_out(
            label@,
            icon@,
            title@,
            match desc {
                Some(desc) => Some(desc@),
                None => None,
            },
            justify as int,
        ),
{
    proof {
        reveal_strlit("\t");
        reveal_strlit("\n");
        assert("\t"@ == seq!['\t']);
        assert("\n"@ == seq!['\n']);
    }
    let mut out = "\t".to_owned();
    out.append(write_summary(label, icon, title).as_str());
    out.append("\n");
    match desc {
        Some(desc) => {
            let ghost head = out@;
            out.append("\t");
            push_spaces(&mut out, justify);
            push_spaces(&mut out, 5);
            out.append(desc);
            out.append("\n");
            assert(out@ == head + (seq!['\t'] + spaces(justify as int) + spaces(5) + desc@
                + seq!['\n']));
        },
        None => {
            assert(out@ + Seq::<char>::empty() == out@);
        },
    }
    out.append("\n");
    out
}

/// Whether no text occurs twice in `texts`.
pub fn all_distinct(texts: &Vec<String>) -> (distinct: bool)
    ensures
        distinct == texts.deep_view().no_duplicates(),
{
    let mut i: usize = 0;
    while i < texts.len()
        invariant
            i <= texts.len(),
            forall|a: int, b: int|
                0 <= a < b < texts.len() && a < i ==> texts.deep_view()[a] != texts.deep_view()[b],
        decreases texts.len() - i,
    {
        let mut j: usize = i + 1;
        while j < texts.len()
            invariant
                i < j <= texts.len(),
                forall|b: int| i < b < j ==> texts.deep_view()[i as int] != texts.deep_view()[b],
            decreases texts.len() - j,
        {
            if texts[i] == texts[j] {
                assert(texts.deep_view()[i as int] == texts.deep_view()[j as int]);
                return false;
            }
            j = j + 1;
        }
        i = i + 1;
    }
    true
}

/// A copy of `texts`.
pub fn copy_texts(texts: &Vec<String>) -> (copy: Vec<String>)
    ensures
        copy.deep_view() == texts.deep_view(),
{
    let mut copy: Vec<String> = Vec::new();
    let mut i: usize = 0;
    while i < texts.len()
        invariant
            i <= texts.len(),
            copy.len() == i,
            forall|k: int| 0 <= k < i ==> copy.deep_view()[k] == texts.deep_view()[k],
        decreases texts.len() - i,
    {
        let ghost before = copy.deep_view();
        let text = texts[i].clone();
        copy.push(text);
        assert(copy.deep_view() == before.push(text@));
        i = i + 1;
    }
    assert(copy.deep_view() =~= texts.deep_view());
    copy
}

/// A task as a document holds it: its parts as plain values, of which
/// nothing is known until they are checked.
pub struct TaskRecord {
    pub id: usize,
    pub title: String,
    pub desc: String,
    pub tags: Vec<String>,
    pub priority: u8,
    pub completed: bool,
    pub in_progress: bool,
}

impl TaskRecord {
    /// Whether the parts make a valid task: not both state flags set, a
    /// priority within the allowed range, and no tag twice.
    pub open spec fn is_valid(&self) -> bool {
        &&& !(self.completed && self.in_progress)
        &&& PRIORITY_MIN <= self.priority <= PRIORITY_MAX
        &&& self.tags.deep_view().no_duplicates()
    }

    /// The task that the parts describe.
    pub open spec fn task_view(&self) -> TaskView {
        TaskView {
            id: self.id,
            title: self.title@,
            desc: self.desc@,
            tags: self.tags.deep_view(),
            priority: self.priority,
            status: if self.completed {
                Status::Completed
            } else if self.in_progress {
                Status::InProgress
            } else {
                Status::NotStarted
            },
        }
    }
}

/// A task: an id, a title and a description, the tags of both, a priority
/// and the state of its lifecycle.
#[derive(Debug)]
pub struct Task {
    id: usize,
    title: String,
    desc: String,
    tags: Vec<String>,
    priority: u8,
    completed: bool,
    in_progress: bool,
}

impl View for Task {
    type V = TaskView;

    closed spec fn view(&self) -> TaskView {
        TaskView {
            id: self.id,
            title: self.title@,
            desc: self.desc@,
            tags: self.tags.deep_view(),
            priority: self.priority,
            status: if self.completed {
                Status::Completed
            } else if self.in_progress {
                Status::InProgress
            } else {
                Status::NotStarted
            },
        }
    }
}

impl Task {
    /// The two state flags are never both set.
    pub closed spec fn flags_agree(&self) -> bool {
        !(self.completed && self.in_progress)
    }

    /// What holds of every task: its state flags agree, its priority lies
    /// within the allowed range and no tag occurs twice.
    pub open spec fn wf(&self) -> bool {
        &&& self.flags_agree()
        &&& PRIORITY_MIN <= self@.priority <= PRIORITY_MAX
        &&& self@.tags.no_duplicates()
    }

    /// A task that has not been started, with the tags of its title and
    /// description.
    pub fn new(id: usize, title: &str, desc: &str, priority: Option<u8>) -> (task: Task)
        ensures
            task.wf(),
            task@ == (TaskView {
                id,
                title: title@,
                desc: desc@,
                tags: task_tags(title@, desc@),
                priority: resolved_priority(priority),
                status: Status::NotStarted,
            }),
    {
        let mut tags = title.extract_tags(None);
        add_tags_of(&mut tags, desc, false);
        proof {
            lemma_add_tags_distinct(Seq::empty(), words(title@), false);
            lemma_add_tags_distinct(tags_in(title@, false), words(desc@), false);
        }
        Task {
            id,
            title: title.to_owned(),
            desc: desc.to_owned(),
            tags,
            priority: resolve_priority(priority),
            completed: false,
            in_progress: false,
        }
    }

    /// A task made of the given parts, or `None` when they do not make a
    /// valid task: both state flags set, a priority out of range, or a tag
    /// that occurs twice.
    pub fn from_parts(
        id: usize,
        title: String,
        desc: String,
        tags: Vec<String>,
        priority: u8,
        completed: bool,
        in_progress: bool,
    ) -> (task: Option<Task>)
        ensures
            task is Some <==> !(completed && in_progress) && PRIORITY_MIN <= priority
                <= PRIORITY_MAX && tags.deep_view().no_duplicates(),
            task matches Some(task) ==> task.wf() && task@ == (TaskView {
                id,
                title: title@,
                desc: desc@,
                tags: tags.deep_view(),
                priority,
                status: if completed {
                    Status::Completed
                } else if in_progress {
                    Status::InProgress
                } else {
                    Status::NotStarted
                },
            }),
    {
        if (completed && in_progress) || priority < PRIORITY_MIN || priority > PRIORITY_MAX
            || !all_distinct(&tags) {
            return None;
        }
        Some(Task { id, title, desc, tags, priority, completed, in_progress })
    }

    /// The task that a record describes, or `None` where the record is not
    /// valid.
    pub fn from_record(record: &TaskRecord) -> (task: Option<Task>)
        ensures
            task is Some <==> record.is_valid(),
            task matches Some(task) ==> task.wf() && task@ == record.task_view(),
    {
        Task::from_parts(
            record.id,
            record.title.clone(),
            record.desc.clone(),
            copy_texts(&record.tags),
            record.priority,
            record.completed,
            record.in_progress,
        )
    }

    /// The record that describes the task.
    pub fn to_record(&self) -> (record: TaskRecord)
        ensures
            record.task_view() == self@,
            self.wf() ==> record.is_valid(),
    {
        TaskRecord {
            id: self.id,
            title: self.title.clone(),
            desc: self.desc.clone(),
            tags: copy_texts(&self.tags),
            priority: self.priority,
            completed: self.completed,
            in_progress: self.in_progress && !self.completed,
        }
    }

    /// The id of the task.
    pub fn id(&self) -> (id: usize)
        ensures
            id == self@.id,
    {
        self.id
    }

    /// The title of the task.
    pub fn title(&self) -> (title: &str)
        ensures
            title@ == self@.title,
    {
        self.title.as_str()
    }

    /// The description of the task.
    pub fn desc(&self) -> (desc: &str)
        ensures
            desc@ == self@.desc,
    {
        self.desc.as_str()
    }

    /// The tags of the task, each once.
    pub fn tags(&self) -> (tags: &Vec<String>)
        ensures
            tags.deep_view() == self@.tags,
    {
        &self.tags
    }

    /// The priority of the task.
    pub fn priority(&self) -> (priority: u8)
        ensures
            priority == self@.priority,
    {
        self.priority
    }

    /// Where the task stands in its lifecycle.
    pub fn status(&self) -> (status: Status)
        ensures
            status == self@.status,
    {
        if self.completed {
            Status::Completed
        } else if self.in_progress {
            Status::InProgress
        } else {
            Status::NotStarted
        }
    }

    /// Whether the task is completed.
    pub fn is_completed(&self) -> (completed: bool)
        ensures
            completed == (self@.status == Status::Completed),
    {
        self.completed
    }

    /// Whether the task is in progress.
    pub fn is_in_progress(&self) -> (in_progress: bool)
        ensures
            in_progress == (self@.status == Status::InProgress),
    {
        self.in_progress && !self.completed
    }

    /// Moves a task that has not been started into progress. Any other task
    /// is left as it is, and the reason is returned.
    pub fn start(&mut self) -> (result: Result<(), InvalidTransition>)
        requires
            old(self).wf(),
        ensures
            final(self).wf(),
            match after_start(old(self)@) {
                Ok(started) => result == Ok::<(), InvalidTransition>(()) && final(self)@ == started,
                Err(reason) => result == Err::<(), InvalidTransition>(reason) && *final(self)
                    == *old(self),
            },
    {
        if self.in_progress {
            return Err(InvalidTransition::StartInProgress);
        }
        if self.completed {
            return Err(InvalidTransition::StartCompleted);
        }
        self.in_progress = true;
        Ok(())
    }

    /// Completes a task that is in progress. Any other task is left as it
    /// is, and the reason is returned.
    pub fn complete(&mut self) -> (result: Result<(), InvalidTransition>)
        requires
            old(self).wf(),
        ensures
            final(self).wf(),
            match after_complete(old(self)@) {
                Ok(completed) => result == Ok::<(), InvalidTransition>(()) && final(self)@
                    == completed,
                Err(reason) => result == Err::<(), InvalidTransition>(reason) && *final(self)
                    == *old(self),
            },
    {
        if self.completed {
            return Err(InvalidTransition::CompleteCompleted);
        }
        if !self.in_progress {
            return Err(InvalidTransition::CompleteNotStarted);
        }
        self.in_progress = false;
        self.completed = true;
        Ok(())
    }

    /// The sign of the task's state, emphasised in the colour of the state.
    pub fn status_icon(&self) -> (icon: String)
        ensures
            is_emphasis_of(icon@, status_glyph(self@.status), status_tint(self@.status)),
    {
        if self.completed {
            proof {
                reveal_strlit("\u{2713}");
                assert("\u{2713}"@ == seq!['\u{2713}']);
            }
            emphasize("\u{2713}", Tint::Green)
        } else if self.in_progress {
            proof {
                reveal_strlit("\u{f64f}");
                assert("\u{f64f}"@ == seq!['\u{f64f}']);
            }
            emphasize("\u{f64f}", Tint::Cyan)
        } else {
            proof {
                reveal_strlit("\u{2715}");
                assert("\u{2715}"@ == seq!['\u{2715}']);
            }
            emphasize("\u{2715}", Tint::Red)
        }
    }

    /// The id as `#` and the number.
    fn label(&self) -> (label: String)
        ensures
            label@ == id_label(self@.id),
    {
        proof {
            reveal_strlit("#");
            assert("#"@ == seq!['#']);
        }
        let mut label = "#".to_owned();
        label.append(decimal_string(self.id).as_str());
        label
    }

    /// The id of the task, emphasised in the colour of its priority.
    pub fn colored_id(&self) -> (label: String)
        ensures
            is_emphasis_of(label@, id_label(self@.id), priority_tint(self@.priority)),
    {
        emphasize(self.label().as_str(), tint_of_priority(self.priority))
    }

    /// The task on one line: its id, the sign of its state and its title.
    pub fn summary(&self) -> (out: String)
        ensures
            is_summary(out@, self@),
    {
        let label = self.colored_id();
        let icon = self.status_icon();
        let title = highlight(self.title.as_str());
        let out = write_summary(label.as_str(), icon.as_str(), title.as_str());
        assert(out@ == summary_line(label@, icon@, title@));
        out
    }

    /// The task as it is listed, with its description if `print_desc`.
    pub fn render(&self, justify: usize, print_desc: bool) -> (out: String)
        ensures
            is_rendering(out@, self@, justify as int, print_desc),
    {
        let padded_label = pad_left(self.label().as_str(), justify);
        let label = emphasize(padded_label.as_str(), tint_of_priority(self.priority));
        let icon = self.status_icon();
        let title = highlight(self.title.as_str());
        if print_desc {
            let desc = highlight(self.desc.as_str());
            let out = lay_out(
                label.as_str(),
                icon.as_str(),
                title.as_str(),
                Some(desc.as_str()),
                justify,
            );
            assert(out@ == laid_out(label@, icon@, title@, Some(desc@), justify as int));
            out
        } else {
            let out = lay_out(label.as_str(), icon.as_str(), title.as_str(), None, justify);
            assert(out@ == laid_out(label@, icon@, title@, None, justify as int));
            out
        }
    }

    /// Whether both tasks have the same id and the same priority.
    pub fn priority_eq(&self, other: &Task) -> (same: bool)
        ensures
            same == (self@.id == other@.id && self@.priority == other@.priority),
    {
        self.id == other.id && self.priority == other.priority
    }

    /// Whether `self` ranks below `other`, that is, whether `other` is
    /// listed before `self`: `other` has the higher priority or, with the
    /// same priority, the lower id.
    pub fn priority_lt(&self, other: &Task) -> (below: bool)
        ensures
            below == lists_before(other@.priority, other@.id, self@.priority, self@.id),
    {
        if self.priority == other.priority {
            self.id > other.id
        } else {
            self.priority < other.priority
        }
    }

    /// Whether `priority_eq` or `priority_lt` holds: `self` is `other`'s
    /// equal or is listed after it.
    pub fn priority_le(&self, other: &Task) -> (at_most: bool)
        ensures
            at_most == ((self@.id == other@.id && self@.priority == other@.priority)
                || lists_before(other@.priority, other@.id, self@.priority, self@.id)),
    {
        self.priority_eq(other) || self.priority_lt(other)
    }
}

} // verus!

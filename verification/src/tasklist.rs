//! The task store: tasks by id, listed by descending priority.

use crate::listing::{
    insertion_point, is_listing, lemma_insert_keeps_listing, lemma_insertion_point_is,
    lemma_remove_keeps_listing, lemma_same_listing_upto, lemma_visible, shown, visible,
};
use crate::task::{
    after_complete, after_start, id_label, is_rendering, lists_before, ranks_before,
    resolved_priority, task_tags, InvalidTransition, Status, Task, TaskRecord, TaskView,
};
use crate::utils::{
    decimal_digits, err_no_task, law_decimal_len, lemma_decimal_digits_grow,
    lemma_decimal_digits_small, no_task_message, padded, NumberOfDigits, ERR_INVALID_TASK_ID,
    ERR_SUCCESS,
};
use std::collections::hash_map::Entry;
use std::collections::HashMap;
use vstd::prelude::*;
use vstd::string::StringExecFns;

verus! {

broadcast use vstd::std_specs::hash::group_hash_axioms;

/// Why the store refused an operation.
#[derive(Clone, Copy, Debug, PartialEq, Eq, Structural)]
pub enum StoreError {
    /// A task with the same id is already stored.
    DuplicateId,
    /// No task with the given id is stored.
    NotFound,
    /// The task is stored, but its lifecycle does not allow the transition.
    InvalidTransition(InvalidTransition),
}

impl StoreError {
    /// The sentence that reports the refusal of an operation on the task
    /// with this id.
    pub open spec fn spec_message(self, id: usize) -> Seq<char> {
        match self {
            StoreError::DuplicateId => "Task with the same ID already exists"@,
            StoreError::NotFound => no_task_message(id),
            StoreError::InvalidTransition(reason) => reason.spec_message(),
        }
    }

    /// The exit status that reports the refusal. A duplicate id is reported
    /// in words only and leaves the status at success.
    pub open spec fn spec_exit_code(self) -> i32 {
        match self {
            StoreError::DuplicateId => ERR_SUCCESS,
            StoreError::NotFound => ERR_INVALID_TASK_ID,
            StoreError::InvalidTransition(reason) => reason.spec_exit_code(),
        }
    }

    /// Writes `spec_message`.
    pub fn message(&self, id: usize) -> (message: String)
        ensures
            message@ == self.spec_message(id),
    {
        match self {
            StoreError::DuplicateId => "Task with the same ID already exists".to_owned(),
            StoreError::NotFound => err_no_task(id),
            StoreError::InvalidTransition(reason) => reason.message().to_owned(),
        }
    }

    /// Computes `spec_exit_code`.
    pub fn exit_code(&self) -> (code: i32)
        ensures
            code == self.spec_exit_code(),
    {
        match self {
            StoreError::DuplicateId => ERR_SUCCESS,
            StoreError::NotFound => ERR_INVALID_TASK_ID,
            StoreError::InvalidTransition(reason) => reason.exit_code(),
        }
    }
}

/// Whether `max_id` is the highest of `ids`, or zero when there are none.
pub open spec fn is_max_id(ids: Set<usize>, max_id: usize) -> bool {
    &&& forall|id: usize| ids.contains(id) ==> id <= max_id
    &&& ids.contains(max_id) || (max_id == 0 && ids.is_empty())
}

/// The texts of `parts` in a row.
pub open spec fn concat(parts: Seq<Seq<char>>) -> Seq<char>
    decreases parts.len(),
{
    if parts.len() == 0 {
        Seq::empty()
    } else {
        concat(parts.drop_last()) + parts.last()
    }
}

/// A listing as it is shown: after an empty line the listed tasks, or a
/// line that says that there are none.
pub open spec fn listing_text(parts: Seq<Seq<char>>) -> Seq<char> {
    seq!['\n'] + if parts.len() == 0 {
        "Nothing to do\n"@
    } else {
        concat(parts)
    }
}

/// Whether `out` shows the tasks `ids` of `tasks` on some terminal, each as
/// `is_rendering` says, with ids set to the right of `width` characters.
pub open spec fn is_listing_text(
    out: Seq<char>,
    tasks: Map<usize, Task>,
    ids: Seq<usize>,
    width: int,
    verbose: bool,
) -> bool {
    exists|parts: Seq<Seq<char>>|
        #![trigger listing_text(parts)]
        {
            &&& parts.len() == ids.len()
            &&& forall|i: int|
                0 <= i < ids.len() ==> is_rendering(
                    #[trigger] parts[i],
                    tasks[ids[i]]@,
                    width,
                    verbose,
                )
            &&& out == listing_text(parts)
        }
}

/// Writes `listing_text`.
pub fn write_listing(parts: &Vec<String>) -> (out: String)
    ensures
        out@ == listing_text(parts.deep_view()),
{
    proof {
        reveal_strlit("\n");
        assert("\n"@ == seq!['\n']);
    }
    let mut out = "\n".to_owned();
    if parts.len() == 0 {
        out.append("Nothing to do\n");
        return out;
    }
    let mut i: usize = 0;
    assert(parts.deep_view().take(0) == Seq::<Seq<char>>::empty());
    assert(out@ + Seq::<char>::empty() == out@);
    while i < parts.len()
        invariant
            i <= parts.len(),
            out@ == seq!['\n'] + concat(parts.deep_view().take(i as int)),
        decreases parts.len() - i,
    {
        proof {
            let upto = parts.deep_view().take(i + 1);
            assert(upto.drop_last() == parts.deep_view().take(i as int));
            assert(upto.last() == parts[i as int]@);
        }
        out.append(parts[i].as_str());
        i = i + 1;
    }
    assert(parts.deep_view().take(parts.len() as int) == parts.deep_view());
    out
}

/// The ids of `tasks`, in the same order.
pub open spec fn ids_of(tasks: Seq<Task>) -> Seq<usize> {
    Seq::new(tasks.len(), |i: int| tasks[i]@.id)
}

/// Whether `stored` holds exactly the tasks of `tasks`, each under its id.
pub open spec fn holds_exactly(stored: Map<usize, Task>, tasks: Seq<Task>) -> bool {
    &&& forall|id: usize| stored.contains_key(id) <==> ids_of(tasks).contains(id)
    &&& forall|i: int| 0 <= i < tasks.len() ==> stored[(#[trigger] tasks[i])@.id] == tasks[i]
}

/// The ids under which the entries of a document stand, in the same order.
pub open spec fn keys_of(entries: Seq<(usize, TaskRecord)>) -> Seq<usize> {
    Seq::new(entries.len(), |i: int| entries[i].0)
}

/// Whether the entries make a document of a task list: no id occurs twice,
/// and every record is valid and stands under its own id.
pub open spec fn is_document(entries: Seq<(usize, TaskRecord)>) -> bool {
    &&& keys_of(entries).no_duplicates()
    &&& forall|i: int|
        0 <= i < entries.len() ==> (#[trigger] entries[i]).0 == entries[i].1.id
            && entries[i].1.is_valid()
}

/// Whether `stored` holds exactly the tasks that the entries describe.
pub open spec fn holds_records(stored: Map<usize, Task>, entries: Seq<(usize, TaskRecord)>) -> bool {
    &&& forall|id: usize| stored.contains_key(id) <==> keys_of(entries).contains(id)
    &&& forall|i: int|
        0 <= i < entries.len() ==> stored[(#[trigger] entries[i]).0]@
            == entries[i].1.task_view()
}

/// The tasks of one user, by id, with the order in which they are listed.
pub struct TaskList {
    max_id: usize,
    count: usize,
    task_list: HashMap<usize, Task>,
    order: Vec<usize>,
}

impl TaskList {
    /// The stored tasks, by id.
    pub closed spec fn tasks(&self) -> Map<usize, Task> {
        self.task_list@
    }

    /// The ids of the stored tasks, in the order in which they are listed.
    pub closed spec fn order(&self) -> Seq<usize> {
        self.order@
    }

    /// The highest id in use, as the store records it.
    pub closed spec fn recorded_max_id(&self) -> usize {
        self.max_id
    }

    /// The number of tasks, as the store records it.
    pub closed spec fn recorded_count(&self) -> usize {
        self.count
    }

    /// What holds of every store: each task is valid and stored under its own
    /// id, the recorded count and highest id are the true ones, and the
    /// order lists all tasks by descending priority, then ascending id.
    pub open spec fn wf(&self) -> bool {
        &&& self.tasks().dom().finite()
        &&& forall|id: usize| #[trigger]
            self.tasks().contains_key(id) ==> self.tasks()[id].wf() && self.tasks()[id]@.id == id
        &&& self.recorded_count() == self.tasks().dom().len()
        &&& is_max_id(self.tasks().dom(), self.recorded_max_id())
        &&& is_listing(self.tasks(), self.order())
    }

    /// Whether two stores hold the same tasks, list them alike and record the
    /// same count and highest id.
    pub open spec fn same_as(&self, other: &TaskList) -> bool {
        &&& self.tasks() == other.tasks()
        &&& self.order() == other.order()
        &&& self.recorded_count() == other.recorded_count()
        &&& self.recorded_max_id() == other.recorded_max_id()
    }

    /// An empty store with room for `capacity` tasks.
    pub fn with_capacity(capacity: usize) -> (list: TaskList)
        ensures
            list.wf(),
            list.tasks() == Map::<usize, Task>::empty(),
            list.order() == Seq::<usize>::empty(),
    {
        TaskList {
            max_id: 0,
            count: 0,
            task_list: HashMap::with_capacity(capacity),
            order: Vec::new(),
        }
    }

    /// A store of the given tasks, or `None` where two of them have the
    /// same id.
    pub fn from_tasks(tasks: Vec<Task>) -> (list: Option<TaskList>)
        requires
            forall|i: int| 0 <= i < tasks.len() ==> (#[trigger] tasks[i]).wf(),
        ensures
            list is Some <==> ids_of(tasks@).no_duplicates(),
            list matches Some(list) ==> list.wf() && holds_exactly(list.tasks(), tasks@),
    {
        let ghost all = tasks@;
        let mut rest = tasks;
        let mut list = TaskList::with_capacity(rest.len());
        assert(all.skip(all.len() as int) == Seq::<Task>::empty());
        assert(all.take(all.len() as int) == all);
        while rest.len() > 0
            invariant
                all == tasks@,
                forall|i: int| 0 <= i < all.len() ==> (#[trigger] all[i]).wf(),
                rest.len() <= all.len(),
                rest@ == all.take(rest.len() as int),
                list.wf(),
                ids_of(all.skip(rest.len() as int)).no_duplicates(),
                holds_exactly(list.tasks(), all.skip(rest.len() as int)),
            decreases rest.len(),
        {
            let ghost n = rest.len() as int;
            let ghost done = all.skip(n);
            let ghost stored = list.tasks();
            match rest.pop() {
                Some(task) => {
                    let ghost next = all.skip(n - 1);
                    proof {
                        assert(task == all[n - 1]);
                        assert(rest@ == all.take(n - 1));
                        assert(next[0] == task);
                        assert(next.skip(1) == done);
                        assert forall|i: int| 1 <= i < next.len() implies ids_of(next)[i] == ids_of(
                            done,
                        )[i - 1] by {
                            assert(next[i] == done[i - 1]);
                        }
                    }
                    if list.insert(task).is_err() {
                        proof {
                            assert(stored.contains_key(task@.id));
                            assert(ids_of(done).contains(task@.id));
                            let k = choose|k: int|
                                0 <= k < ids_of(done).len() && ids_of(done)[k] == task@.id;
                            assert(done[k] == all[n + k]);
                            let ids = ids_of(all);
                            assert(0 <= n - 1 < ids.len() && 0 <= n + k < ids.len());
                            assert(ids[n - 1] == ids[n + k]);
                            assert(!ids.no_duplicates());
                        }
                        return None;
                    }
                    proof {
                        assert forall|i: int, j: int|
                            0 <= i < j < ids_of(next).len() implies ids_of(next)[i] != ids_of(
                            next,
                        )[j] by {
                            if i == 0 {
                                assert(ids_of(done)[j - 1] == ids_of(next)[j]);
                                assert(ids_of(done).contains(ids_of(next)[j]));
                            } else {
                                assert(ids_of(done)[i - 1] != ids_of(done)[j - 1]);
                            }
                        }
                        assert forall|id: usize|
                            list.tasks().contains_key(id) <==> ids_of(next).contains(id) by {
                            if ids_of(next).contains(id) {
                                let k = choose|k: int|
                                    0 <= k < ids_of(next).len() && ids_of(next)[k] == id;
                                if k > 0 {
                                    assert(ids_of(done)[k - 1] == id);
                                    assert(ids_of(done).contains(id));
                                }
                            }
                            if list.tasks().contains_key(id) {
                                if id == task@.id {
                                    assert(ids_of(next)[0] == id);
                                } else {
                                    assert(stored.contains_key(id));
                                    assert(ids_of(done).contains(id));
                                    let k = choose|k: int|
                                        0 <= k < ids_of(done).len() && ids_of(done)[k] == id;
                                    assert(ids_of(next)[k + 1] == id);
                                }
                            }
                        }
                        assert forall|i: int| 0 <= i < next.len() implies list.tasks()[(
                        #[trigger] next[i])@.id] == next[i] by {
                            if i > 0 {
                                assert(next[i] == done[i - 1]);
                                assert(ids_of(done)[i - 1] == done[i - 1]@.id);
                                assert(ids_of(done).contains(done[i - 1]@.id));
                            }
                        }
                    }
                },
                None => {},
            }
        }
        assert(all.skip(0) == all);
        Some(list)
    }

    /// The store of the tasks that the entries of a document describe, or
    /// `None` where they make no document: an id occurs twice, or a record
    /// is not valid or stands under another id than its own.
    pub fn from_entries(entries: &Vec<(usize, TaskRecord)>) -> (list: Option<TaskList>)
        ensures
            list is Some <==> is_document(entries@),
            list matches Some(list) ==> list.wf() && holds_records(list.tasks(), entries@),
    {
        let mut tasks: Vec<Task> = Vec::new();
        let mut i: usize = 0;
        while i < entries.len()
            invariant
                i <= entries.len(),
                tasks.len() == i,
                forall|k: int|
                    0 <= k < i ==> (#[trigger] entries@[k]).0 == entries@[k].1.id
                        && entries@[k].1.is_valid(),
                forall|k: int|
                    0 <= k < i ==> (#[trigger] tasks@[k]).wf() && tasks@[k]@
                        == entries@[k].1.task_view(),
            decreases entries.len() - i,
        {
            let key: usize = entries[i].0;
            let record: &TaskRecord = &entries[i].1;
            if key != record.id {
                assert(entries@[i as int].0 != entries@[i as int].1.id);
                return None;
            }
            match Task::from_record(record) {
                Some(task) => {
                    tasks.push(task);
                },
                None => {
                    assert(!entries@[i as int].1.is_valid());
                    return None;
                },
            }
            i = i + 1;
        }
        assert(ids_of(tasks@) =~= keys_of(entries@));
        let ghost built = tasks@;
        let list = TaskList::from_tasks(tasks);
        proof {
            if list is Some {
                let made = list->Some_0;
                assert forall|k: int| 0 <= k < entries@.len() implies made.tasks()[(
                #[trigger] entries@[k]).0]@ == entries@[k].1.task_view() by {
                    assert(built[k]@.id == entries@[k].0);
                }
            }
        }
        list
    }

    /// The store that a loaded document gives: the store of its entries
    /// where the document could be read and its entries make a document,
    /// and an empty store otherwise.
    pub fn from_loaded(loaded: Option<Vec<(usize, TaskRecord)>>) -> (list: TaskList)
        ensures
            list.wf(),
            match loaded {
                Some(entries) if is_document(entries@) => holds_records(list.tasks(), entries@),
                _ => list.tasks() == Map::<usize, Task>::empty(),
            },
    {
        match loaded {
            Some(entries) => match TaskList::from_entries(&entries) {
                Some(list) => list,
                None => TaskList::with_capacity(10),
            },
            None => TaskList::with_capacity(10),
        }
    }

    /// The entries of the document that holds the store: one for each
    /// task, in the order of the listing.
    pub fn to_entries(&self) -> (entries: Vec<(usize, TaskRecord)>)
        requires
            self.wf(),
        ensures
            keys_of(entries@) == self.order(),
            forall|i: int|
                0 <= i < entries.len() ==> (#[trigger] entries@[i]).1.task_view()
                    == self.tasks()[self.order()[i]]@ && entries@[i].1.is_valid(),
    {
        let mut entries: Vec<(usize, TaskRecord)> = Vec::new();
        let mut i: usize = 0;
        while i < self.order.len()
            invariant
                self.wf(),
                i <= self.order().len(),
                entries.len() == i,
                forall|k: int|
                    0 <= k < i ==> {
                        &&& (#[trigger] entries@[k]).0 == self.order()[k]
                        &&& entries@[k].1.task_view() == self.tasks()[self.order()[k]]@
                        &&& entries@[k].1.is_valid()
                    },
            decreases self.order().len() - i,
        {
            let id: usize = self.order[i];
            assert(self.order().contains(id));
            match self.task_list.get(&id) {
                Some(task) => {
                    entries.push((id, task.to_record()));
                },
                None => {},
            }
            i = i + 1;
        }
        assert(keys_of(entries@) =~= self.order());
        entries
    }

    /// The highest id in use, or zero when the store is empty.
    pub fn max_id(&self) -> (max_id: usize)
        requires
            self.wf(),
        ensures
            is_max_id(self.tasks().dom(), max_id),
            max_id == self.recorded_max_id(),
    {
        self.max_id
    }

    /// The number of stored tasks.
    pub fn count(&self) -> (count: usize)
        requires
            self.wf(),
        ensures
            count == self.tasks().dom().len(),
    {
        self.count
    }

    /// Whether a task with this id is stored.
    pub fn contains(&self, id: usize) -> (found: bool)
        ensures
            found == self.tasks().contains_key(id),
    {
        self.task_list.contains_key(&id)
    }

    /// Where a task with this priority and id belongs in the listing, found
    /// by halving the stretch of the listing in which the place must lie.
    fn find_position(&self, priority: u8, id: usize) -> (pos: usize)
        requires
            self.wf(),
        ensures
            pos == insertion_point(self.tasks(), self.order(), priority, id),
            pos <= self.order().len(),
            forall|k: int|
                0 <= k < pos ==> lists_before(
                    self.tasks()[#[trigger] self.order()[k]]@.priority,
                    self.order()[k],
                    priority,
                    id,
                ),
            pos < self.order().len() ==> !lists_before(
                self.tasks()[self.order()[pos as int]]@.priority,
                self.order()[pos as int],
                priority,
                id,
            ),
    {
        let mut low: usize = 0;
        let mut high: usize = self.order.len();
        while low < high
            invariant
                self.wf(),
                low <= high <= self.order().len(),
                forall|k: int|
                    0 <= k < low ==> lists_before(
                        self.tasks()[#[trigger] self.order()[k]]@.priority,
                        self.order()[k],
                        priority,
                        id,
                    ),
                forall|k: int|
                    high <= k < self.order().len() ==> !lists_before(
                        self.tasks()[#[trigger] self.order()[k]]@.priority,
                        self.order()[k],
                        priority,
                        id,
                    ),
            decreases high - low,
        {
            let mid: usize = low + (high - low) / 2;
            let other: usize = self.order[mid];
            assert(self.order().contains(other));
            let before = match self.task_list.get(&other) {
                Some(task) => ranks_before(task.priority(), other, priority, id),
                None => false,
            };
            if before {
                assert forall|k: int| 0 <= k < mid + 1 implies lists_before(
                    self.tasks()[#[trigger] self.order()[k]]@.priority,
                    self.order()[k],
                    priority,
                    id,
                ) by {
                    if k < mid {
                        assert(lists_before(
                            self.tasks()[self.order()[k]]@.priority,
                            self.order()[k],
                            self.tasks()[self.order()[mid as int]]@.priority,
                            self.order()[mid as int],
                        ));
                    }
                }
                low = mid + 1;
            } else {
                assert forall|k: int| mid <= k < self.order().len() implies !lists_before(
                    self.tasks()[#[trigger] self.order()[k]]@.priority,
                    self.order()[k],
                    priority,
                    id,
                ) by {
                    if k > mid {
                        assert(lists_before(
                            self.tasks()[self.order()[mid as int]]@.priority,
                            self.order()[mid as int],
                            self.tasks()[self.order()[k]]@.priority,
                            self.order()[k],
                        ));
                    }
                }
                high = mid;
            }
        }
        proof {
            lemma_insertion_point_is(self.tasks(), self.order(), priority, id, low as int);
        }
        low
    }

    /// Stores `task`, unless a task with its id is stored already: then the
    /// store is left as it is. A new task takes its place in the listing
    /// after the tasks that are listed before it.
    pub fn insert(&mut self, task: Task) -> (result: Result<(), StoreError>)
        requires
            old(self).wf(),
            task.wf(),
        ensures
            final(self).wf(),
            old(self).tasks().contains_key(task@.id) ==> result == Err::<(), StoreError>(
                StoreError::DuplicateId,
            ) && final(self).same_as(old(self)),
            !old(self).tasks().contains_key(task@.id) ==> {
                &&& result == Ok::<(), StoreError>(())
                &&& final(self).tasks() == old(self).tasks().insert(task@.id, task)
                &&& final(self).order() == old(self).order().insert(
                    insertion_point(
                        old(self).tasks(),
                        old(self).order(),
                        task@.priority,
                        task@.id,
                    ) as int,
                    task@.id,
                )
                &&& final(self).recorded_count() == old(self).recorded_count() + 1
                &&& final(self).recorded_max_id() == if task@.id > old(self).recorded_max_id() {
                    task@.id
                } else {
                    old(self).recorded_max_id()
                }
            },
    {
        let id: usize = task.id();
        let priority: u8 = task.priority();
        if self.task_list.contains_key(&id) {
            return Err(StoreError::DuplicateId);
        }
        let pos: usize = self.find_position(priority, id);
        proof {
            lemma_insert_keeps_listing(self.tasks(), self.order(), task, pos as int);
        }
        self.order.insert(pos, id);
        self.task_list.insert(id, task);
        self.count = self.task_list.len();
        if id > self.max_id {
            self.max_id = id;
        }
        Ok(())
    }

    /// The place of a stored id in the listing.
    fn position_of(&self, id: usize) -> (pos: usize)
        requires
            self.wf(),
            self.tasks().contains_key(id),
        ensures
            pos < self.order().len(),
            self.order()[pos as int] == id,
            pos == self.order().index_of(id),
    {
        assert(self.order().contains(id));
        let mut pos: usize = 0;
        while pos < self.order.len()
            invariant
                pos <= self.order().len(),
                self.order().contains(id),
                self.order().no_duplicates(),
                forall|k: int| 0 <= k < pos ==> self.order()[k] != id,
            decreases self.order().len() - pos,
        {
            if self.order[pos] == id {
                proof {
                    let found = self.order().index_of(id);
                    assert(self.order()[found] == id);
                }
                return pos;
            }
            pos = pos + 1;
        }
        proof {
            let found = self.order().index_of(id);
            assert(self.order()[found] == id);
        }
        pos
    }

    /// Takes the task with this id out of the store, or leaves the store as
    /// it is when there is none. When the highest id leaves, the next
    /// highest takes its place, or zero when no task is left.
    pub fn remove(&mut self, id: usize) -> (result: Result<(), StoreError>)
        requires
            old(self).wf(),
        ensures
            final(self).wf(),
            !old(self).tasks().contains_key(id) ==> result == Err::<(), StoreError>(
                StoreError::NotFound,
            ) && final(self).same_as(old(self)),
            old(self).tasks().contains_key(id) ==> {
                &&& result == Ok::<(), StoreError>(())
                &&& final(self).tasks() == old(self).tasks().remove(id)
                &&& final(self).order() == old(self).order().remove(
                    old(self).order().index_of(id),
                )
                &&& final(self).recorded_count() == old(self).recorded_count() - 1
                &&& is_max_id(old(self).tasks().dom().remove(id), final(self).recorded_max_id())
            },
    {
        if !self.task_list.contains_key(&id) {
            return Err(StoreError::NotFound);
        }
        let pos: usize = self.position_of(id);
        proof {
            lemma_remove_keeps_listing(self.tasks(), self.order(), pos as int);
        }
        self.order.remove(pos);
        self.task_list.remove(&id);
        self.count = self.task_list.len();
        while self.max_id > 0 && !self.task_list.contains_key(&self.max_id)
            invariant
                self.task_list@ == old(self).tasks().remove(id),
                self.order@ == old(self).order().remove(pos as int),
                self.count == self.task_list@.dom().len(),
                forall|other: usize| self.task_list@.dom().contains(other) ==> other <= self.max_id,
            decreases self.max_id,
        {
            self.max_id = self.max_id - 1;
        }
        proof {
            if !self.task_list@.dom().contains(self.max_id) {
                assert(self.task_list@.dom() =~= Set::<usize>::empty());
            }
        }
        Ok(())
    }

    /// Exclusive access to the stored task with this id. The store holds
    /// whatever the task has become when the access ends; it stays valid as
    /// long as the task is valid and keeps its id and priority.
    pub fn get_mut(&mut self, index: &usize) -> (task: &mut Task)
        requires
            old(self).wf(),
            old(self).tasks().contains_key(*index),
        ensures
            *task == old(self).tasks()[*index],
            final(self).tasks() == old(self).tasks().insert(*index, *final(task)),
            final(self).order() == old(self).order(),
            final(self).recorded_count() == old(self).recorded_count(),
            final(self).recorded_max_id() == old(self).recorded_max_id(),
            final(task).wf() && final(task)@.id == *index && final(task)@.priority == old(
                self,
            ).tasks()[*index]@.priority ==> final(self).wf(),
    {
        match self.task_list.entry(*index) {
            Entry::Occupied(entry) => entry.into_mut(),
            Entry::Vacant(_) => vstd::pervasive::unreached(),
        }
    }

    /// Stores a new task under the id that follows the highest one in use,
    /// and returns that id.
    pub fn add(&mut self, title: &str, desc: &str, priority: Option<u8>) -> (id: usize)
        requires
            old(self).wf(),
            old(self).recorded_max_id() < usize::MAX,
        ensures
            final(self).wf(),
            id == old(self).recorded_max_id() + 1,
            !old(self).tasks().contains_key(id),
            final(self).tasks().contains_key(id),
            final(self).tasks().remove(id) == old(self).tasks(),
            final(self).tasks()[id]@ == (TaskView {
                id,
                title: title@,
                desc: desc@,
                tags: task_tags(title@, desc@),
                priority: resolved_priority(priority),
                status: Status::NotStarted,
            }),
            final(self).order() == old(self).order().insert(
                insertion_point(
                    old(self).tasks(),
                    old(self).order(),
                    resolved_priority(priority),
                    id,
                ) as int,
                id,
            ),
            final(self).recorded_max_id() == id,
            final(self).recorded_count() == old(self).recorded_count() + 1,
    {
        let id: usize = self.max_id + 1;
        let task = Task::new(id, title, desc, priority);
        let ghost before = self.tasks();
        let _ = self.insert(task);
        assert(self.tasks().remove(id) == before);
        id
    }

    /// Starts the stored task with this id; the other tasks stay as they are.
    pub fn start(&mut self, id: usize) -> (result: Result<(), StoreError>)
        requires
            old(self).wf(),
        ensures
            final(self).wf(),
            final(self).order() == old(self).order(),
            final(self).recorded_count() == old(self).recorded_count(),
            final(self).recorded_max_id() == old(self).recorded_max_id(),
            !old(self).tasks().contains_key(id) ==> result == Err::<(), StoreError>(
                StoreError::NotFound,
            ) && final(self).tasks() == old(self).tasks(),
            old(self).tasks().contains_key(id) ==> match after_start(old(self).tasks()[id]@) {
                Ok(moved) => {
                    &&& result == Ok::<(), StoreError>(())
                    &&& final(self).tasks().dom() == old(self).tasks().dom()
                    &&& final(self).tasks().remove(id) == old(self).tasks().remove(id)
                    &&& final(self).tasks()[id]@ == moved
                },
                Err(reason) => result == Err::<(), StoreError>(
                    StoreError::InvalidTransition(reason),
                ) && final(self).tasks() == old(self).tasks(),
            },
    {
        if !self.task_list.contains_key(&id) {
            return Err(StoreError::NotFound);
        }
        let task = self.get_mut(&id);
        let moved = task.start();
        assert(self.tasks().dom() == old(self).tasks().dom());
        assert(self.tasks().remove(id) == old(self).tasks().remove(id));
        match moved {
            Ok(()) => Ok(()),
            Err(reason) => {
                assert(self.tasks() == old(self).tasks());
                Err(StoreError::InvalidTransition(reason))
            },
        }
    }

    /// Completes the stored task with this id; the other tasks stay as they are.
    pub fn complete(&mut self, id: usize) -> (result: Result<(), StoreError>)
        requires
            old(self).wf(),
        ensures
            final(self).wf(),
            final(self).order() == old(self).order(),
            final(self).recorded_count() == old(self).recorded_count(),
            final(self).recorded_max_id() == old(self).recorded_max_id(),
            !old(self).tasks().contains_key(id) ==> result == Err::<(), StoreError>(
                StoreError::NotFound,
            ) && final(self).tasks() == old(self).tasks(),
            old(self).tasks().contains_key(id) ==> match after_complete(old(self).tasks()[id]@) {
                Ok(moved) => {
                    &&& result == Ok::<(), StoreError>(())
                    &&& final(self).tasks().dom() == old(self).tasks().dom()
                    &&& final(self).tasks().remove(id) == old(self).tasks().remove(id)
                    &&& final(self).tasks()[id]@ == moved
                },
                Err(reason) => result == Err::<(), StoreError>(
                    StoreError::InvalidTransition(reason),
                ) && final(self).tasks() == old(self).tasks(),
            },
    {
        if !self.task_list.contains_key(&id) {
            return Err(StoreError::NotFound);
        }
        let task = self.get_mut(&id);
        let moved = task.complete();
        assert(self.tasks().dom() == old(self).tasks().dom());
        assert(self.tasks().remove(id) == old(self).tasks().remove(id));
        match moved {
            Ok(()) => Ok(()),
            Err(reason) => {
                assert(self.tasks() == old(self).tasks());
                Err(StoreError::InvalidTransition(reason))
            },
        }
    }

    /// The ids of the tasks that a listing with these filters shows, by
    /// descending priority and, among equal priorities, ascending id.
    pub fn list(&self, all: bool, done: bool, started: bool) -> (ids: Vec<usize>)
        requires
            self.wf(),
        ensures
            ids@ == visible(self.tasks(), self.order(), all, done, started),
    {
        let mut ids: Vec<usize> = Vec::new();
        let mut i: usize = 0;
        assert(self.order().take(0) == Seq::<usize>::empty());
        while i < self.order.len()
            invariant
                self.wf(),
                i <= self.order().len(),
                ids@ == visible(self.tasks(), self.order().take(i as int), all, done, started),
            decreases self.order().len() - i,
        {
            let id: usize = self.order[i];
            proof {
                let upto = self.order().take(i + 1);
                assert(upto.drop_last() == self.order().take(i as int));
                assert(upto.last() == id);
                assert(self.order().contains(id));
            }
            match self.task_list.get(&id) {
                Some(task) => {
                    let status = task.status();
                    let show = all || (done && status == Status::Completed) || (started && status
                        == Status::InProgress) || (!done && !started && status
                        == Status::NotStarted);
                    if show {
                        ids.push(id);
                    }
                },
                None => {},
            }
            i = i + 1;
        }
        assert(self.order().take(self.order().len() as int) == self.order());
        ids
    }

    /// The listing as it is shown: the tasks that the filters select, in
    /// the order of the listing, with their descriptions if `verbose`. The
    /// ids stand to the right of a column that is one character wider than
    /// the highest id.
    pub fn render(&self, all: bool, done: bool, started: bool, verbose: bool) -> (out: String)
        requires
            self.wf(),
        ensures
            is_listing_text(
                out@,
                self.tasks(),
                visible(self.tasks(), self.order(), all, done, started),
                (decimal_digits(self.recorded_max_id() as nat) + 1) as int,
                verbose,
            ),
    {
        let ids = self.list(all, done, started);
        proof {
            lemma_decimal_digits_small(self.max_id as nat);
        }
        let width: usize = self.max_id.number_of_digits() + 1;
        let mut parts: Vec<String> = Vec::new();
        let mut i: usize = 0;
        while i < ids.len()
            invariant
                self.wf(),
                ids@ == visible(self.tasks(), self.order(), all, done, started),
                i <= ids.len(),
                parts.len() == i,
                forall|k: int|
                    0 <= k < i ==> is_rendering(
                        #[trigger] parts.deep_view()[k],
                        self.tasks()[ids@[k]]@,
                        width as int,
                        verbose,
                    ),
            decreases ids.len() - i,
        {
            let id: usize = ids[i];
            proof {
                assert(ids@.contains(id));
                lemma_listed_iff(self, all, done, started, id);
            }
            let part = match self.task_list.get(&id) {
                Some(task) => task.render(width, verbose),
                None => String::new(),
            };
            let ghost before = parts.deep_view();
            parts.push(part);
            assert(parts.deep_view() == before.push(part@));
            i = i + 1;
        }
        let out = write_listing(&parts);
        assert(out@ == listing_text(parts.deep_view()));
        out
    }

    /// The task with this id, if it is stored.
    pub fn get(&self, id: usize) -> (task: Option<&Task>)
        ensures
            match task {
                Some(task) => self.tasks().contains_key(id) && *task == self.tasks()[id],
                None => !self.tasks().contains_key(id),
            },
    {
        self.task_list.get(&id)
    }
}

/// In a listing the ids stand in one column: set to the right of a field
/// one character wider than the highest id, the id of every stored task
/// takes exactly that width and stands at its end.
pub proof fn law_labels_align(list: &TaskList, id: usize)
    requires
        list.wf(),
        list.tasks().contains_key(id),
    ensures
        padded(
            id_label(id),
            (decimal_digits(list.recorded_max_id() as nat) + 1) as int,
        ).len() == decimal_digits(list.recorded_max_id() as nat) + 1,
        id_label(id).is_suffix_of(
            padded(id_label(id), (decimal_digits(list.recorded_max_id() as nat) + 1) as int),
        ),
{
    law_decimal_len(id as nat);
    lemma_decimal_digits_grow(id as nat, list.recorded_max_id() as nat);
}

/// A store comes back from its document: where the entries of a document,
/// in whatever order, hold one valid record for each task of a store, each
/// under the id of its task and with the parts of its task, they make a
/// document, and a store that holds what they describe has the tasks of the
/// first store, with every part as it was, lists them in the same order and
/// records the same count and the same highest id.
pub proof fn law_round_trip(
    saved: &TaskList,
    entries: Seq<(usize, TaskRecord)>,
    loaded: &TaskList,
)
    requires
        saved.wf(),
        keys_of(entries).no_duplicates(),
        forall|id: usize| saved.tasks().contains_key(id) <==> keys_of(entries).contains(id),
        forall|i: int|
            0 <= i < entries.len() ==> (#[trigger] entries[i]).1.task_view()
                == saved.tasks()[entries[i].0]@ && entries[i].1.is_valid(),
        loaded.wf(),
        holds_records(loaded.tasks(), entries),
    ensures
        is_document(entries),
        loaded.tasks().dom() == saved.tasks().dom(),
        forall|id: usize| #[trigger]
            saved.tasks().contains_key(id) ==> loaded.tasks()[id]@ == saved.tasks()[id]@,
        loaded.order() == saved.order(),
        loaded.recorded_count() == saved.recorded_count(),
        loaded.recorded_max_id() == saved.recorded_max_id(),
{
    let keys = keys_of(entries);
    assert forall|i: int| 0 <= i < entries.len() implies (#[trigger] entries[i]).0
        == entries[i].1.id by {
        assert(keys[i] == entries[i].0);
        assert(keys.contains(entries[i].0));
        assert(saved.tasks().contains_key(entries[i].0));
    }
    assert(loaded.tasks().dom() =~= saved.tasks().dom()) by {
        assert forall|id: usize| loaded.tasks().dom().contains(id) <==> saved.tasks().dom().contains(
            id,
        ) by {
            assert(loaded.tasks().contains_key(id) <==> keys.contains(id));
            assert(saved.tasks().contains_key(id) <==> keys.contains(id));
        }
    }
    assert forall|id: usize| #[trigger] saved.tasks().contains_key(id) implies loaded.tasks()[id]@
        == saved.tasks()[id]@ by {
        assert(keys.contains(id));
        let i = choose|i: int| 0 <= i < keys.len() && keys[i] == id;
        assert(entries[i].0 == id);
    }
    assert forall|id: usize| #[trigger] loaded.tasks().contains_key(id) implies loaded.tasks()[id]@.priority
        == saved.tasks()[id]@.priority by {
        assert(saved.tasks().contains_key(id));
    }
    law_store_determined(loaded, saved);
}

/// A store is determined by its tasks: two stores that hold tasks of the
/// same ids and priorities list them in the same order and record the same
/// count and the same highest id. So a store that is built anew from the
/// tasks of another is equivalent to it.
pub proof fn law_store_determined(list: &TaskList, other: &TaskList)
    requires
        list.wf(),
        other.wf(),
        list.tasks().dom() == other.tasks().dom(),
        forall|id: usize| #[trigger]
            list.tasks().contains_key(id) ==> list.tasks()[id]@.priority
                == other.tasks()[id]@.priority,
    ensures
        list.order() == other.order(),
        list.recorded_count() == other.recorded_count(),
        list.recorded_max_id() == other.recorded_max_id(),
{
    let dom = list.tasks().dom();
    list.order().unique_seq_to_set();
    other.order().unique_seq_to_set();
    assert(list.order().to_set() =~= dom) by {
        assert forall|id: usize| list.order().to_set().contains(id) <==> dom.contains(id) by {
            assert(list.order().contains(id) <==> list.tasks().contains_key(id));
        }
    }
    assert(other.order().to_set() =~= dom) by {
        assert forall|id: usize| other.order().to_set().contains(id) <==> dom.contains(id) by {
            assert(other.order().contains(id) <==> other.tasks().contains_key(id));
        }
    }
    lemma_same_listing_upto(
        list.tasks(),
        list.order(),
        other.tasks(),
        other.order(),
        list.order().len() as int,
    );
    assert(list.order() =~= other.order());
    let a = list.recorded_max_id();
    let b = other.recorded_max_id();
    if a != b {
        if dom.contains(a) {
            assert(a <= b);
        }
        if dom.contains(b) {
            assert(b <= a);
        }
    }
}

/// In every listing a task of higher priority comes before one of lower
/// priority, whatever their ids.
pub proof fn law_higher_priority_first(
    list: &TaskList,
    all: bool,
    done: bool,
    started: bool,
    high: usize,
    low: usize,
)
    requires
        list.wf(),
        visible(list.tasks(), list.order(), all, done, started).contains(high),
        visible(list.tasks(), list.order(), all, done, started).contains(low),
        list.tasks()[high]@.priority > list.tasks()[low]@.priority,
    ensures
        visible(list.tasks(), list.order(), all, done, started).index_of(high) < visible(
            list.tasks(),
            list.order(),
            all,
            done,
            started,
        ).index_of(low),
{
    lemma_listed_before(list, all, done, started, high, low);
}

/// In every listing, of two tasks of equal priority the one with the lower
/// id comes first.
pub proof fn law_lower_id_first(
    list: &TaskList,
    all: bool,
    done: bool,
    started: bool,
    first: usize,
    second: usize,
)
    requires
        list.wf(),
        visible(list.tasks(), list.order(), all, done, started).contains(first),
        visible(list.tasks(), list.order(), all, done, started).contains(second),
        list.tasks()[first]@.priority == list.tasks()[second]@.priority,
        first < second,
    ensures
        visible(list.tasks(), list.order(), all, done, started).index_of(first) < visible(
            list.tasks(),
            list.order(),
            all,
            done,
            started,
        ).index_of(second),
{
    lemma_listed_before(list, all, done, started, first, second);
}

/// Of two listed tasks, the one that `lists_before` puts first has the
/// smaller position in the listing.
pub proof fn lemma_listed_before(
    list: &TaskList,
    all: bool,
    done: bool,
    started: bool,
    first: usize,
    second: usize,
)
    requires
        list.wf(),
        visible(list.tasks(), list.order(), all, done, started).contains(first),
        visible(list.tasks(), list.order(), all, done, started).contains(second),
        lists_before(
            list.tasks()[first]@.priority,
            first,
            list.tasks()[second]@.priority,
            second,
        ),
    ensures
        visible(list.tasks(), list.order(), all, done, started).index_of(first) < visible(
            list.tasks(),
            list.order(),
            all,
            done,
            started,
        ).index_of(second),
{
    let listing = visible(list.tasks(), list.order(), all, done, started);
    lemma_visible(list.tasks(), list.order(), all, done, started);
    let i = listing.index_of(first);
    let j = listing.index_of(second);
    assert(0 <= i < listing.len() && listing[i] == first);
    assert(0 <= j < listing.len() && listing[j] == second);
    if j < i {
        assert(lists_before(
            list.tasks()[listing[j]]@.priority,
            listing[j],
            list.tasks()[listing[i]]@.priority,
            listing[i],
        ));
    }
}

/// A stored task is in a listing exactly when the listing's filters select it.
pub proof fn lemma_listed_iff(list: &TaskList, all: bool, done: bool, started: bool, id: usize)
    requires
        list.wf(),
    ensures
        visible(list.tasks(), list.order(), all, done, started).contains(id)
            <==> list.tasks().contains_key(id) && shown(
            list.tasks()[id]@.status,
            all,
            done,
            started,
        ),
{
    lemma_visible(list.tasks(), list.order(), all, done, started);
    assert(list.order().contains(id) <==> list.tasks().contains_key(id));
}

/// A listing shows each of its tasks once, and exactly the stored tasks
/// that its filters select.
pub proof fn law_listing_selects(list: &TaskList, all: bool, done: bool, started: bool)
    requires
        list.wf(),
    ensures
        visible(list.tasks(), list.order(), all, done, started).no_duplicates(),
        forall|id: usize|
            visible(list.tasks(), list.order(), all, done, started).contains(id)
                <==> list.tasks().contains_key(id) && shown(
                list.tasks()[id]@.status,
                all,
                done,
                started,
            ),
{
    let listing = visible(list.tasks(), list.order(), all, done, started);
    lemma_visible(list.tasks(), list.order(), all, done, started);
    assert forall|id: usize|
        listing.contains(id) <==> list.tasks().contains_key(id) && shown(
            list.tasks()[id]@.status,
            all,
            done,
            started,
        ) by {
        lemma_listed_iff(list, all, done, started, id);
    }
    assert forall|i: int, j: int| 0 <= i < j < listing.len() implies listing[i] != listing[j] by {
        assert(lists_before(
            list.tasks()[listing[i]]@.priority,
            listing[i],
            list.tasks()[listing[j]]@.priority,
            listing[j],
        ));
    }
}

/// A listing without any filter shows exactly the tasks that have not been
/// started: neither those in progress nor the completed ones.
pub proof fn law_default_listing(list: &TaskList)
    requires
        list.wf(),
    ensures
        forall|id: usize|
            visible(list.tasks(), list.order(), false, false, false).contains(id)
                <==> list.tasks().contains_key(id) && list.tasks()[id]@.status
                == Status::NotStarted,
{
    let listing = visible(list.tasks(), list.order(), false, false, false);
    assert forall|id: usize|
        listing.contains(id) <==> list.tasks().contains_key(id) && list.tasks()[id]@.status
            == Status::NotStarted by {
        lemma_listed_iff(list, false, false, false, id);
    }
}

} // verus!

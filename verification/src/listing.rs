//! The order of a listing: by descending priority and, among equal
//! priorities, by ascending id.

use crate::task::{lists_before, Status, Task};
use vstd::prelude::*;

verus! {

/// Whether each task of `order` comes before those that `lists_before` puts
/// after it.
pub open spec fn in_order(tasks: Map<usize, Task>, order: Seq<usize>) -> bool {
    forall|i: int, j: int|
        0 <= i < j < order.len() ==> lists_before(
            tasks[#[trigger] order[i]]@.priority,
            order[i],
            tasks[#[trigger] order[j]]@.priority,
            order[j],
        )
}

/// Whether `order` lists every task of `tasks` once, and in order.
pub open spec fn is_listing(tasks: Map<usize, Task>, order: Seq<usize>) -> bool {
    &&& order.no_duplicates()
    &&& forall|id: usize| order.contains(id) <==> tasks.contains_key(id)
    &&& in_order(tasks, order)
}

/// The first position of `order` whose task is not listed before a task
/// with the given priority and id: the place where such a task belongs.
pub open spec fn insertion_point(
    tasks: Map<usize, Task>,
    order: Seq<usize>,
    priority: u8,
    id: usize,
) -> nat
    decreases order.len(),
{
    if order.len() == 0 || !lists_before(tasks[order[0]]@.priority, order[0], priority, id) {
        0
    } else {
        1 + insertion_point(tasks, order.skip(1), priority, id)
    }
}

/// A position is the insertion point when every task ahead of it is listed
/// before the new one and the task at it, if any, is not.
pub proof fn lemma_insertion_point_is(
    tasks: Map<usize, Task>,
    order: Seq<usize>,
    priority: u8,
    id: usize,
    pos: int,
)
    requires
        0 <= pos <= order.len(),
        forall|k: int|
            0 <= k < pos ==> lists_before(tasks[#[trigger] order[k]]@.priority, order[k], priority, id),
        pos < order.len() ==> !lists_before(tasks[order[pos]]@.priority, order[pos], priority, id),
    ensures
        insertion_point(tasks, order, priority, id) == pos,
    decreases order.len(),
{
    if pos > 0 {
        assert(lists_before(tasks[order[0]]@.priority, order[0], priority, id));
        let rest = order.skip(1);
        assert forall|k: int| 0 <= k < pos - 1 implies lists_before(
            tasks[#[trigger] rest[k]]@.priority,
            rest[k],
            priority,
            id,
        ) by {
            assert(rest[k] == order[k + 1]);
        }
        lemma_insertion_point_is(tasks, rest, priority, id, pos - 1);
    }
}

/// Putting a new task at its insertion point keeps the listing in order.
pub proof fn lemma_insert_keeps_listing(
    tasks: Map<usize, Task>,
    order: Seq<usize>,
    task: Task,
    pos: int,
)
    requires
        is_listing(tasks, order),
        !tasks.contains_key(task@.id),
        0 <= pos <= order.len(),
        forall|k: int|
            0 <= k < pos ==> lists_before(
                tasks[#[trigger] order[k]]@.priority,
                order[k],
                task@.priority,
                task@.id,
            ),
        pos < order.len() ==> !lists_before(
            tasks[order[pos]]@.priority,
            order[pos],
            task@.priority,
            task@.id,
        ),
    ensures
        is_listing(tasks.insert(task@.id, task), order.insert(pos, task@.id)),
{
    let id = task@.id;
    let tasks2 = tasks.insert(id, task);
    let order2 = order.insert(pos, id);
    assert(!order.contains(id));
    assert forall|i: int, j: int| 0 <= i < j < order2.len() implies order2[i] != order2[j] by {
        if i != pos && j != pos {
            let oi = if i < pos { i } else { i - 1 };
            let oj = if j < pos { j } else { j - 1 };
            assert(order2[i] == order[oi]);
            assert(order2[j] == order[oj]);
        } else if i == pos {
            assert(order2[j] == order[j - 1]);
        } else {
            assert(order2[i] == order[i]);
        }
    }
    assert forall|x: usize| order2.contains(x) <==> tasks2.contains_key(x) by {
        if order2.contains(x) {
            let i = choose|i: int| 0 <= i < order2.len() && order2[i] == x;
            if i < pos {
                assert(order[i] == x);
                assert(order.contains(x));
            } else if i > pos {
                assert(order[i - 1] == x);
                assert(order.contains(x));
            }
            assert(tasks2.contains_key(x));
        }
        if tasks2.contains_key(x) {
            if x == id {
                assert(order2[pos] == x);
            } else {
                assert(tasks.contains_key(x));
                assert(order.contains(x));
                let i = choose|i: int| 0 <= i < order.len() && order[i] == x;
                if i < pos {
                    assert(order2[i] == x);
                } else {
                    assert(order2[i + 1] == x);
                }
            }
            assert(order2.contains(x));
        }
    }
    assert forall|i: int, j: int| 0 <= i < j < order2.len() implies lists_before(
        tasks2[#[trigger] order2[i]]@.priority,
        order2[i],
        tasks2[#[trigger] order2[j]]@.priority,
        order2[j],
    ) by {
        let oi = if i < pos { i } else { i - 1 };
        let oj = if j < pos { j } else { j - 1 };
        if i != pos {
            assert(order2[i] == order[oi]);
            assert(order.contains(order[oi]));
        }
        if j != pos {
            assert(order2[j] == order[oj]);
            assert(order.contains(order[oj]));
        }
        if i == pos {
            assert(order.contains(order[pos]));
            if oj > pos {
                assert(lists_before(
                    tasks[order[pos]]@.priority,
                    order[pos],
                    tasks[order[oj]]@.priority,
                    order[oj],
                ));
            }
        }
    }
}

/// Taking a task out of the listing keeps the rest in order.
pub proof fn lemma_remove_keeps_listing(tasks: Map<usize, Task>, order: Seq<usize>, pos: int)
    requires
        is_listing(tasks, order),
        0 <= pos < order.len(),
    ensures
        is_listing(tasks.remove(order[pos]), order.remove(pos)),
{
    let id = order[pos];
    let tasks2 = tasks.remove(id);
    let order2 = order.remove(pos);
    assert forall|i: int| 0 <= i < order2.len() implies order2[i] == order[if i < pos {
        i
    } else {
        i + 1
    }] by {}
    assert forall|i: int, j: int| 0 <= i < j < order2.len() implies order2[i] != order2[j] by {}
    assert forall|x: usize| order2.contains(x) <==> tasks2.contains_key(x) by {
        if order2.contains(x) {
            let i = choose|i: int| 0 <= i < order2.len() && order2[i] == x;
            let oi = if i < pos { i } else { i + 1 };
            assert(order[oi] == x);
            assert(order.contains(x));
            assert(tasks2.contains_key(x));
        }
        if tasks2.contains_key(x) {
            assert(tasks.contains_key(x));
            assert(order.contains(x));
            let i = choose|i: int| 0 <= i < order.len() && order[i] == x;
            if i < pos {
                assert(order2[i] == x);
            } else {
                assert(order2[i - 1] == x);
            }
            assert(order2.contains(x));
        }
    }
    assert forall|i: int, j: int| 0 <= i < j < order2.len() implies lists_before(
        tasks2[#[trigger] order2[i]]@.priority,
        order2[i],
        tasks2[#[trigger] order2[j]]@.priority,
        order2[j],
    ) by {
        let oi = if i < pos { i } else { i + 1 };
        let oj = if j < pos { j } else { j + 1 };
        assert(order2[i] == order[oi]);
        assert(order2[j] == order[oj]);
    }
}

/// Whether a task in this state is shown by a listing with these filters:
/// `all` shows every task, `done` the completed ones, `started` those in
/// progress, and a listing without any filter those not yet started.
pub open spec fn shown(status: Status, all: bool, done: bool, started: bool) -> bool {
    ||| all
    ||| (done && status == Status::Completed)
    ||| (started && status == Status::InProgress)
    ||| (!done && !started && status == Status::NotStarted)
}

/// The ids of `order` whose tasks a listing with these filters shows, in the
/// same order.
pub open spec fn visible(
    tasks: Map<usize, Task>,
    order: Seq<usize>,
    all: bool,
    done: bool,
    started: bool,
) -> Seq<usize>
    decreases order.len(),
{
    if order.len() == 0 {
        Seq::empty()
    } else {
        let earlier = visible(tasks, order.drop_last(), all, done, started);
        if shown(tasks[order.last()]@.status, all, done, started) {
            earlier.push(order.last())
        } else {
            earlier
        }
    }
}

/// What `visible` keeps: exactly the ids of `order` whose tasks are shown,
/// and any two of them in the order that `lists_before` gives.
pub proof fn lemma_visible(
    tasks: Map<usize, Task>,
    order: Seq<usize>,
    all: bool,
    done: bool,
    started: bool,
)
    requires
        in_order(tasks, order),
    ensures
        forall|id: usize|
            visible(tasks, order, all, done, started).contains(id) <==> order.contains(id) && shown(
                tasks[id]@.status,
                all,
                done,
                started,
            ),
        in_order(tasks, visible(tasks, order, all, done, started)),
    decreases order.len(),
{
    let shown_ids = visible(tasks, order, all, done, started);
    if order.len() > 0 {
        let front = order.drop_last();
        let last = order.last();
        let earlier = visible(tasks, front, all, done, started);
        assert(in_order(tasks, front)) by {
            assert forall|i: int, j: int| 0 <= i < j < front.len() implies lists_before(
                tasks[#[trigger] front[i]]@.priority,
                front[i],
                tasks[#[trigger] front[j]]@.priority,
                front[j],
            ) by {
                assert(front[i] == order[i] && front[j] == order[j]);
            }
        }
        lemma_visible(tasks, front, all, done, started);
        assert forall|id: usize|
            shown_ids.contains(id) <==> order.contains(id) && shown(
                tasks[id]@.status,
                all,
                done,
                started,
            ) by {
            if shown_ids.contains(id) {
                let k = choose|k: int| 0 <= k < shown_ids.len() && shown_ids[k] == id;
                if k < earlier.len() {
                    assert(earlier[k] == id);
                    assert(earlier.contains(id));
                    assert(front.contains(id));
                    let f = choose|f: int| 0 <= f < front.len() && front[f] == id;
                    assert(order[f] == id);
                } else {
                    assert(order[order.len() - 1] == id);
                }
            }
            if order.contains(id) && shown(tasks[id]@.status, all, done, started) {
                let k = choose|k: int| 0 <= k < order.len() && order[k] == id;
                if k == order.len() - 1 {
                    assert(shown_ids[shown_ids.len() - 1] == id);
                } else {
                    assert(front[k] == id);
                    assert(front.contains(id));
                    assert(earlier.contains(id));
                    let e = choose|e: int| 0 <= e < earlier.len() && earlier[e] == id;
                    assert(shown_ids[e] == id);
                }
            }
        }
        assert forall|i: int, j: int| 0 <= i < j < shown_ids.len() implies lists_before(
            tasks[#[trigger] shown_ids[i]]@.priority,
            shown_ids[i],
            tasks[#[trigger] shown_ids[j]]@.priority,
            shown_ids[j],
        ) by {
            assert(earlier[i] == shown_ids[i]);
            if j < earlier.len() {
                assert(earlier[j] == shown_ids[j]);
            } else {
                assert(earlier.contains(earlier[i]));
                assert(front.contains(earlier[i]));
                let f = choose|f: int| 0 <= f < front.len() && front[f] == earlier[i];
                assert(order[f] == earlier[i]);
                assert(order[order.len() - 1] == last);
            }
        }
    }
}

/// Two listings of the same ids with the same priorities agree up to any
/// position.
pub proof fn lemma_same_listing_upto(
    tasks: Map<usize, Task>,
    order: Seq<usize>,
    others: Map<usize, Task>,
    other_order: Seq<usize>,
    upto: int,
)
    requires
        is_listing(tasks, order),
        is_listing(others, other_order),
        tasks.dom() == others.dom(),
        forall|id: usize| #[trigger]
            tasks.contains_key(id) ==> tasks[id]@.priority == others[id]@.priority,
        order.len() == other_order.len(),
        0 <= upto <= order.len(),
    ensures
        forall|k: int| 0 <= k < upto ==> order[k] == other_order[k],
    decreases upto,
{
    if upto > 0 {
        let i = upto - 1;
        lemma_same_listing_upto(tasks, order, others, other_order, i);
        let x = order[i];
        let y = other_order[i];
        if x != y {
            assert(order.contains(x));
            assert(tasks.contains_key(x));
            assert(others.contains_key(x));
            assert(other_order.contains(x));
            let k = choose|k: int| 0 <= k < other_order.len() && other_order[k] == x;
            if k < i {
                assert(order[k] == x);
            }
            assert(other_order.contains(y));
            assert(others.contains_key(y));
            assert(tasks.contains_key(y));
            assert(order.contains(y));
            let m = choose|m: int| 0 <= m < order.len() && order[m] == y;
            if m < i {
                assert(other_order[m] == y);
            }
            assert(lists_before(
                others[other_order[i]]@.priority,
                other_order[i],
                others[other_order[k]]@.priority,
                other_order[k],
            ));
            assert(lists_before(
                tasks[order[i]]@.priority,
                order[i],
                tasks[order[m]]@.priority,
                order[m],
            ));
        }
    }
}

} // verus!

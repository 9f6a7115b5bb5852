//! What holds of a store's value under its transitions.
use vstd::prelude::*;
use crate::clock::Instant;
use crate::storage::StoreView;
use crate::storage::lemma_position;
use crate::task::TaskView;
use crate::task::lemma_transitions_keep_identity;
use crate::task::lemma_with_tags_keeps_rest;

verus! {

/// A step in the life of a store: adding a task, deleting an id,
/// replacing a task by one of its id, or completing a task.
pub enum StoreOp {
    Add(TaskView),
    Delete(nat),
    Update(TaskView),
    Complete(nat, Instant),
}

impl StoreView {
    /// The store after one step.
    pub open spec fn apply(self, op: StoreOp) -> StoreView {
        match op {
            StoreOp::Add(task) => self.added(task),
            StoreOp::Delete(id) => self.deleted(id),
            StoreOp::Update(task) => self.updated(task),
            StoreOp::Complete(id, now) => self.completed(id, now),
        }
    }

    /// The store after the steps of `ops` in turn.
    pub open spec fn run(self, ops: Seq<StoreOp>) -> StoreView
        decreases ops.len(),
    {
        if ops.len() == 0 {
            self
        } else {
            self.run(ops.drop_last()).apply(ops.last())
        }
    }

    /// Whether every task of the store is well formed.
    pub open spec fn tasks_wf(self) -> bool {
        forall|i: int| 0 <= i < self.tasks.len() ==> (#[trigger] self.tasks[i]).wf()
    }

    /// The ids that the additions among `ops` were given, in their order.
    pub open spec fn assigned(self, ops: Seq<StoreOp>) -> Seq<nat>
        decreases ops.len(),
    {
        if ops.len() == 0 {
            Seq::empty()
        } else {
            let earlier = self.assigned(ops.drop_last());
            match ops.last() {
                StoreOp::Add(_) => earlier.push(self.run(ops.drop_last()).next_id),
                _ => earlier,
            }
        }
    }
}

/// The empty store is well formed.
pub proof fn lemma_fresh()
    ensures
        StoreView::fresh().wf(),
        StoreView::fresh().ids_distinct(),
        StoreView::fresh().tasks.len() == 0,
{
}

/// What is kept by a filter was there before, in the same order.
proof fn lemma_filter_origin(s: Seq<TaskView>, keep: spec_fn(TaskView) -> bool, k: int) -> (i: int)
    requires
        0 <= k < s.filter(keep).len(),
    ensures
        0 <= i < s.len(),
        s[i] == s.filter(keep)[k],
        keep(s[i]),
        s.take(i).filter(keep).len() == k,
    decreases s.len(),
{
    reveal(Seq::filter);
    let rest = s.drop_last();
    if keep(s.last()) && k == rest.filter(keep).len() {
        assert(s.take(s.len() - 1) =~= rest);
        s.len() - 1
    } else {
        let i = lemma_filter_origin(rest, keep, k);
        assert(rest.take(i) =~= s.take(i));
        i
    }
}

/// What a filter keeps comes in the order it had: a later kept element
/// stood later.
proof fn lemma_filter_order(s: Seq<TaskView>, keep: spec_fn(TaskView) -> bool, i: int, j: int)
    requires
        0 <= i <= j <= s.len(),
    ensures
        s.take(i).filter(keep).len() <= s.take(j).filter(keep).len(),
        i < j && keep(s[i]) ==> s.take(i).filter(keep).len() < s.take(j).filter(keep).len(),
    decreases j - i,
{
    if i < j {
        assert(s.take(j) =~= s.take(j - 1).push(s[j - 1]));
        s.take(j - 1).lemma_filter_push(s[j - 1], keep);
        lemma_filter_order(s, keep, i, j - 1);
    }
}

/// An element that passes the filter is kept, after the kept ones among
/// those before it.
proof fn lemma_filter_keeps(s: Seq<TaskView>, keep: spec_fn(TaskView) -> bool, i: int)
    requires
        0 <= i < s.len(),
        keep(s[i]),
    ensures
        s.take(i).filter(keep).len() < s.filter(keep).len(),
        s.filter(keep)[s.take(i).filter(keep).len() as int] == s[i],
    decreases s.len(),
{
    reveal(Seq::filter);
    let rest = s.drop_last();
    if i == s.len() - 1 {
        assert(s.take(i) =~= rest);
    } else {
        lemma_filter_keeps(rest, keep, i);
        assert(rest.take(i) =~= s.take(i));
    }
}

/// Adding a task to a well-formed store gives the task an id that no task
/// of the store has, and leaves the store well formed.
pub proof fn lemma_added(s: StoreView, task: TaskView)
    requires
        s.wf(),
    ensures
        s.added(task).wf(),
        s.added(task).next_id == s.next_id + 1,
        !s.has_id(s.next_id),
        s.added(task).find(s.next_id) == Some(task.with_id(s.next_id)),
        forall|id: nat| id != s.next_id ==> #[trigger] s.added(task).find(id) == s.find(id),
        s.ids_distinct() ==> s.added(task).ids_distinct(),
{
    let after = s.added(task);
    let last = s.tasks.len() as int;
    assert(after.tasks[last] == task.with_id(s.next_id));
    assert(after.is_first(s.next_id, last));
    lemma_position(after, s.next_id, last);
    assert forall|id: nat| id != s.next_id implies #[trigger] after.find(id) == s.find(id) by {
        lemma_position(s, id, 0);
        lemma_position(after, id, 0);
        match s.position(id) {
            Some(i) => {
                lemma_position(s, id, i);
                assert(after.tasks[i] == s.tasks[i]);
                assert forall|j: int| 0 <= j < i implies (#[trigger] after.tasks[j]).id != id by {
                    assert(after.tasks[j] == s.tasks[j]);
                }
                assert(after.is_first(id, i));
                lemma_position(after, id, i);
            },
            None => {
                if after.has_id(id) {
                    let j = choose|j: int| 0 <= j < after.tasks.len() && (#[trigger] after.tasks[j]).id == id;
                    assert(j < last);
                    assert(s.tasks[j] == after.tasks[j]);
                    assert(s.has_id(id));
                }
            },
        }
    }
}

/// Deleting an id leaves no task with it, keeps every other task in its
/// place among the others, and leaves the next id alone.
pub proof fn lemma_deleted(s: StoreView, id: nat)
    ensures
        !s.deleted(id).has_id(id),
        s.deleted(id).find(id).is_none(),
        s.deleted(id).next_id == s.next_id,
        s.deleted(id).tasks.len() <= s.tasks.len(),
        forall|other: nat| other != id ==> #[trigger] s.deleted(id).find(other) == s.find(other),
        !s.has_id(id) ==> s.deleted(id) == s,
        s.has_id(id) ==> s.deleted(id).tasks.len() < s.tasks.len(),
        s.wf() ==> s.deleted(id).wf(),
        s.ids_distinct() ==> s.deleted(id).ids_distinct(),
{
    let keep = |t: TaskView| t.id != id;
    let after = s.deleted(id);
    s.tasks.lemma_filter_len(keep);
    assert forall|k: int| 0 <= k < after.tasks.len() implies (#[trigger] after.tasks[k]).id != id by {
        let i = lemma_filter_origin(s.tasks, keep, k);
    }
    lemma_position(after, id, 0);
    assert forall|other: nat| other != id implies #[trigger] after.find(other) == s.find(other) by {
        lemma_position(s, other, 0);
        lemma_position(after, other, 0);
        match s.position(other) {
            Some(i) => {
                lemma_position(s, other, i);
                lemma_filter_keeps(s.tasks, keep, i);
                let k = s.tasks.take(i).filter(keep).len() as int;
                assert forall|m: int| 0 <= m < k implies (#[trigger] after.tasks[m]).id != other by {
                    let j = lemma_filter_origin(s.tasks, keep, m);
                    if j >= i {
                        lemma_filter_order(s.tasks, keep, i, j);
                    }
                }
                assert(after.is_first(other, k));
                lemma_position(after, other, k);
            },
            None => {
                if after.has_id(other) {
                    let k = choose|k: int| 0 <= k < after.tasks.len() && (#[trigger] after.tasks[k]).id == other;
                    let j = lemma_filter_origin(s.tasks, keep, k);
                    assert(s.tasks[j].id == other);
                }
            },
        }
    }
    if !s.has_id(id) {
        lemma_filter_all(s.tasks, keep);
    } else {
        let i = choose|i: int| 0 <= i < s.tasks.len() && (#[trigger] s.tasks[i]).id == id;
        lemma_filter_drops(s.tasks, keep, i);
    }
    if s.wf() {
        assert forall|k: int| 0 <= k < after.tasks.len() implies (#[trigger] after.tasks[k]).id < after.next_id by {
            let i = lemma_filter_origin(s.tasks, keep, k);
        }
    }
    if s.ids_distinct() {
        assert forall|a: int, b: int| 0 <= a < b < after.tasks.len() implies (#[trigger] after.tasks[a]).id != (#[trigger] after.tasks[b]).id by {
            let i = lemma_filter_origin(s.tasks, keep, a);
            let j = lemma_filter_origin(s.tasks, keep, b);
            if i == j {
                assert(false);
            } else if i < j {
                assert(s.tasks[i].id != s.tasks[j].id);
            } else {
                assert(s.tasks[j].id != s.tasks[i].id);
            }
        }
    }
}

/// A filter that every element passes changes nothing.
proof fn lemma_filter_all(s: Seq<TaskView>, keep: spec_fn(TaskView) -> bool)
    requires
        forall|i: int| 0 <= i < s.len() ==> keep(#[trigger] s[i]),
    ensures
        s.filter(keep) == s,
    decreases s.len(),
{
    reveal(Seq::filter);
    if s.len() > 0 {
        let rest = s.drop_last();
        assert forall|i: int| 0 <= i < rest.len() implies keep(#[trigger] rest[i]) by {
            assert(rest[i] == s[i]);
        }
        lemma_filter_all(rest, keep);
        assert(rest.push(s.last()) =~= s);
    }
}

/// A filter that an element fails keeps fewer elements than there were.
proof fn lemma_filter_drops(s: Seq<TaskView>, keep: spec_fn(TaskView) -> bool, i: int)
    requires
        0 <= i < s.len(),
        !keep(s[i]),
    ensures
        s.filter(keep).len() < s.len(),
    decreases s.len(),
{
    reveal(Seq::filter);
    let rest = s.drop_last();
    rest.lemma_filter_len(keep);
    if i < s.len() - 1 {
        lemma_filter_drops(rest, keep, i);
    }
}

/// A change to one task that keeps its id keeps every id in its place:
/// the changed task is found under its id, every other task as before, and
/// the store stays well formed.
pub proof fn lemma_modified(s: StoreView, id: nat, change: spec_fn(TaskView) -> TaskView)
    requires
        forall|t: TaskView| (#[trigger] change(t)).id == t.id,
    ensures
        s.modified(id, change).next_id == s.next_id,
        s.modified(id, change).tasks.len() == s.tasks.len(),
        s.modified(id, change).find(id) == match s.find(id) {
            Some(t) => Some(change(t)),
            None => None,
        },
        forall|other: nat| other != id ==> #[trigger] s.modified(id, change).find(other) == s.find(other),
        forall|other: nat| #[trigger] s.modified(id, change).has_id(other) == s.has_id(other),
        s.wf() ==> s.modified(id, change).wf(),
        s.ids_distinct() ==> s.modified(id, change).ids_distinct(),
{
    let after = s.modified(id, change);
    lemma_position(s, id, 0);
    assert forall|i: int| 0 <= i < s.tasks.len() implies (#[trigger] after.tasks[i]).id == s.tasks[i].id by {
        match s.position(id) {
            Some(p) => {
                lemma_position(s, id, p);
            },
            None => {},
        }
    }
    assert forall|other: nat| true implies (#[trigger] after.position(other)) == s.position(other) by {
        lemma_position(s, other, 0);
        lemma_position(after, other, 0);
        match s.position(other) {
            Some(i) => {
                lemma_position(s, other, i);
                assert(after.tasks[i].id == s.tasks[i].id);
                assert forall|j: int| 0 <= j < i implies (#[trigger] after.tasks[j]).id != other by {
                    assert(after.tasks[j].id == s.tasks[j].id);
                }
                assert(after.is_first(other, i));
                lemma_position(after, other, i);
            },
            None => {
                if after.has_id(other) {
                    let j = choose|j: int| 0 <= j < after.tasks.len() && (#[trigger] after.tasks[j]).id == other;
                    assert(s.tasks[j].id == other);
                }
            },
        }
    }
    assert forall|other: nat| true implies #[trigger] after.has_id(other) == s.has_id(other) by {
        lemma_position(s, other, 0);
        lemma_position(after, other, 0);
        assert(after.position(other) == s.position(other));
    }
    assert forall|other: nat| other != id implies #[trigger] after.find(other) == s.find(other) by {
        assert(after.position(other) == s.position(other));
        match s.position(other) {
            Some(i) => {
                lemma_position(s, other, i);
            },
            None => {},
        }
    }
    assert(after.position(id) == s.position(id));
    if s.ids_distinct() {
        assert forall|a: int, b: int| 0 <= a < b < after.tasks.len() implies (#[trigger] after.tasks[a]).id != (#[trigger] after.tasks[b]).id by {
            assert(after.tasks[a].id == s.tasks[a].id);
            assert(after.tasks[b].id == s.tasks[b].id);
        }
    }
    if s.wf() {
        assert forall|i: int| 0 <= i < after.tasks.len() implies (#[trigger] after.tasks[i]).id < after.next_id by {
            assert(after.tasks[i].id == s.tasks[i].id);
        }
    }
}

/// The store's transitions on one task keep every id, so they keep the
/// store well formed and its ids distinct, and leave the next id alone.
pub proof fn lemma_task_changes_keep_ids(
    s: StoreView,
    id: nat,
    now: Instant,
    minutes: int,
    tag: Seq<char>,
    title: Option<Seq<char>>,
    description: Option<Seq<char>>,
    tags: Seq<Seq<char>>,
)
    ensures
        s.completed(id, now).next_id == s.next_id,
        s.snoozed(id, now, minutes).next_id == s.next_id,
        s.scheduled(id, now).next_id == s.next_id,
        s.with_tag(id, tag).next_id == s.next_id,
        s.without_tag(id, tag).next_id == s.next_id,
        s.without_tags(id).next_id == s.next_id,
        s.edited(id, title, description, tags).next_id == s.next_id,
        s.wf() ==> s.completed(id, now).wf() && s.snoozed(id, now, minutes).wf() && s.scheduled(
            id,
            now,
        ).wf() && s.with_tag(id, tag).wf() && s.without_tag(id, tag).wf() && s.without_tags(id).wf()
            && s.edited(id, title, description, tags).wf(),
        s.ids_distinct() ==> s.completed(id, now).ids_distinct() && s.snoozed(
            id,
            now,
            minutes,
        ).ids_distinct() && s.scheduled(id, now).ids_distinct() && s.with_tag(id, tag).ids_distinct()
            && s.without_tag(id, tag).ids_distinct() && s.without_tags(id).ids_distinct()
            && s.edited(id, title, description, tags).ids_distinct(),
{
    lemma_modified(s, id, |t: TaskView| t.completed(now));
    lemma_modified(s, id, |t: TaskView| t.snoozed(now, minutes));
    lemma_modified(s, id, |t: TaskView| t.scheduled(now));
    lemma_modified(s, id, |t: TaskView| t.with_tag(tag));
    lemma_modified(s, id, |t: TaskView| t.without_tag(tag));
    lemma_modified(s, id, |t: TaskView| t.without_tags());
    assert forall|t: TaskView| (#[trigger] t.edited(title, description, tags)).id == t.id by {
        lemma_transitions_keep_identity(t, now, minutes, tag, title, description, tags);
    }
    lemma_modified(s, id, |t: TaskView| t.edited(title, description, tags));
}

/// Snoozing a stored task sets its deadline to the given minutes after
/// `now` and counts exactly one snooze more; nothing else of the task
/// changes, and no other task does.
pub proof fn lemma_snoozed_task(s: StoreView, id: nat, now: Instant, minutes: int)
    requires
        s.has_id(id),
    ensures
        s.find(id).is_some(),
        s.snoozed(id, now, minutes).find(id) == Some(s.find(id).unwrap().snoozed(now, minutes)),
        s.snoozed(id, now, minutes).find(id).unwrap().snoozed_until == Some(now.plus_minutes(minutes)),
        s.snoozed(id, now, minutes).find(id).unwrap().snooze_count == s.find(id).unwrap().snooze_count
            + 1,
        forall|other: nat| other != id ==> #[trigger] s.snoozed(id, now, minutes).find(other) == s.find(other),
{
    lemma_position(s, id, 0);
    lemma_modified(s, id, |t: TaskView| t.snoozed(now, minutes));
}

/// Replacing a task by one of the same id is a change that keeps the id.
pub proof fn lemma_updated(s: StoreView, task: TaskView)
    ensures
        s.updated(task).next_id == s.next_id,
        s.updated(task).find(task.id) == if s.has_id(task.id) {
            Some(task)
        } else {
            None
        },
        forall|other: nat| other != task.id ==> #[trigger] s.updated(task).find(other) == s.find(other),
        s.wf() ==> s.updated(task).wf(),
        s.ids_distinct() ==> s.updated(task).ids_distinct(),
{
    let after = s.updated(task);
    lemma_position(s, task.id, 0);
    match s.position(task.id) {
        Some(p) => {
            lemma_position(s, task.id, p);
            let same = |t: TaskView| if t.id == task.id { task } else { t };
            assert(after.tasks =~= s.modified(task.id, same).tasks);
            assert(after == s.modified(task.id, same));
            lemma_modified(s, task.id, same);
        },
        None => {
            assert forall|other: nat| other != task.id implies #[trigger] after.find(other) == s.find(other) by {
            }
        },
    }
}

/// The greatest id is at least every id.
proof fn lemma_max_id(tasks: Seq<TaskView>, i: int)
    requires
        0 <= i < tasks.len(),
    ensures
        tasks[i].id <= StoreView::max_id(tasks),
    decreases tasks.len(),
{
    if i < tasks.len() - 1 {
        lemma_max_id(tasks.drop_last(), i);
    }
}

/// The greatest id of a store's tasks is the id of one of them.
proof fn lemma_max_id_present(tasks: Seq<TaskView>) -> (i: int)
    requires
        tasks.len() > 0,
    ensures
        0 <= i < tasks.len(),
        tasks[i].id == StoreView::max_id(tasks),
    decreases tasks.len(),
{
    let rest = tasks.drop_last();
    if tasks.last().id > StoreView::max_id(rest) || rest.len() == 0 {
        if rest.len() == 0 {
            assert(StoreView::max_id(rest) == 0);
        }
        tasks.len() - 1
    } else {
        lemma_max_id_present(rest)
    }
}

/// A store restored from saved tasks holds them as they were, in their
/// order, and its next id is above each of their ids: exactly one above the
/// greatest.
pub proof fn lemma_restored(tasks: Seq<TaskView>)
    ensures
        StoreView::restored(tasks).tasks == tasks,
        StoreView::restored(tasks).wf(),
        forall|i: int| 0 <= i < tasks.len() ==> (#[trigger] tasks[i]).id < StoreView::restored(tasks).next_id,
        tasks.len() == 0 ==> StoreView::restored(tasks).next_id == 1,
        tasks.len() > 0 ==> StoreView::restored(tasks).has_id((StoreView::restored(tasks).next_id - 1) as nat),
{
    assert forall|i: int| 0 <= i < tasks.len() implies (#[trigger] tasks[i]).id < StoreView::restored(tasks).next_id by {
        lemma_max_id(tasks, i);
    }
    if tasks.len() > 0 {
        let i = lemma_max_id_present(tasks);
        assert(StoreView::restored(tasks).tasks[i].id == StoreView::max_id(tasks));
    }
}

/// Saving a well-formed store and restoring it gives back the same tasks,
/// and a next id that is not above the one before.
pub proof fn lemma_save_and_restore(s: StoreView)
    requires
        s.wf(),
        s.next_id >= 1,
    ensures
        StoreView::restored(s.tasks).tasks == s.tasks,
        StoreView::restored(s.tasks).wf(),
        StoreView::restored(s.tasks).next_id <= s.next_id,
        s.ids_distinct() ==> StoreView::restored(s.tasks).ids_distinct(),
{
    lemma_restored(s.tasks);
    if s.tasks.len() > 0 {
        let i = lemma_max_id_present(s.tasks);
    }
}

/// Over any run of additions, deletions, replacements and completions from
/// a well-formed store, the ids that the additions get are strictly
/// increasing, start at the store's next id, and so repeat neither each
/// other nor an id of the store; the store stays well formed, and distinct
/// ids stay distinct.
pub proof fn lemma_assigned_ids_increase(s: StoreView, ops: Seq<StoreOp>)
    requires
        s.wf(),
    ensures
        s.run(ops).wf(),
        s.next_id <= s.run(ops).next_id,
        s.ids_distinct() ==> s.run(ops).ids_distinct(),
        forall|i: int, j: int|
            0 <= i < j < s.assigned(ops).len() ==> (#[trigger] s.assigned(ops)[i]) < (#[trigger] s.assigned(ops)[j]),
        forall|i: int|
            0 <= i < s.assigned(ops).len() ==> s.next_id <= (#[trigger] s.assigned(ops)[i]) < s.run(ops).next_id,
        forall|i: int| 0 <= i < s.assigned(ops).len() ==> !s.has_id(#[trigger] s.assigned(ops)[i]),
    decreases ops.len(),
{
    if ops.len() > 0 {
        let before = s.run(ops.drop_last());
        let earlier = s.assigned(ops.drop_last());
        let ids = s.assigned(ops);
        lemma_assigned_ids_increase(s, ops.drop_last());
        match ops.last() {
            StoreOp::Add(task) => {
                lemma_added(before, task);
                assert(ids == earlier.push(before.next_id));
                assert forall|i: int, j: int| 0 <= i < j < ids.len() implies (#[trigger] ids[i]) < (#[trigger] ids[j]) by {
                    assert(ids[i] == earlier[i]);
                    if j < earlier.len() {
                        assert(ids[j] == earlier[j]);
                    }
                }
                assert forall|i: int| 0 <= i < ids.len() implies s.next_id <= (#[trigger] ids[i]) < s.run(ops).next_id by {
                    if i < earlier.len() {
                        assert(ids[i] == earlier[i]);
                    }
                }
            },
            StoreOp::Delete(id) => {
                lemma_deleted(before, id);
                assert(ids == earlier);
            },
            StoreOp::Update(task) => {
                lemma_updated(before, task);
                assert(ids == earlier);
            },
            StoreOp::Complete(id, now) => {
                lemma_modified(before, id, |t: TaskView| t.completed(now));
                assert(ids == earlier);
            },
        }
        assert forall|i: int| 0 <= i < ids.len() implies !s.has_id(#[trigger] ids[i]) by {
            if s.has_id(ids[i]) {
                let k = choose|k: int| 0 <= k < s.tasks.len() && (#[trigger] s.tasks[k]).id == ids[i];
                assert(s.tasks[k].id < s.next_id);
            }
        }
    }
}

/// Once an id that the store has given out is deleted, no task is found
/// under it, and no later run of additions, deletions, replacements and
/// completions gives it out again or brings it back.
pub proof fn lemma_deleted_id_not_reused(s: StoreView, id: nat, ops: Seq<StoreOp>)
    requires
        s.wf(),
        id < s.next_id,
    ensures
        s.deleted(id).find(id).is_none(),
        !s.deleted(id).run(ops).has_id(id),
        forall|i: int|
            0 <= i < s.deleted(id).assigned(ops).len() ==> (#[trigger] s.deleted(id).assigned(ops)[i]) != id,
    decreases ops.len(),
{
    let start = s.deleted(id);
    lemma_deleted(s, id);
    lemma_assigned_ids_increase(start, ops);
    lemma_position(start, id, 0);
    if ops.len() > 0 {
        let before = start.run(ops.drop_last());
        lemma_deleted_id_not_reused(s, id, ops.drop_last());
        lemma_assigned_ids_increase(start, ops.drop_last());
        match ops.last() {
            StoreOp::Add(task) => {
                let after = before.added(task);
                if after.has_id(id) {
                    let k = choose|k: int| 0 <= k < after.tasks.len() && (#[trigger] after.tasks[k]).id == id;
                    if k < before.tasks.len() {
                        assert(before.tasks[k] == after.tasks[k]);
                        assert(before.has_id(id));
                    } else {
                        assert(after.tasks[k].id == before.next_id);
                    }
                }
            },
            StoreOp::Delete(other) => {
                let after = before.deleted(other);
                lemma_deleted(before, other);
                lemma_position(before, id, 0);
                lemma_position(after, id, 0);
                if other != id {
                    assert(after.find(id) == before.find(id));
                }
            },
            StoreOp::Update(task) => {
                let after = before.updated(task);
                lemma_updated(before, task);
                lemma_position(before, id, 0);
                lemma_position(after, id, 0);
                lemma_position(before, task.id, 0);
                if task.id != id {
                    assert(after.find(id) == before.find(id));
                }
            },
            StoreOp::Complete(other, now) => {
                let after = before.completed(other, now);
                lemma_modified(before, other, |t: TaskView| t.completed(now));
                assert(after.has_id(id) == before.has_id(id));
            },
        }
    }
}

/// A change to one task that keeps well-formed tasks well formed keeps the
/// tasks of the store well formed.
proof fn lemma_modified_tasks_wf(s: StoreView, id: nat, change: spec_fn(TaskView) -> TaskView)
    requires
        s.tasks_wf(),
        forall|t: TaskView| t.wf() ==> (#[trigger] change(t)).wf(),
    ensures
        s.modified(id, change).tasks_wf(),
{
    let after = s.modified(id, change);
    lemma_position(s, id, 0);
    match s.position(id) {
        Some(p) => {
            lemma_position(s, id, p);
            assert forall|i: int| 0 <= i < after.tasks.len() implies (#[trigger] after.tasks[i]).wf() by {
                assert(s.tasks[i].wf());
            }
        },
        None => {},
    }
}

/// A store of well-formed tasks stays one under every transition: the
/// completion time of each of its tasks is recorded exactly if the task is
/// completed.
pub proof fn lemma_tasks_stay_wf(
    s: StoreView,
    id: nat,
    task: TaskView,
    now: Instant,
    minutes: int,
    tag: Seq<char>,
    title: Option<Seq<char>>,
    description: Option<Seq<char>>,
    tags: Seq<Seq<char>>,
)
    requires
        s.tasks_wf(),
    ensures
        StoreView::fresh().tasks_wf(),
        task.wf() ==> s.added(task).tasks_wf(),
        task.wf() ==> s.updated(task).tasks_wf(),
        s.deleted(id).tasks_wf(),
        s.completed(id, now).tasks_wf(),
        s.snoozed(id, now, minutes).tasks_wf(),
        s.scheduled(id, now).tasks_wf(),
        s.with_tag(id, tag).tasks_wf(),
        s.without_tag(id, tag).tasks_wf(),
        s.without_tags(id).tasks_wf(),
        s.edited(id, title, description, tags).tasks_wf(),
        s.polled(now).tasks_wf(),
{
    if task.wf() {
        let after = s.added(task);
        assert forall|i: int| 0 <= i < after.tasks.len() implies (#[trigger] after.tasks[i]).wf() by {
            if i < s.tasks.len() {
                assert(s.tasks[i].wf());
            }
        }
        lemma_modified_tasks_wf(s, task.id, |t: TaskView| task);
    }
    let keep = |t: TaskView| t.id != id;
    assert forall|k: int| 0 <= k < s.deleted(id).tasks.len() implies (#[trigger] s.deleted(id).tasks[k]).wf() by {
        let i = lemma_filter_origin(s.tasks, keep, k);
        assert(s.tasks[i].wf());
    }
    lemma_modified_tasks_wf(s, id, |t: TaskView| t.completed(now));
    lemma_modified_tasks_wf(s, id, |t: TaskView| t.snoozed(now, minutes));
    lemma_modified_tasks_wf(s, id, |t: TaskView| t.scheduled(now));
    lemma_modified_tasks_wf(s, id, |t: TaskView| t.with_tag(tag));
    lemma_modified_tasks_wf(s, id, |t: TaskView| t.without_tag(tag));
    lemma_modified_tasks_wf(s, id, |t: TaskView| t.without_tags());
    assert forall|t: TaskView| t.wf() implies (#[trigger] t.edited(title, description, tags)).wf() by {
        lemma_with_tags_keeps_rest(t.retitled(title, description).without_tags(), tags);
    }
    lemma_modified_tasks_wf(s, id, |t: TaskView| t.edited(title, description, tags));
    assert forall|i: int| 0 <= i < s.polled(now).tasks.len() implies (#[trigger] s.polled(now).tasks[i]).wf() by {
        assert(s.tasks[i].wf());
    }
}

} // verus!

//! The store that owns the tasks and assigns their ids.
use vstd::prelude::*;
use crate::clock::Instant;
use crate::clock::Timestamp;
use crate::clock::now;
use crate::store_laws::lemma_added;
use crate::store_laws::lemma_deleted;
use crate::store_laws::lemma_restored;
use crate::task::Task;
use crate::task::TaskView;
use crate::task::MAX_SNOOZE_MINUTES;

verus! {

/// How many tasks the store holds, and how many of them are completed or
/// still pending.
#[derive(Debug, Clone, Copy, PartialEq, Eq, Structural)]
pub struct TaskStats {
    pub total: usize,
    pub completed: usize,
    pub pending: usize,
}

/// The mathematical value of a store: its tasks in insertion order and the
/// id that the next added task will get.
#[verifier::ext_equal]
pub struct StoreView {
    pub tasks: Seq<TaskView>,
    pub next_id: nat,
}

impl StoreView {
    /// The empty store, whose first task will get the id 1.
    pub open spec fn fresh() -> StoreView {
        StoreView { tasks: Seq::empty(), next_id: 1 }
    }

    /// Every id in the store is below the next id to assign.
    pub open spec fn wf(self) -> bool {
        forall|i: int| 0 <= i < self.tasks.len() ==> (#[trigger] self.tasks[i]).id < self.next_id
    }

    /// No two tasks share an id.
    pub open spec fn ids_distinct(self) -> bool {
        forall|i: int, j: int|
            0 <= i < j < self.tasks.len() ==> (#[trigger] self.tasks[i]).id != (#[trigger] self.tasks[j]).id
    }

    /// Whether some task has the id `id`.
    pub open spec fn has_id(self, id: nat) -> bool {
        exists|i: int| 0 <= i < self.tasks.len() && (#[trigger] self.tasks[i]).id == id
    }

    /// Whether `i` is the place of the first task with the id `id`.
    pub open spec fn is_first(self, id: nat, i: int) -> bool {
        &&& 0 <= i < self.tasks.len()
        &&& self.tasks[i].id == id
        &&& forall|j: int| 0 <= j < i ==> (#[trigger] self.tasks[j]).id != id
    }

    /// The place of the first task with the id `id`.
    pub open spec fn position(self, id: nat) -> Option<int> {
        if exists|i: int| self.is_first(id, i) {
            Some(choose|i: int| self.is_first(id, i))
        } else {
            None
        }
    }

    /// The first task with the id `id`.
    pub open spec fn find(self, id: nat) -> Option<TaskView> {
        match self.position(id) {
            Some(i) => Some(self.tasks[i]),
            None => None,
        }
    }

    /// The store after `task` was added under the next id.
    pub open spec fn added(self, task: TaskView) -> StoreView {
        StoreView { tasks: self.tasks.push(task.with_id(self.next_id)), next_id: self.next_id + 1 }
    }

    /// The store without the tasks that have the id `id`.
    pub open spec fn deleted(self, id: nat) -> StoreView {
        StoreView { tasks: self.tasks.filter(|t: TaskView| t.id != id), ..self }
    }

    /// The store with `change` applied to the first task with the id `id`.
    pub open spec fn modified(self, id: nat, change: spec_fn(TaskView) -> TaskView) -> StoreView {
        match self.position(id) {
            Some(i) => StoreView { tasks: self.tasks.update(i, change(self.tasks[i])), ..self },
            None => self,
        }
    }

    /// The store with the first task that has `task`'s id replaced by
    /// `task`.
    pub open spec fn updated(self, task: TaskView) -> StoreView {
        self.modified(task.id, |t: TaskView| task)
    }

    /// The store with its first task of the id `id` completed at `now`.
    pub open spec fn completed(self, id: nat, now: Instant) -> StoreView {
        self.modified(id, |t: TaskView| t.completed(now))
    }

    /// The store with its first task of the id `id` snoozed at `now` for
    /// `minutes` minutes.
    pub open spec fn snoozed(self, id: nat, now: Instant, minutes: int) -> StoreView {
        self.modified(id, |t: TaskView| t.snoozed(now, minutes))
    }

    /// The store with its first task of the id `id` scheduled for `deadline`.
    pub open spec fn scheduled(self, id: nat, deadline: Instant) -> StoreView {
        self.modified(id, |t: TaskView| t.scheduled(deadline))
    }

    /// The store with `tag` added to its first task of the id `id`.
    pub open spec fn with_tag(self, id: nat, tag: Seq<char>) -> StoreView {
        self.modified(id, |t: TaskView| t.with_tag(tag))
    }

    /// The store with `tag` removed from its first task of the id `id`.
    pub open spec fn without_tag(self, id: nat, tag: Seq<char>) -> StoreView {
        self.modified(id, |t: TaskView| t.without_tag(tag))
    }

    /// The store with the tags of its first task of the id `id` removed.
    pub open spec fn without_tags(self, id: nat) -> StoreView {
        self.modified(id, |t: TaskView| t.without_tags())
    }

    /// The store with its first task of the id `id` edited.
    pub open spec fn edited(
        self,
        id: nat,
        title: Option<Seq<char>>,
        description: Option<Seq<char>>,
        tags: Seq<Seq<char>>,
    ) -> StoreView {
        self.modified(id, |t: TaskView| t.edited(title, description, tags))
    }

    /// The tasks that are completed, or those that are not.
    pub open spec fn with_status(self, completed: bool) -> Seq<TaskView> {
        self.tasks.filter(|t: TaskView| t.is_completed() == completed)
    }

    /// The tasks that carry `tag`.
    pub open spec fn tagged(self, tag: Seq<char>) -> Seq<TaskView> {
        self.tasks.filter(|t: TaskView| t.has_tag(tag))
    }

    /// The tasks with a schedule or a snooze.
    pub open spec fn with_deadline(self) -> Seq<TaskView> {
        self.tasks.filter(|t: TaskView| t.has_deadline())
    }

    /// What a listing shows: the completed tasks where only they are asked
    /// for, the pending ones where only they are asked for, else the tasks
    /// that carry the tag where one is given, else every task.
    pub open spec fn listed(self, completed: bool, pending: bool, tag: Option<Seq<char>>) -> Seq<
        TaskView,
    > {
        if completed && !pending {
            self.with_status(true)
        } else if pending && !completed {
            self.with_status(false)
        } else {
            match tag {
                Some(t) => self.tagged(t),
                None => self.tasks,
            }
        }
    }

    /// The greatest id among `tasks`, and 0 where there is none.
    pub open spec fn max_id(tasks: Seq<TaskView>) -> nat
        decreases tasks.len(),
    {
        if tasks.len() == 0 {
            0
        } else {
            let rest = Self::max_id(tasks.drop_last());
            if tasks.last().id > rest {
                tasks.last().id
            } else {
                rest
            }
        }
    }

    /// The store that holds `tasks` as they are; its next id follows their
    /// greatest id.
    pub open spec fn restored(tasks: Seq<TaskView>) -> StoreView {
        StoreView { tasks, next_id: Self::max_id(tasks) + 1 }
    }
}

/// `i` is the first place of `id` exactly if `position` says so.
pub proof fn lemma_position(s: StoreView, id: nat, i: int)
    ensures
        s.is_first(id, i) <==> s.position(id) == Some(i),
        s.position(id).is_some() <==> s.has_id(id),
{
    if s.is_first(id, i) {
        let k = choose|k: int| s.is_first(id, k);
        assert(s.is_first(id, k));
        if k < i {
            assert(s.tasks[k].id != id);
        }
        if i < k {
            assert(s.tasks[i].id != id);
        }
    }
    if s.has_id(id) {
        let j = choose|j: int| 0 <= j < s.tasks.len() && (#[trigger] s.tasks[j]).id == id;
        lemma_first_exists(s, id, j);
    }
    if s.position(id).is_some() {
        let k = choose|k: int| s.is_first(id, k);
        assert(s.tasks[k].id == id);
    }
}

/// A task with the id `id` at `j` means that there is a first one.
proof fn lemma_first_exists(s: StoreView, id: nat, j: int)
    requires
        0 <= j < s.tasks.len(),
        s.tasks[j].id == id,
    ensures
        exists|i: int| s.is_first(id, i),
    decreases j,
{
    if exists|k: int| 0 <= k < j && (#[trigger] s.tasks[k]).id == id {
        let k = choose|k: int| 0 <= k < j && (#[trigger] s.tasks[k]).id == id;
        lemma_first_exists(s, id, k);
    } else {
        assert(s.is_first(id, j));
    }
}

/// Filtering one element more either appends it or changes nothing.
proof fn lemma_filter_next(s: Seq<TaskView>, i: int, keep: spec_fn(TaskView) -> bool)
    requires
        0 <= i < s.len(),
    ensures
        s.take(i + 1).filter(keep) == if keep(s[i]) {
            s.take(i).filter(keep).push(s[i])
        } else {
            s.take(i).filter(keep)
        },
{
    assert(s.take(i + 1) =~= s.take(i).push(s[i]));
    s.take(i).lemma_filter_push(s[i], keep);
}

/// The tasks and the id counter.
#[derive(Debug)]
pub struct TaskStorage {
    pub(crate) tasks: Vec<Task>,
    pub(crate) next_id: u64,
}

impl View for TaskStorage {
    type V = StoreView;

    open(crate) spec fn view(&self) -> StoreView {
        StoreView { tasks: self.tasks.deep_view(), next_id: self.next_id as nat }
    }
}

impl TaskStorage {
    /// An empty store, whose first task will get the id 1.
    pub fn new() -> (store: TaskStorage)
        ensures
            store@ == StoreView::fresh(),
    {
        TaskStorage { tasks: Vec::new(), next_id: 1 }
    }

    /// Every task, in store order.
    pub fn get_all_tasks(&self) -> (tasks: &Vec<Task>)
        ensures
            tasks.deep_view() == self@.tasks,
    {
        &self.tasks
    }

    /// The id that the next added task will get.
    pub fn next_id(&self) -> (id: u64)
        ensures
            id == self@.next_id,
    {
        self.next_id
    }

    /// Adds `task` under the next id, whatever id it came with, and returns
    /// that id.
    pub fn add_task(&mut self, task: Task) -> (id: u64)
        requires
            old(self)@.next_id < u64::MAX,
        ensures
            id == old(self)@.next_id,
            final(self)@ == old(self)@.added(task@),
            old(self)@.wf() ==> final(self)@.wf() && !old(self)@.has_id(id as nat),
    {
        proof {
            if self@.wf() {
                lemma_added(self@, task@);
            }
        }
        let mut task = task;
        task.id = self.next_id;
        let id = task.id;
        self.tasks.push(task);
        self.next_id = self.next_id + 1;
        id
    }

    /// The place of the first task with the id `id`.
    fn index_of(&self, id: u64) -> (r: Option<usize>)
        ensures
            match r {
                Some(i) => i < self.tasks.len() && self@.position(id as nat) == Some(i as int),
                None => self@.position(id as nat).is_none(),
            },
            r.is_some() == self@.has_id(id as nat),
    {
        let mut i: usize = 0;
        while i < self.tasks.len()
            invariant
                i <= self.tasks.len(),
                forall|j: int| 0 <= j < i ==> (#[trigger] self@.tasks[j]).id != id,
            decreases self.tasks.len() - i,
        {
            if self.tasks[i].id == id {
                proof {
                    assert(self@.tasks[i as int].id == id);
                    assert(self@.is_first(id as nat, i as int));
                    lemma_position(self@, id as nat, i as int);
                }
                return Some(i);
            }
            i += 1;
        }
        proof {
            lemma_position(self@, id as nat, 0);
        }
        None
    }

    /// Finds the first task with the id `id`.
    pub fn find_task_by_id(&self, id: u64) -> (found: Option<&Task>)
        ensures
            found.deep_view() == self@.find(id as nat),
    {
        match self.index_of(id) {
            Some(i) => Some(&self.tasks[i]),
            None => None,
        }
    }

    /// Lends the first task with the id `id` for changes.  The store ends
    /// as it was but for that task, which ends as the borrower leaves it.
    pub fn find_task_by_id_mut(&mut self, id: u64) -> (found: Option<&mut Task>)
        ensures
            match found {
                Some(task) => old(self)@.position(id as nat).is_some()
                    && Some(task@) == old(self)@.find(id as nat)
                    && final(self)@ == (StoreView {
                        tasks: old(self)@.tasks.update(
                            old(self)@.position(id as nat).unwrap(),
                            final(task)@,
                        ),
                        ..old(self)@
                    }),
                None => !old(self)@.has_id(id as nat) && final(self)@ == old(self)@,
            },
    {
        match self.index_of(id) {
            Some(i) => Some(&mut self.tasks[i]),
            None => None,
        }
    }

    /// Removes every task with the id `id` and tells whether there was one.
    pub fn delete_task(&mut self, id: u64) -> (removed: bool)
        ensures
            removed == old(self)@.has_id(id as nat),
            final(self)@ == old(self)@.deleted(id as nat),
            !final(self)@.has_id(id as nat),
    {
        let ghost before = self@.tasks;
        let ghost keep = |t: TaskView| t.id != id as nat;
        let ghost mut done: int = 0;
        let mut removed = false;
        let mut i: usize = 0;
        proof {
            assert(before.take(0) =~= Seq::empty());
            assert(before.take(0).filter(keep) =~= Seq::empty()) by {
                reveal(Seq::filter);
            }
            assert(before.skip(0) =~= before);
        }
        while i < self.tasks.len()
            invariant
                0 <= done <= before.len(),
                i <= self.tasks.len(),
                i == before.take(done).filter(keep).len(),
                self@.tasks =~= before.take(done).filter(keep) + before.skip(done),
                self.next_id == old(self).next_id,
                removed == exists|j: int| 0 <= j < done && (#[trigger] before[j]).id == id as nat,
                keep == |t: TaskView| t.id != id as nat,
            decreases before.len() - done,
        {
            let ghost prev = self@.tasks;
            let ghost kept = before.take(done).filter(keep);
            proof {
                assert(self@.tasks[i as int] == before.skip(done)[0]);
                assert(before.take(done + 1) =~= before.take(done).push(before[done]));
                before.take(done).lemma_filter_push(before[done], keep);
                assert(before.skip(done + 1) =~= before.skip(done).drop_first());
            }
            if self.tasks[i].id == id {
                self.tasks.remove(i);
                removed = true;
                proof {
                    assert(before[done].id == id as nat);
                    assert(self@.tasks =~= prev.remove(i as int));
                    assert(prev.remove(i as int) =~= kept + before.skip(done + 1));
                    done = done + 1;
                }
            } else {
                i += 1;
                proof {
                    assert forall|j: int| 0 <= j < done + 1 && (#[trigger] before[j]).id == id as nat implies 0 <= j < done by {
                        if j == done {
                            assert(before[done].id != id as nat);
                        }
                    }
                    assert(prev =~= kept.push(before[done]) + before.skip(done + 1));
                    done = done + 1;
                }
            }
        }
        proof {
            assert(before.skip(done).len() == 0);
            assert(before.take(done) =~= before);
            lemma_deleted(old(self)@, id as nat);
        }
        removed
    }

    /// Replaces the first task that has `task`'s id by `task`, and tells
    /// whether there was one.
    pub fn update_task(&mut self, task: Task) -> (found: bool)
        ensures
            found == old(self)@.has_id(task@.id),
            final(self)@ == old(self)@.updated(task@),
    {
        match self.index_of(task.id) {
            Some(i) => {
                self.tasks[i] = task;
                true
            },
            None => false,
        }
    }

    /// Marks the first task with the id `id` completed at `now`, and tells
    /// whether there was one.
    pub fn complete_task_at(&mut self, id: u64, now: Timestamp) -> (found: bool)
        ensures
            found == old(self)@.has_id(id as nat),
            final(self)@ == old(self)@.completed(id as nat, now@),
    {
        match self.index_of(id) {
            Some(i) => {
                self.tasks[i].complete_at(now);
                true
            },
            None => false,
        }
    }

    /// Marks the first task with the id `id` completed at the clock's
    /// reading, and tells whether there was one.  The clock is read only
    /// where there is one.
    pub fn complete_task(&mut self, id: u64) -> (found: bool)
        ensures
            found == old(self)@.has_id(id as nat),
            exists|now: Instant|
                now.in_calendar() && final(self)@ == #[trigger] old(self)@.completed(id as nat, now),
    {
        if self.index_of(id).is_some() {
            let t = now();
            let found = self.complete_task_at(id, t);
            assert(self@ == old(self)@.completed(id as nat, t@));
            found
        } else {
            assert(self@ == old(self)@.completed(id as nat, Instant { secs: 0, nanos: 0 }));
            false
        }
    }

    /// Snoozes the first task with the id `id` at `now` for `minutes`
    /// minutes, and tells whether there was one.
    pub fn snooze_task_at(&mut self, id: u64, minutes: i64, now: Timestamp) -> (found: bool)
        requires
            now@.plus_minutes(minutes as int).representable(),
            old(self)@.find(id as nat) matches Some(t) ==> t.snooze_count < u32::MAX,
        ensures
            found == old(self)@.has_id(id as nat),
            final(self)@ == old(self)@.snoozed(id as nat, now@, minutes as int),
    {
        match self.index_of(id) {
            Some(i) => {
                self.tasks[i].snooze_at(now, minutes);
                true
            },
            None => false,
        }
    }

    /// Snoozes the first task with the id `id` for `minutes` minutes from
    /// the clock's reading, and tells whether there was one.  The clock is
    /// read only where there is one.
    pub fn snooze_task(&mut self, id: u64, minutes: i64) -> (found: bool)
        requires
            -MAX_SNOOZE_MINUTES <= minutes <= MAX_SNOOZE_MINUTES,
            old(self)@.find(id as nat) matches Some(t) ==> t.snooze_count < u32::MAX,
        ensures
            found == old(self)@.has_id(id as nat),
            exists|now: Instant|
                now.in_calendar() && final(self)@ == #[trigger] old(self)@.snoozed(
                    id as nat,
                    now,
                    minutes as int,
                ),
    {
        if self.index_of(id).is_some() {
            let t = now();
            let found = self.snooze_task_at(id, minutes, t);
            assert(self@ == old(self)@.snoozed(id as nat, t@, minutes as int));
            found
        } else {
            assert(self@ == old(self)@.snoozed(id as nat, Instant { secs: 0, nanos: 0 }, minutes as int));
            false
        }
    }

    /// Schedules a reminder of the first task with the id `id` for `deadline`,
    /// and tells whether there was one.
    pub fn schedule_task(&mut self, id: u64, deadline: Timestamp) -> (found: bool)
        ensures
            found == old(self)@.has_id(id as nat),
            final(self)@ == old(self)@.scheduled(id as nat, deadline@),
    {
        match self.index_of(id) {
            Some(i) => {
                self.tasks[i].schedule_for(deadline);
                true
            },
            None => false,
        }
    }

    /// Adds `tag` to the first task with the id `id`, and tells whether
    /// there was one.
    pub fn add_task_tag(&mut self, id: u64, tag: String) -> (found: bool)
        ensures
            found == old(self)@.has_id(id as nat),
            final(self)@ == old(self)@.with_tag(id as nat, tag@),
    {
        match self.index_of(id) {
            Some(i) => {
                self.tasks[i].add_tag(tag);
                true
            },
            None => false,
        }
    }

    /// Removes `tag` from the first task with the id `id`.  Returns `None`
    /// where there is no such task, else whether the task carried the tag.
    pub fn remove_task_tag(&mut self, id: u64, tag: &str) -> (removed: Option<bool>)
        ensures
            removed == match old(self)@.find(id as nat) {
                Some(t) => Some(t.has_tag(tag@)),
                None => None,
            },
            final(self)@ == old(self)@.without_tag(id as nat, tag@),
    {
        match self.index_of(id) {
            Some(i) => Some(self.tasks[i].remove_tag(tag)),
            None => None,
        }
    }

    /// Removes every tag of the first task with the id `id`.  Returns
    /// `None` where there is no such task, else how many tags it had.
    pub fn clear_task_tags(&mut self, id: u64) -> (cleared: Option<usize>)
        ensures
            match old(self)@.find(id as nat) {
                Some(t) => cleared.is_some() && cleared.unwrap() == t.tags.len(),
                None => cleared.is_none(),
            },
            final(self)@ == old(self)@.without_tags(id as nat),
    {
        match self.index_of(id) {
            Some(i) => {
                let count = self.tasks[i].get_tags().len();
                self.tasks[i].clear_tags();
                Some(count)
            },
            None => None,
        }
    }

    /// Edits the first task with the id `id`, and tells whether there was
    /// one.
    pub fn edit_task(
        &mut self,
        id: u64,
        title: Option<String>,
        description: Option<String>,
        tags: Vec<String>,
    ) -> (found: bool)
        ensures
            found == old(self)@.has_id(id as nat),
            final(self)@ == old(self)@.edited(
                id as nat,
                title.deep_view(),
                description.deep_view(),
                tags.deep_view(),
            ),
    {
        match self.index_of(id) {
            Some(i) => {
                self.tasks[i].edit(title, description, tags);
                true
            },
            None => false,
        }
    }

    /// Creates a pending task from its parts and adds it.
    pub fn create_task(&mut self, title: String, description: Option<String>, tags: Vec<String>) -> (id: u64)
        requires
            old(self)@.next_id < u64::MAX,
        ensures
            id == old(self)@.next_id,
            exists|now: Instant|
                now.in_calendar() && final(self)@ == old(self)@.added(
                    #[trigger] TaskView::fresh(0, title@, description.deep_view(), tags.deep_view(), now),
                ),
    {
        let ghost title_view = title@;
        let ghost description_view = description.deep_view();
        let ghost tags_view = tags.deep_view();
        let task = Task::new_with_tags(0, title, description, tags);
        assert(task@ == TaskView::fresh(0, title_view, description_view, tags_view, task@.created_at));
        self.add_task(task)
    }

    /// The tasks that are completed, or those that are not, in store order.
    pub fn get_tasks_by_status(&self, completed: bool) -> (found: Vec<&Task>)
        ensures
            found.deep_view() == self@.with_status(completed),
    {
        let ghost keep = |t: TaskView| t.is_completed() == completed;
        let mut found: Vec<&Task> = Vec::new();
        let mut i: usize = 0;
        proof {
            assert(self@.tasks.take(0).filter(keep) =~= Seq::<TaskView>::empty()) by {
                reveal(Seq::filter);
            }
        }
        while i < self.tasks.len()
            invariant
                i <= self.tasks.len(),
                found.deep_view() =~= self@.tasks.take(i as int).filter(keep),
                keep == |t: TaskView| t.is_completed() == completed,
            decreases self.tasks.len() - i,
        {
            proof {
                lemma_filter_next(self@.tasks, i as int, keep);
            }
            if self.tasks[i].is_completed() == completed {
                found.push(&self.tasks[i]);
            }
            i += 1;
        }
        assert(self@.tasks.take(i as int) =~= self@.tasks);
        found
    }

    /// The tasks that carry `tag`, in store order.
    pub fn find_tasks_by_tag(&self, tag: &str) -> (found: Vec<&Task>)
        ensures
            found.deep_view() == self@.tagged(tag@),
    {
        let ghost keep = |t: TaskView| t.has_tag(tag@);
        let mut found: Vec<&Task> = Vec::new();
        let mut i: usize = 0;
        proof {
            assert(self@.tasks.take(0).filter(keep) =~= Seq::<TaskView>::empty()) by {
                reveal(Seq::filter);
            }
        }
        while i < self.tasks.len()
            invariant
                i <= self.tasks.len(),
                found.deep_view() =~= self@.tasks.take(i as int).filter(keep),
                keep == |t: TaskView| t.has_tag(tag@),
            decreases self.tasks.len() - i,
        {
            proof {
                lemma_filter_next(self@.tasks, i as int, keep);
            }
            if self.tasks[i].has_tag(tag) {
                found.push(&self.tasks[i]);
            }
            i += 1;
        }
        assert(self@.tasks.take(i as int) =~= self@.tasks);
        found
    }

    /// The tasks with a schedule or a snooze, in store order.
    pub fn get_scheduled_tasks(&self) -> (found: Vec<&Task>)
        ensures
            found.deep_view() == self@.with_deadline(),
    {
        let ghost keep = |t: TaskView| t.has_deadline();
        let mut found: Vec<&Task> = Vec::new();
        let mut i: usize = 0;
        proof {
            assert(self@.tasks.take(0).filter(keep) =~= Seq::<TaskView>::empty()) by {
                reveal(Seq::filter);
            }
        }
        while i < self.tasks.len()
            invariant
                i <= self.tasks.len(),
                found.deep_view() =~= self@.tasks.take(i as int).filter(keep),
                keep == |t: TaskView| t.has_deadline(),
            decreases self.tasks.len() - i,
        {
            proof {
                lemma_filter_next(self@.tasks, i as int, keep);
            }
            if self.tasks[i].scheduled_for.is_some() || self.tasks[i].snoozed_until.is_some() {
                found.push(&self.tasks[i]);
            }
            i += 1;
        }
        assert(self@.tasks.take(i as int) =~= self@.tasks);
        found
    }

    /// Every task, in store order.
    fn every_task(&self) -> (found: Vec<&Task>)
        ensures
            found.deep_view() == self@.tasks,
    {
        let mut found: Vec<&Task> = Vec::new();
        let mut i: usize = 0;
        while i < self.tasks.len()
            invariant
                i <= self.tasks.len(),
                found.deep_view() =~= self@.tasks.take(i as int),
            decreases self.tasks.len() - i,
        {
            assert(self@.tasks.take(i as int + 1) =~= self@.tasks.take(i as int).push(
                self@.tasks[i as int],
            ));
            found.push(&self.tasks[i]);
            i += 1;
        }
        assert(self@.tasks.take(i as int) =~= self@.tasks);
        found
    }

    /// The tasks that a listing shows for the given choice of filters.
    pub fn list_tasks(&self, completed: bool, pending: bool, tag: Option<&str>) -> (found: Vec<&Task>)
        ensures
            found.deep_view() == self@.listed(completed, pending, tag.deep_view()),
    {
        if completed && !pending {
            self.get_tasks_by_status(true)
        } else if pending && !completed {
            self.get_tasks_by_status(false)
        } else {
            match tag {
                Some(t) => self.find_tasks_by_tag(t),
                None => self.every_task(),
            }
        }
    }

    /// Counts the tasks: all of them, the completed ones, and the rest.
    pub fn get_stats(&self) -> (stats: TaskStats)
        ensures
            stats.total == self@.tasks.len(),
            stats.completed == self@.with_status(true).len(),
            stats.pending == self@.with_status(false).len(),
            stats.pending == stats.total - stats.completed,
    {
        let ghost done = |t: TaskView| t.is_completed() == true;
        let ghost open = |t: TaskView| t.is_completed() == false;
        let total = self.tasks.len();
        let mut completed: usize = 0;
        let mut i: usize = 0;
        proof {
            assert(self@.tasks.take(0).filter(done) =~= Seq::<TaskView>::empty()) by {
                reveal(Seq::filter);
            }
            assert(self@.tasks.take(0).filter(open) =~= Seq::<TaskView>::empty()) by {
                reveal(Seq::filter);
            }
        }
        while i < self.tasks.len()
            invariant
                i <= self.tasks.len(),
                completed <= i,
                completed == self@.tasks.take(i as int).filter(done).len(),
                i - completed == self@.tasks.take(i as int).filter(open).len(),
                done == |t: TaskView| t.is_completed() == true,
                open == |t: TaskView| t.is_completed() == false,
            decreases self.tasks.len() - i,
        {
            proof {
                lemma_filter_next(self@.tasks, i as int, done);
                lemma_filter_next(self@.tasks, i as int, open);
            }
            if self.tasks[i].is_completed() {
                completed += 1;
            }
            i += 1;
        }
        assert(self@.tasks.take(i as int) =~= self@.tasks);
        TaskStats { total, completed, pending: total - completed }
    }

    /// Takes over `tasks` as the store's contents, as they are, and sets
    /// the next id after their greatest id.
    pub fn load_tasks(&mut self, tasks: Vec<Task>)
        requires
            forall|i: int| 0 <= i < tasks.len() ==> (#[trigger] tasks[i]).id < u64::MAX,
        ensures
            final(self)@ == StoreView::restored(tasks.deep_view()),
            final(self)@.wf(),
    {
        let mut greatest: u64 = 0;
        let mut i: usize = 0;
        assert(tasks.deep_view().take(0) =~= Seq::<TaskView>::empty());
        while i < tasks.len()
            invariant
                i <= tasks.len(),
                greatest == StoreView::max_id(tasks.deep_view().take(i as int)),
                greatest < u64::MAX,
                forall|j: int| 0 <= j < tasks.len() ==> (#[trigger] tasks[j]).id < u64::MAX,
            decreases tasks.len() - i,
        {
            proof {
                let upto = tasks.deep_view().take(i as int + 1);
                assert(upto.drop_last() =~= tasks.deep_view().take(i as int));
                assert(upto.last().id == tasks[i as int].id);
            }
            if tasks[i].id > greatest {
                greatest = tasks[i].id;
            }
            i += 1;
        }
        proof {
            assert(tasks.deep_view().take(i as int) =~= tasks.deep_view());
            lemma_restored(tasks.deep_view());
        }
        self.next_id = greatest + 1;
        self.tasks = tasks;
    }
}

} // verus!

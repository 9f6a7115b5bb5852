//! The task entity and its state transitions.
use vstd::prelude::*;
use crate::clock::Instant;
use crate::clock::Timestamp;
use crate::clock::now;

verus! {

/// Whether a task is still open.  `Completed` is terminal.
#[derive(Debug, Clone, Copy, PartialEq, Eq, Structural)]
pub enum TaskStatus {
    Pending,
    Completed,
}

/// The longest snooze, in minutes, that `Task::snooze` accepts: the number
/// of whole minutes in `i64::MAX` milliseconds.
pub const MAX_SNOOZE_MINUTES: i64 = 153_722_867_280_912;

/// One unit of work with its reminder state.
#[derive(Debug)]
pub struct Task {
    pub id: u64,
    pub title: String,
    pub description: Option<String>,
    pub tags: Vec<String>,
    pub status: TaskStatus,
    pub created_at: Timestamp,
    pub completed_at: Option<Timestamp>,
    pub scheduled_for: Option<Timestamp>,
    pub reminder_sent: bool,
    pub snoozed_until: Option<Timestamp>,
    pub snooze_count: u32,
}

/// The mathematical value of a task.
#[verifier::ext_equal]
pub struct TaskView {
    pub id: nat,
    pub title: Seq<char>,
    pub description: Option<Seq<char>>,
    pub tags: Seq<Seq<char>>,
    pub status: TaskStatus,
    pub created_at: Instant,
    pub completed_at: Option<Instant>,
    pub scheduled_for: Option<Instant>,
    pub reminder_sent: bool,
    pub snoozed_until: Option<Instant>,
    pub snooze_count: nat,
}

impl TaskView {
    /// A pending task without any reminder state.
    pub open spec fn fresh(
        id: nat,
        title: Seq<char>,
        description: Option<Seq<char>>,
        tags: Seq<Seq<char>>,
        created_at: Instant,
    ) -> TaskView {
        TaskView {
            id,
            title,
            description,
            tags,
            status: TaskStatus::Pending,
            created_at,
            completed_at: None,
            scheduled_for: None,
            reminder_sent: false,
            snoozed_until: None,
            snooze_count: 0,
        }
    }

    /// The completion time is recorded exactly for completed tasks.
    pub open spec fn wf(self) -> bool {
        self.completed_at.is_some() <==> self.status == TaskStatus::Completed
    }

    /// Whether the task is completed.
    pub open spec fn is_completed(self) -> bool {
        self.status == TaskStatus::Completed
    }

    /// Whether the task carries `tag`, letter for letter.
    pub open spec fn has_tag(self, tag: Seq<char>) -> bool {
        self.tags.contains(tag)
    }

    /// Whether a reminder is armed, by a schedule or by a snooze.
    pub open spec fn has_deadline(self) -> bool {
        self.scheduled_for.is_some() || self.snoozed_until.is_some()
    }

    /// The same task under another id.
    pub open spec fn with_id(self, id: nat) -> TaskView {
        TaskView { id, ..self }
    }

    /// The task completed at `now`.
    pub open spec fn completed(self, now: Instant) -> TaskView {
        TaskView { status: TaskStatus::Completed, completed_at: Some(now), ..self }
    }

    /// The task with `tag` appended, unless it already carries it.
    pub open spec fn with_tag(self, tag: Seq<char>) -> TaskView {
        if self.tags.contains(tag) {
            self
        } else {
            TaskView { tags: self.tags.push(tag), ..self }
        }
    }

    /// The task without the first occurrence of `tag`.
    pub open spec fn without_tag(self, tag: Seq<char>) -> TaskView {
        TaskView { tags: self.tags.remove_value(tag), ..self }
    }

    /// The task without any tag.
    pub open spec fn without_tags(self) -> TaskView {
        TaskView { tags: Seq::empty(), ..self }
    }

    /// The task after each tag of `tags` was added in turn.
    pub open spec fn with_tags(self, tags: Seq<Seq<char>>) -> TaskView
        decreases tags.len(),
    {
        if tags.len() == 0 {
            self
        } else {
            self.with_tags(tags.drop_last()).with_tag(tags.last())
        }
    }

    /// The task with the title and the description replaced where one is
    /// given.
    pub open spec fn retitled(self, title: Option<Seq<char>>, description: Option<Seq<char>>) -> TaskView {
        TaskView {
            title: match title {
                Some(t) => t,
                None => self.title,
            },
            description: if description.is_some() {
                description
            } else {
                self.description
            },
            ..self
        }
    }

    /// The task after an edit: a given title replaces the title, a given
    /// description replaces the description, and a non-empty list of tags
    /// replaces the tags, each tag kept once.
    pub open spec fn edited(
        self,
        title: Option<Seq<char>>,
        description: Option<Seq<char>>,
        tags: Seq<Seq<char>>,
    ) -> TaskView {
        if tags.len() > 0 {
            self.retitled(title, description).without_tags().with_tags(tags)
        } else {
            self.retitled(title, description)
        }
    }

    /// The task scheduled for `deadline`, its reminder armed again.
    pub open spec fn scheduled(self, deadline: Instant) -> TaskView {
        TaskView { scheduled_for: Some(deadline), reminder_sent: false, ..self }
    }

    /// The task snoozed at `now` for `minutes` minutes.
    pub open spec fn snoozed(self, now: Instant, minutes: int) -> TaskView {
        TaskView {
            snoozed_until: Some(now.plus_minutes(minutes)),
            snooze_count: self.snooze_count + 1,
            ..self
        }
    }

    /// The task with the reminder of its schedule marked as sent.
    pub open spec fn reminder_marked(self) -> TaskView {
        TaskView { reminder_sent: true, ..self }
    }

    /// The task without a snooze.
    pub open spec fn snooze_cleared(self) -> TaskView {
        TaskView { snoozed_until: None, ..self }
    }

    /// The task after each snooze of `snoozes`, a pair of the time it was
    /// made at and its minutes, was applied in turn.
    pub open spec fn snoozed_each(self, snoozes: Seq<(Instant, int)>) -> TaskView
        decreases snoozes.len(),
    {
        if snoozes.len() == 0 {
            self
        } else {
            self.snoozed_each(snoozes.drop_last()).snoozed(snoozes.last().0, snoozes.last().1)
        }
    }

    /// Whether a reminder is due at `now`.  A snooze decides alone where
    /// there is one; otherwise the schedule decides, as long as its reminder
    /// has not been sent.
    pub open spec fn due_at(self, now: Instant) -> bool {
        match self.snoozed_until {
            Some(until) => until.at_or_before(now),
            None => match self.scheduled_for {
                Some(deadline) => deadline.at_or_before(now) && !self.reminder_sent,
                None => false,
            },
        }
    }
}

/// A task with neither a schedule nor a snooze is never due.
pub proof fn lemma_no_deadline_never_due(task: TaskView, now: Instant)
    requires
        !task.has_deadline(),
    ensures
        !task.due_at(now),
{
}

/// A schedule that has passed makes a task without a snooze due as long as
/// its reminder has not been sent, and never again once it has been.
pub proof fn lemma_schedule_fires_until_sent(
    task: TaskView,
    deadline: Instant,
    now: Instant,
    later: Instant,
)
    requires
        task.snoozed_until.is_none(),
        task.scheduled_for == Some(deadline),
        !task.reminder_sent,
        deadline.at_or_before(now),
    ensures
        task.due_at(now),
        !task.reminder_marked().due_at(later),
{
}

/// Scheduling arms the reminder again: a task without a snooze is due from
/// the scheduled instant on, whether or not an earlier reminder was sent.
pub proof fn lemma_schedule_rearms(task: TaskView, deadline: Instant, now: Instant)
    requires
        task.snoozed_until.is_none(),
    ensures
        task.scheduled(deadline).due_at(now) == deadline.at_or_before(now),
{
}

/// A snooze that has passed makes the task due, whatever the schedule and
/// the sent flag say.
pub proof fn lemma_snooze_overrides(task: TaskView, until: Instant, now: Instant)
    requires
        task.snoozed_until == Some(until),
    ensures
        task.due_at(now) == until.at_or_before(now),
        task.reminder_marked().due_at(now) == task.due_at(now),
{
}

/// A snooze sets the deadline to the given minutes after `now`, counts one
/// more snooze, and leaves the schedule and the sent flag alone.
pub proof fn lemma_snooze_effect(task: TaskView, now: Instant, minutes: int)
    ensures
        task.snoozed(now, minutes).snoozed_until == Some(
            Instant { secs: now.secs + 60 * minutes, nanos: now.nanos },
        ),
        task.snoozed(now, minutes).snooze_count == task.snooze_count + 1,
        task.snoozed(now, minutes).scheduled_for == task.scheduled_for,
        task.snoozed(now, minutes).reminder_sent == task.reminder_sent,
{
}

/// Each snooze counts: after a run of snoozes the count has grown by their
/// number.
pub proof fn lemma_snoozes_accumulate(task: TaskView, snoozes: Seq<(Instant, int)>)
    ensures
        task.snoozed_each(snoozes).snooze_count == task.snooze_count + snoozes.len(),
    decreases snoozes.len(),
{
    if snoozes.len() > 0 {
        lemma_snoozes_accumulate(task, snoozes.drop_last());
    }
}

/// A fresh task is well formed, completing makes any task well formed, and
/// no other transition touches what well-formedness speaks of.
pub proof fn lemma_transitions_keep_wf(task: TaskView, now: Instant, minutes: int, tag: Seq<char>)
    ensures
        TaskView::fresh(task.id, task.title, task.description, task.tags, now).wf(),
        task.completed(now).wf(),
        task.with_tag(tag).wf() == task.wf(),
        task.without_tag(tag).wf() == task.wf(),
        task.without_tags().wf() == task.wf(),
        task.scheduled(now).wf() == task.wf(),
        task.snoozed(now, minutes).wf() == task.wf(),
        task.reminder_marked().wf() == task.wf(),
        task.snooze_cleared().wf() == task.wf(),
{
}

/// Adding tags in turn changes nothing but the tags.
pub proof fn lemma_with_tags_keeps_rest(task: TaskView, tags: Seq<Seq<char>>)
    ensures
        task.with_tags(tags) == (TaskView { tags: task.with_tags(tags).tags, ..task }),
    decreases tags.len(),
{
    if tags.len() > 0 {
        lemma_with_tags_keeps_rest(task, tags.drop_last());
    }
}

/// No transition changes the id of a task or the time of its creation.
pub proof fn lemma_transitions_keep_identity(
    task: TaskView,
    now: Instant,
    minutes: int,
    tag: Seq<char>,
    title: Option<Seq<char>>,
    description: Option<Seq<char>>,
    tags: Seq<Seq<char>>,
)
    ensures
        task.completed(now).id == task.id && task.completed(now).created_at == task.created_at,
        task.with_tag(tag).id == task.id && task.with_tag(tag).created_at == task.created_at,
        task.without_tag(tag).id == task.id && task.without_tag(tag).created_at == task.created_at,
        task.without_tags().id == task.id && task.without_tags().created_at == task.created_at,
        task.scheduled(now).id == task.id && task.scheduled(now).created_at == task.created_at,
        task.snoozed(now, minutes).id == task.id && task.snoozed(now, minutes).created_at
            == task.created_at,
        task.reminder_marked().id == task.id && task.reminder_marked().created_at == task.created_at,
        task.snooze_cleared().id == task.id && task.snooze_cleared().created_at == task.created_at,
        task.edited(title, description, tags).id == task.id && task.edited(
            title,
            description,
            tags,
        ).created_at == task.created_at,
{
    lemma_with_tags_keeps_rest(task.retitled(title, description).without_tags(), tags);
}

/// Adding a tag keeps the earlier tags in their order and never makes a
/// duplicate.
pub proof fn lemma_with_tag(task: TaskView, tag: Seq<char>)
    ensures
        task.tags.is_prefix_of(task.with_tag(tag).tags),
        task.with_tag(tag).has_tag(tag),
        task.tags.no_duplicates() ==> task.with_tag(tag).tags.no_duplicates(),
        task.with_tag(tag).with_tag(tag) == task.with_tag(tag),
{
    let after = task.with_tag(tag).tags;
    if !task.tags.contains(tag) {
        assert(after[after.len() - 1] == tag);
        assert(after.take(task.tags.len() as int) =~= task.tags);
    } else {
        assert(after.take(task.tags.len() as int) =~= task.tags);
    }
}

/// Tags added in turn to a task without duplicates leave it without
/// duplicates.
pub proof fn lemma_with_tags_no_duplicates(task: TaskView, tags: Seq<Seq<char>>)
    requires
        task.tags.no_duplicates(),
    ensures
        task.with_tags(tags).tags.no_duplicates(),
    decreases tags.len(),
{
    if tags.len() > 0 {
        lemma_with_tags_no_duplicates(task, tags.drop_last());
        lemma_with_tag(task.with_tags(tags.drop_last()), tags.last());
    }
}

/// Removing a tag that the task carries once leaves it without the tag.
pub proof fn lemma_without_tag(task: TaskView, tag: Seq<char>)
    requires
        task.tags.no_duplicates(),
    ensures
        !task.without_tag(tag).has_tag(tag),
        task.without_tag(tag).tags.no_duplicates(),
        task.has_tag(tag) ==> task.without_tag(tag).tags.len() == task.tags.len() - 1,
        !task.has_tag(tag) ==> task.without_tag(tag) == task,
{
    task.tags.index_of_first_ensures(tag);
    match task.tags.index_of_first(tag) {
        Some(i) => {
            let after = task.tags.remove(i);
            assert forall|k: int| 0 <= k < after.len() implies after[k] != tag by {
                if k < i {
                    assert(after[k] == task.tags[k]);
                } else {
                    assert(after[k] == task.tags[k + 1]);
                }
            }
            assert forall|a: int, b: int| 0 <= a < after.len() && 0 <= b < after.len() && a != b implies after[a] != after[b] by {
                let a0 = if a < i { a } else { a + 1 };
                let b0 = if b < i { b } else { b + 1 };
                assert(after[a] == task.tags[a0]);
                assert(after[b] == task.tags[b0]);
            }
        },
        None => {},
    }
}

impl View for Task {
    type V = TaskView;

    open spec fn view(&self) -> TaskView {
        TaskView {
            id: self.id as nat,
            title: self.title@,
            description: self.description.deep_view(),
            tags: self.tags.deep_view(),
            status: self.status,
            created_at: self.created_at@,
            completed_at: self.completed_at.deep_view(),
            scheduled_for: self.scheduled_for.deep_view(),
            reminder_sent: self.reminder_sent,
            snoozed_until: self.snoozed_until.deep_view(),
            snooze_count: self.snooze_count as nat,
        }
    }
}

impl DeepView for Task {
    type V = TaskView;

    open spec fn deep_view(&self) -> TaskView {
        self.view()
    }
}

/// Finds the first tag equal to `tag`.
pub fn find_tag(tags: &Vec<String>, tag: &String) -> (r: Option<usize>)
    ensures
        match r {
            Some(i) => i < tags.len() && tags.deep_view().contains(tag@)
                && tags.deep_view().index_of_first(tag@) == Some(i as int),
            None => !tags.deep_view().contains(tag@)
                && tags.deep_view().index_of_first(tag@).is_none(),
        },
{
    let mut i: usize = 0;
    while i < tags.len()
        invariant
            i <= tags.len(),
            forall|j: int| 0 <= j < i ==> tags.deep_view()[j] != tag@,
        decreases tags.len() - i,
    {
        if tags[i] == *tag {
            proof {
                let s = tags.deep_view();
                assert(s[i as int] == tag@);
                s.index_of_first_ensures(tag@);
            }
            return Some(i);
        }
        i += 1;
    }
    proof {
        tags.deep_view().index_of_first_ensures(tag@);
    }
    None
}

/// Copies a list of strings.
pub(crate) fn copy_strings(items: &Vec<String>) -> (copy: Vec<String>)
    ensures
        copy.deep_view() == items.deep_view(),
{
    let mut copy: Vec<String> = Vec::new();
    let mut i: usize = 0;
    while i < items.len()
        invariant
            i <= items.len(),
            copy.deep_view() =~= items.deep_view().take(i as int),
        decreases items.len() - i,
    {
        let item = items[i].clone();
        assert(items.deep_view().take(i as int + 1) =~= items.deep_view().take(i as int).push(item@));
        copy.push(item);
        i += 1;
    }
    assert(items.deep_view().take(i as int) =~= items.deep_view());
    copy
}

/// Copies a text that may be absent.
pub(crate) fn copy_text(text: &Option<String>) -> (copy: Option<String>)
    ensures
        copy.deep_view() == text.deep_view(),
{
    match text {
        Some(t) => Some(t.clone()),
        None => None,
    }
}

impl Clone for Task {
    fn clone(&self) -> (copy: Task)
        ensures
            copy@ == self@,
    {
        Task {
            id: self.id,
            title: self.title.clone(),
            description: copy_text(&self.description),
            tags: copy_strings(&self.tags),
            status: self.status,
            created_at: self.created_at,
            completed_at: self.completed_at,
            scheduled_for: self.scheduled_for,
            reminder_sent: self.reminder_sent,
            snoozed_until: self.snoozed_until,
            snooze_count: self.snooze_count,
        }
    }
}

impl Task {
    /// Builds a pending task created at `created_at`.
    pub fn new_at(
        id: u64,
        title: String,
        description: Option<String>,
        tags: Vec<String>,
        created_at: Timestamp,
    ) -> (task: Task)
        ensures
            task@ == TaskView::fresh(
                id as nat,
                title@,
                description.deep_view(),
                tags.deep_view(),
                created_at@,
            ),
    {
        Task {
            id,
            title,
            description,
            tags,
            status: TaskStatus::Pending,
            created_at,
            completed_at: None,
            scheduled_for: None,
            reminder_sent: false,
            snoozed_until: None,
            snooze_count: 0,
        }
    }

    /// Builds a pending task without tags, created now.
    pub fn new(id: u64, title: String, description: Option<String>) -> (task: Task)
        ensures
            task@ == TaskView::fresh(
                id as nat,
                title@,
                description.deep_view(),
                Seq::empty(),
                task@.created_at,
            ),
            task@.created_at.in_calendar(),
    {
        Task::new_at(id, title, description, Vec::new(), now())
    }

    /// Builds a pending task with the given tags, kept as they are, created
    /// now.
    pub fn new_with_tags(
        id: u64,
        title: String,
        description: Option<String>,
        tags: Vec<String>,
    ) -> (task: Task)
        ensures
            task@ == TaskView::fresh(
                id as nat,
                title@,
                description.deep_view(),
                tags.deep_view(),
                task@.created_at,
            ),
            task@.created_at.in_calendar(),
    {
        Task::new_at(id, title, description, tags, now())
    }

    /// Marks the task completed at `now`.
    pub fn complete_at(&mut self, now: Timestamp)
        ensures
            final(self)@ == old(self)@.completed(now@),
    {
        self.status = TaskStatus::Completed;
        self.completed_at = Some(now);
    }

    /// Marks the task completed at the clock's reading.
    pub fn complete(&mut self)
        ensures
            exists|now: Instant| now.in_calendar() && final(self)@ == #[trigger] old(self)@.completed(now),
    {
        let t = now();
        self.complete_at(t);
        assert(self@ == old(self)@.completed(t@));
    }

    /// Tells whether the task is completed.
    pub fn is_completed(&self) -> (b: bool)
        ensures
            b == self@.is_completed(),
    {
        self.status == TaskStatus::Completed
    }

    /// Appends `tag` unless the task already carries it.
    pub fn add_tag(&mut self, tag: String)
        ensures
            final(self)@ == old(self)@.with_tag(tag@),
    {
        if find_tag(&self.tags, &tag).is_none() {
            self.tags.push(tag);
            assert(self.tags.deep_view() =~= old(self).tags.deep_view().push(tag@));
        }
    }

    /// Removes the first occurrence of `tag` and tells whether there was
    /// one.
    pub fn remove_tag(&mut self, tag: &str) -> (removed: bool)
        ensures
            removed == old(self)@.has_tag(tag@),
            final(self)@ == old(self)@.without_tag(tag@),
    {
        let wanted = tag.to_owned();
        match find_tag(&self.tags, &wanted) {
            Some(pos) => {
                self.tags.remove(pos);
                assert(self.tags.deep_view() =~= old(self).tags.deep_view().remove(pos as int));
                true
            },
            None => false,
        }
    }

    /// Tells whether the task carries `tag`, letter for letter.
    pub fn has_tag(&self, tag: &str) -> (b: bool)
        ensures
            b == self@.has_tag(tag@),
    {
        let wanted = tag.to_owned();
        find_tag(&self.tags, &wanted).is_some()
    }

    /// The tags, in the order they were added.
    pub fn get_tags(&self) -> (tags: &Vec<String>)
        ensures
            *tags == self.tags,
            tags.deep_view() == self@.tags,
    {
        &self.tags
    }

    /// Removes every tag.
    pub fn clear_tags(&mut self)
        ensures
            final(self)@ == old(self)@.without_tags(),
    {
        self.tags.clear();
    }

    /// Replaces the title and the description where one is given, and the
    /// tags where `tags` is not empty.
    pub fn edit(&mut self, title: Option<String>, description: Option<String>, tags: Vec<String>)
        ensures
            final(self)@ == old(self)@.edited(
                title.deep_view(),
                description.deep_view(),
                tags.deep_view(),
            ),
    {
        if let Some(t) = title {
            self.title = t;
        }
        if description.is_some() {
            self.description = description;
        }
        if !tags.is_empty() {
            self.clear_tags();
            let ghost cleared = self@;
            let mut i: usize = 0;
            assert(tags.deep_view().take(0) =~= Seq::empty());
            while i < tags.len()
                invariant
                    i <= tags.len(),
                    self@ == cleared.with_tags(tags.deep_view().take(i as int)),
                decreases tags.len() - i,
            {
                let tag = tags[i].clone();
                proof {
                    let upto = tags.deep_view().take(i as int + 1);
                    assert(upto.drop_last() =~= tags.deep_view().take(i as int));
                    assert(upto.last() == tag@);
                }
                self.add_tag(tag);
                i += 1;
            }
            assert(tags.deep_view().take(i as int) =~= tags.deep_view());
        }
    }

    /// Schedules a reminder for `deadline` and arms it.
    pub fn schedule_for(&mut self, deadline: Timestamp)
        ensures
            final(self)@ == old(self)@.scheduled(deadline@),
    {
        self.scheduled_for = Some(deadline);
        self.reminder_sent = false;
    }

    /// Defers the reminder to `minutes` minutes after `now`.
    pub fn snooze_at(&mut self, now: Timestamp, minutes: i64)
        requires
            now@.plus_minutes(minutes as int).representable(),
            old(self).snooze_count < u32::MAX,
        ensures
            final(self)@ == old(self)@.snoozed(now@, minutes as int),
    {
        self.snoozed_until = Some(now.add_minutes(minutes));
        self.snooze_count = self.snooze_count + 1;
    }

    /// Defers the reminder to `minutes` minutes after the clock's reading.
    pub fn snooze(&mut self, minutes: i64)
        requires
            -MAX_SNOOZE_MINUTES <= minutes <= MAX_SNOOZE_MINUTES,
            old(self).snooze_count < u32::MAX,
        ensures
            exists|now: Instant| now.in_calendar() && final(self)@ == #[trigger] old(self)@.snoozed(now, minutes as int),
    {
        let t = now();
        self.snooze_at(t, minutes);
        assert(self@ == old(self)@.snoozed(t@, minutes as int));
    }

    /// Tells whether a reminder is due at `now`.
    pub fn is_due_at(&self, now: Timestamp) -> (due: bool)
        ensures
            due == self@.due_at(now@),
    {
        match self.snoozed_until {
            Some(until) => until.is_at_or_before(&now),
            None => match self.scheduled_for {
                Some(deadline) => deadline.is_at_or_before(&now) && !self.reminder_sent,
                None => false,
            },
        }
    }

    /// Tells whether a reminder is due at the clock's reading.
    pub fn is_due(&self) -> (due: bool)
        ensures
            exists|now: Instant| now.in_calendar() && due == #[trigger] self@.due_at(now),
            !self@.has_deadline() ==> !due,
    {
        let t = now();
        let due = self.is_due_at(t);
        assert(due == self@.due_at(t@));
        due
    }

    /// Marks the reminder of the schedule as sent.
    pub fn mark_reminder_sent(&mut self)
        ensures
            final(self)@ == old(self)@.reminder_marked(),
    {
        self.reminder_sent = true;
    }

    /// Removes the snooze.
    pub fn clear_snooze(&mut self)
        ensures
            final(self)@ == old(self)@.snooze_cleared(),
    {
        self.snoozed_until = None;
    }
}

} // verus!

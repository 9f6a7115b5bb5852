//! The scheduler: whether its background worker runs, and what one poll of
//! the store does.
use vstd::prelude::*;
use crate::clock::Instant;
use crate::clock::Timestamp;
use crate::clock::now;
use crate::storage::StoreView;
use crate::storage::TaskStorage;
use crate::task::Task;
use crate::task::TaskView;
use crate::task::copy_strings;
use crate::task::copy_text;

verus! {

/// The seconds that the worker sleeps between two polls.
pub const POLL_INTERVAL_SECS: u64 = 30;

/// What the delivery sink is handed for a due task.
#[derive(Debug)]
pub struct Reminder {
    pub id: u64,
    pub title: String,
    pub description: Option<String>,
    pub scheduled_for: Option<Timestamp>,
    pub tags: Vec<String>,
}

/// The mathematical value of a reminder.
#[verifier::ext_equal]
pub struct ReminderView {
    pub id: nat,
    pub title: Seq<char>,
    pub description: Option<Seq<char>>,
    pub scheduled_for: Option<Instant>,
    pub tags: Seq<Seq<char>>,
}

impl View for Reminder {
    type V = ReminderView;

    open spec fn view(&self) -> ReminderView {
        ReminderView {
            id: self.id as nat,
            title: self.title@,
            description: self.description.deep_view(),
            scheduled_for: self.scheduled_for.deep_view(),
            tags: self.tags.deep_view(),
        }
    }
}

impl DeepView for Reminder {
    type V = ReminderView;

    open spec fn deep_view(&self) -> ReminderView {
        self.view()
    }
}

impl TaskView {
    /// What a reminder of the task shows.
    pub open spec fn reminder(self) -> ReminderView {
        ReminderView {
            id: self.id,
            title: self.title,
            description: self.description,
            scheduled_for: self.scheduled_for,
            tags: self.tags,
        }
    }

    /// Whether a poll at `now` reminds of the task: it is not completed,
    /// and due.
    pub open spec fn fires_at(self, now: Instant) -> bool {
        !self.is_completed() && self.due_at(now)
    }

    /// The task after a reminder of it was handed out: the reminder of the
    /// schedule counts as sent, and the snooze is over.
    pub open spec fn reminded(self) -> TaskView {
        self.reminder_marked().snooze_cleared()
    }

    /// The task after a poll at `now`.
    pub open spec fn polled(self, now: Instant) -> TaskView {
        if self.fires_at(now) {
            self.reminded()
        } else {
            self
        }
    }

    /// Whether a poll at `later` reminds of the task although a poll at
    /// `now` did not.
    pub open spec fn fires_anew(self, now: Instant, later: Instant) -> bool {
        !self.fires_at(now) && self.fires_at(later)
    }
}

impl StoreView {
    /// The store after a poll at `now`: every task that fires is left as
    /// reminded, with its reminder marked as sent and its snooze cleared.
    pub open spec fn polled(self, now: Instant) -> StoreView {
        StoreView { tasks: self.tasks.map_values(|t: TaskView| t.polled(now)), ..self }
    }

    /// The reminders that a poll at `now` hands out, in store order.
    pub open spec fn due_reminders(self, now: Instant) -> Seq<ReminderView> {
        self.tasks.filter(|t: TaskView| t.fires_at(now)).map_values(|t: TaskView| t.reminder())
    }

    /// The reminders of the tasks that fire at `later` and did not at `now`,
    /// in store order.
    pub open spec fn new_reminders(self, now: Instant, later: Instant) -> Seq<ReminderView> {
        self.tasks.filter(|t: TaskView| t.fires_anew(now, later)).map_values(
            |t: TaskView| t.reminder(),
        )
    }
}

/// A task fires once: after the poll that reminded of it, through its
/// schedule or through its snooze, no poll at whatever time reminds of it
/// again until it is scheduled or snoozed anew.  A task that did not fire is
/// left as it was.
pub proof fn lemma_poll_fires_once(task: TaskView, now: Instant, later: Instant)
    ensures
        task.fires_at(now) ==> !task.polled(now).fires_at(later),
        task.fires_at(now) ==> task.polled(now).snoozed_until.is_none() && task.polled(
            now,
        ).reminder_sent,
        !task.fires_at(now) ==> task.polled(now) == task,
        task.polled(now).fires_at(later) == task.fires_anew(now, later),
        task.polled(now).id == task.id,
        task.polled(now).reminder() == task.reminder(),
{
}

/// A poll changes nothing but sent flags and snoozes: the ids, their order
/// and the next id stay, so a well-formed store stays well formed.
pub proof fn lemma_polled(s: StoreView, now: Instant)
    ensures
        s.polled(now).next_id == s.next_id,
        s.polled(now).tasks.len() == s.tasks.len(),
        forall|i: int| 0 <= i < s.tasks.len() ==> (#[trigger] s.polled(now).tasks[i]) == s.tasks[i].polled(now),
        s.due_reminders(now).len() <= s.tasks.len(),
        s.wf() ==> s.polled(now).wf(),
        s.ids_distinct() ==> s.polled(now).ids_distinct(),
{
    s.tasks.lemma_filter_len(|t: TaskView| t.fires_at(now));
    if s.wf() {
        assert forall|i: int| 0 <= i < s.polled(now).tasks.len() implies (#[trigger] s.polled(now).tasks[i]).id < s.polled(now).next_id by {
            assert(s.tasks[i].id < s.next_id);
        }
    }
    if s.ids_distinct() {
        assert forall|a: int, b: int| 0 <= a < b < s.polled(now).tasks.len() implies (#[trigger] s.polled(now).tasks[a]).id != (#[trigger] s.polled(now).tasks[b]).id by {
            assert(s.tasks[a].id != s.tasks[b].id);
        }
    }
}

/// Polled tasks that fire at `later` are the tasks that fire anew, and
/// their reminders are the same.
proof fn lemma_polled_then_due(tasks: Seq<TaskView>, now: Instant, later: Instant)
    ensures
        tasks.map_values(|t: TaskView| t.polled(now)).filter(|t: TaskView| t.fires_at(later)).map_values(
            |t: TaskView| t.reminder(),
        ) == tasks.filter(|t: TaskView| t.fires_anew(now, later)).map_values(
            |t: TaskView| t.reminder(),
        ),
    decreases tasks.len(),
{
    let poll = |t: TaskView| t.polled(now);
    let fires = |t: TaskView| t.fires_at(later);
    let anew = |t: TaskView| t.fires_anew(now, later);
    let show = |t: TaskView| t.reminder();
    if tasks.len() == 0 {
        assert(tasks.map_values(poll) =~= Seq::<TaskView>::empty());
        assert(tasks.map_values(poll).filter(fires) =~= Seq::<TaskView>::empty()) by {
            reveal(Seq::filter);
        }
        assert(tasks.filter(anew) =~= Seq::<TaskView>::empty()) by {
            reveal(Seq::filter);
        }
        assert(tasks.map_values(poll).filter(fires).map_values(show) =~= tasks.filter(anew).map_values(
            show,
        ));
    } else {
        let rest = tasks.drop_last();
        let last = tasks.last();
        lemma_polled_then_due(rest, now, later);
        lemma_poll_fires_once(last, now, later);
        assert(tasks =~= rest.push(last));
        assert(tasks.map_values(poll) =~= rest.map_values(poll).push(last.polled(now)));
        rest.map_values(poll).lemma_filter_push(last.polled(now), fires);
        rest.lemma_filter_push(last, anew);
        if last.fires_anew(now, later) {
            assert(rest.map_values(poll).filter(fires).push(last.polled(now)).map_values(show)
                =~= rest.map_values(poll).filter(fires).map_values(show).push(last.reminder()));
            assert(rest.filter(anew).push(last).map_values(show) =~= rest.filter(anew).map_values(
                show,
            ).push(last.reminder()));
        }
    }
}

/// After a poll at `now`, a poll at any `later` reading hands out reminders
/// only of the tasks that fire then and did not fire at `now`: no task that
/// the first poll reminded of is reminded of again.  In particular a second
/// poll at the same reading hands out nothing and changes nothing.
pub proof fn lemma_later_poll(s: StoreView, now: Instant, later: Instant)
    ensures
        s.polled(now).due_reminders(later) == s.new_reminders(now, later),
        forall|i: int|
            0 <= i < s.tasks.len() && (#[trigger] s.tasks[i]).fires_at(now) ==> !s.polled(
                now,
            ).tasks[i].fires_at(later),
        s.polled(now).due_reminders(now).len() == 0,
        s.polled(now).polled(now) == s.polled(now),
{
    lemma_polled_then_due(s.tasks, now, later);
    lemma_polled_then_due(s.tasks, now, now);
    let once = s.polled(now);
    assert forall|i: int| 0 <= i < s.tasks.len() implies !(#[trigger] s.tasks[i]).fires_anew(now, now) by {
    }
    lemma_none_fire(s.tasks, |t: TaskView| t.fires_anew(now, now));
    assert forall|i: int| 0 <= i < once.tasks.len() implies (#[trigger] once.polled(now).tasks[i])
        == once.tasks[i] by {
        lemma_poll_fires_once(s.tasks[i], now, now);
    }
    assert(once.polled(now).tasks =~= once.tasks);
}

/// A filter that no element passes keeps nothing.
proof fn lemma_none_fire(s: Seq<TaskView>, keep: spec_fn(TaskView) -> bool)
    requires
        forall|i: int| 0 <= i < s.len() ==> !keep(#[trigger] s[i]),
    ensures
        s.filter(keep).len() == 0,
    decreases s.len(),
{
    reveal(Seq::filter);
    if s.len() > 0 {
        let rest = s.drop_last();
        assert forall|i: int| 0 <= i < rest.len() implies !keep(#[trigger] rest[i]) by {
            assert(rest[i] == s[i]);
        }
        lemma_none_fire(rest, keep);
    }
}

impl Reminder {
    /// The reminder of `task`.
    pub fn of(task: &Task) -> (reminder: Reminder)
        ensures
            reminder@ == task@.reminder(),
    {
        Reminder {
            id: task.id,
            title: task.title.clone(),
            description: copy_text(&task.description),
            scheduled_for: task.scheduled_for,
            tags: copy_strings(&task.tags),
        }
    }
}

impl Clone for Reminder {
    fn clone(&self) -> (copy: Reminder)
        ensures
            copy@ == self@,
    {
        Reminder {
            id: self.id,
            title: self.title.clone(),
            description: copy_text(&self.description),
            scheduled_for: self.scheduled_for,
            tags: copy_strings(&self.tags),
        }
    }
}

/// The two states of a scheduler.
#[derive(Debug, Clone, Copy, PartialEq, Eq, Structural)]
pub enum SchedulerState {
    Stopped,
    Running,
}

/// What a scheduler can be told.
#[derive(Debug, Clone, Copy, PartialEq, Eq, Structural)]
pub enum SchedulerCommand {
    Start,
    Stop,
}

impl SchedulerState {
    /// Whether a start in this state asks for a new worker: only a stopped
    /// scheduler has none.
    pub open spec fn wants_worker(self) -> bool {
        self == SchedulerState::Stopped
    }

    /// The state after one command.
    pub open spec fn told(self, command: SchedulerCommand) -> SchedulerState {
        match command {
            SchedulerCommand::Start => SchedulerState::Running,
            SchedulerCommand::Stop => SchedulerState::Stopped,
        }
    }

    /// The state after the commands of `commands` in turn.
    pub open spec fn after(self, commands: Seq<SchedulerCommand>) -> SchedulerState
        decreases commands.len(),
    {
        if commands.len() == 0 {
            self
        } else {
            self.after(commands.drop_last()).told(commands.last())
        }
    }

    /// How many workers the starts among `commands` ask for.
    pub open spec fn workers_asked(self, commands: Seq<SchedulerCommand>) -> nat
        decreases commands.len(),
    {
        if commands.len() == 0 {
            0
        } else {
            let earlier = self.workers_asked(commands.drop_last());
            if commands.last() == SchedulerCommand::Start && self.after(
                commands.drop_last(),
            ).wants_worker() {
                earlier + 1
            } else {
                earlier
            }
        }
    }
}

/// How many of `commands` are stops.
pub open spec fn stops(commands: Seq<SchedulerCommand>) -> nat
    decreases commands.len(),
{
    if commands.len() == 0 {
        0
    } else if commands.last() == SchedulerCommand::Stop {
        stops(commands.drop_last()) + 1
    } else {
        stops(commands.drop_last())
    }
}

/// Of two starts in a row, the second asks for no worker.
pub proof fn lemma_second_start_wants_no_worker(state: SchedulerState)
    ensures
        !state.told(SchedulerCommand::Start).wants_worker(),
        state.told(SchedulerCommand::Start).told(SchedulerCommand::Start) == SchedulerState::Running,
{
}

/// Over any run of commands, a worker is asked for at most once per stop,
/// and once more where the scheduler was stopped at first: between two
/// stops there is never a second worker.
pub proof fn lemma_one_worker_per_run(state: SchedulerState, commands: Seq<SchedulerCommand>)
    ensures
        state.workers_asked(commands) + (if state.after(commands).wants_worker() {
            1nat
        } else {
            0nat
        }) <= stops(commands) + (if state.wants_worker() {
            1nat
        } else {
            0nat
        }),
    decreases commands.len(),
{
    if commands.len() > 0 {
        lemma_one_worker_per_run(state, commands.drop_last());
    }
}

/// Whether the background worker is meant to run.  A scheduler starts out
/// stopped.
#[derive(Debug)]
pub struct Scheduler {
    running: bool,
}

impl View for Scheduler {
    type V = SchedulerState;

    closed spec fn view(&self) -> SchedulerState {
        if self.running {
            SchedulerState::Running
        } else {
            SchedulerState::Stopped
        }
    }
}

impl Scheduler {
    /// A stopped scheduler.
    pub fn new() -> (scheduler: Scheduler)
        ensures
            scheduler@ == SchedulerState::Stopped,
    {
        Scheduler { running: false }
    }

    /// Tells whether the worker is meant to run.
    pub fn is_running(&self) -> (running: bool)
        ensures
            running == (self@ == SchedulerState::Running),
    {
        self.running
    }

    /// Starts the scheduler.  Returns whether the caller has to start a
    /// worker: it has to exactly if the scheduler was stopped.
    pub fn start(&mut self) -> (spawn: bool)
        ensures
            final(self)@ == old(self)@.told(SchedulerCommand::Start),
            spawn == old(self)@.wants_worker(),
    {
        if self.running {
            false
        } else {
            self.running = true;
            true
        }
    }

    /// Stops the scheduler.  A worker that asks `is_running` before and
    /// after each sleep sees it within one interval, and ends.
    pub fn stop(&mut self)
        ensures
            final(self)@ == old(self)@.told(SchedulerCommand::Stop),
    {
        self.running = false;
    }

    /// Polls the store at `now`: collects a reminder for every task that is
    /// not completed and due, in store order, marks each as sent and ends
    /// its snooze, so that each deadline is reminded of once.
    pub fn check_due_tasks_at(storage: &mut TaskStorage, now: Timestamp) -> (reminders: Vec<Reminder>)
        ensures
            final(storage)@ == old(storage)@.polled(now@),
            reminders.deep_view() == old(storage)@.due_reminders(now@),
    {
        let ghost before = storage@;
        let ghost fires = |t: TaskView| t.fires_at(now@);
        let ghost show = |t: TaskView| t.reminder();
        let mut reminders: Vec<Reminder> = Vec::new();
        let mut i: usize = 0;
        proof {
            assert(before.tasks.take(0).filter(fires) =~= Seq::<TaskView>::empty()) by {
                reveal(Seq::filter);
            }
        }
        while i < storage.tasks.len()
            invariant
                i <= storage.tasks.len(),
                storage@.next_id == before.next_id,
                storage@.tasks.len() == before.tasks.len(),
                forall|j: int| 0 <= j < i ==> (#[trigger] storage@.tasks[j]) == before.tasks[j].polled(now@),
                forall|j: int| i <= j < before.tasks.len() ==> (#[trigger] storage@.tasks[j]) == before.tasks[j],
                reminders.deep_view() =~= before.tasks.take(i as int).filter(fires).map_values(show),
                fires == |t: TaskView| t.fires_at(now@),
                show == |t: TaskView| t.reminder(),
            decreases storage.tasks.len() - i,
        {
            proof {
                assert(before.tasks.take(i as int + 1) =~= before.tasks.take(i as int).push(
                    before.tasks[i as int],
                ));
                before.tasks.take(i as int).lemma_filter_push(before.tasks[i as int], fires);
                assert(storage@.tasks[i as int] == before.tasks[i as int]);
            }
            let ghost seen = storage@.tasks;
            let ghost fired = before.tasks.take(i as int).filter(fires);
            if !storage.tasks[i].is_completed() && storage.tasks[i].is_due_at(now) {
                let reminder = Reminder::of(&storage.tasks[i]);
                assert(fired.push(before.tasks[i as int]).map_values(show) =~= fired.map_values(show).push(
                    reminder@,
                ));
                reminders.push(reminder);
                storage.tasks[i].mark_reminder_sent();
                storage.tasks[i].clear_snooze();
                assert(storage@.tasks =~= seen.update(i as int, seen[i as int].reminded()));
            }
            i += 1;
        }
        assert(before.tasks.take(i as int) =~= before.tasks);
        assert(storage@.tasks =~= before.polled(now@).tasks);
        reminders
    }

    /// Polls the store at the clock's reading.
    pub fn check_due_tasks(storage: &mut TaskStorage) -> (reminders: Vec<Reminder>)
        ensures
            exists|now: Instant|
                now.in_calendar() && final(storage)@ == #[trigger] old(storage)@.polled(now)
                    && reminders.deep_view() == old(storage)@.due_reminders(now),
    {
        let t = now();
        let reminders = Scheduler::check_due_tasks_at(storage, t);
        assert(storage@ == old(storage)@.polled(t@));
        reminders
    }
}

} // verus!

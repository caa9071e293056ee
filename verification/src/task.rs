use vstd::prelude::*;
use crate::date::Clock;
use crate::day::{Day, DayReference, day_time_spec, reference_id};
use crate::error::Error;
use crate::text::{trim_spec, trimmed_nonempty};
use crate::time::Time;

verus! {

/// One timed activity: an interval of a day with a description. The day is
/// referenced by identifier in storage and carries the full value once the
/// task has been materialized for a known day.
#[derive(Debug)]
pub struct Task {
    pub id: u64,
    pub day: DayReference,
    pub start: Time,
    pub end: Option<Time>,
    pub description: String,
}

impl Clone for Task {
    fn clone(&self) -> (r: Task)
        ensures
            r == *self,
    {
        Task {
            id: self.id,
            day: self.day,
            start: self.start,
            end: self.end,
            description: self.description.clone(),
        }
    }
}

/// `t` with its day reference upgraded to the full value `day`.
pub open spec fn with_day_spec(t: Task, day: Day) -> Task {
    Task {
        id: t.id,
        day: DayReference::Value(day),
        start: t.start,
        end: t.end,
        description: t.description,
    }
}

/// `t` as the store keeps it: the day reduced to its identifier.
pub open spec fn store_row(t: Task) -> Task {
    Task {
        id: t.id,
        day: DayReference::Id(reference_id(t.day)),
        start: t.start,
        end: t.end,
        description: t.description,
    }
}

/// `t` closed at `time`.
pub open spec fn closed_at(t: Task, time: Time) -> Task {
    Task { id: t.id, day: t.day, start: t.start, end: Some(time), description: t.description }
}

/// The task's effective end: its end time if set, else the closing time of
/// its day (now while the day is today, the day's last second once past).
pub open spec fn eff_end_spec(t: Task, day: Day, clock: Clock) -> Time {
    match t.end {
        Some(e) => e,
        None => day_time_spec(day, clock),
    }
}

/// The task's times are coherent: the start lies within the day, and the
/// end, when present, does too and comes strictly after the start.
pub open spec fn task_times_wf(t: Task) -> bool {
    &&& t.start.valid()
    &&& match t.end {
        Some(e) => e.valid() && t.start.seconds < e.seconds,
        None => true,
    }
}

/// A task value the store accepts for writing: coherent times and a
/// trimmed, non-empty description.
pub open spec fn task_value_wf(t: Task) -> bool {
    &&& task_times_wf(t)
    &&& trimmed_nonempty(t.description@)
}

/// A row at rest in the store: a well-formed value referencing its day by
/// identifier.
pub open spec fn task_row_wf(t: Task) -> bool {
    &&& task_value_wf(t)
    &&& t.day is Id
}

impl Task {
    pub fn new(id: u64, day: DayReference, start: Time, end: Option<Time>, description: String) -> (r:
        Task)
        ensures
            r == (Task { id, day, start, end, description }),
    {
        Task { id, day, start, end, description }
    }

    pub fn id(&self) -> (r: u64)
        ensures
            r == self.id,
    {
        self.id
    }

    pub fn description(&self) -> (r: &str)
        ensures
            r@ == self.description@,
    {
        self.description.as_str()
    }

    pub fn start(&self) -> (r: Time)
        ensures
            r == self.start,
    {
        self.start
    }

    pub fn end(&self) -> (r: Option<Time>)
        ensures
            r == self.end,
    {
        self.end
    }

    /// Whether the activity is still running.
    pub fn is_active(&self) -> (r: bool)
        ensures
            r == (self.end is None),
    {
        self.end.is_none()
    }

    /// The identifier of the owning day.
    pub fn day_id(&self) -> (r: u64)
        ensures
            r == reference_id(self.day),
    {
        self.day.id()
    }

    /// The reference to the owning day.
    pub fn day(&self) -> (r: DayReference)
        ensures
            r == self.day,
    {
        self.day
    }

    /// The effective end: the end time if set, else the day's closing
    /// time. The owning day must be known by
    /// value to tell whether it is today.
    pub fn end_or_day_time(&self, clock: &Clock) -> (r: Time)
        requires
            clock.valid(),
            self.day is Value,
        ensures
            r == eff_end_spec(*self, self.day->Value_0, *clock),
    {
        match self.end {
            Some(e) => e,
            None => {
                let day = match self.day {
                    DayReference::Value(day) => day,
                    DayReference::Id(_) => {
                        proof {
                            assert(false);
                        }
                        Day::new(0, crate::date::Date { days: 0 })
                    },
                };
                day.time(clock)
            },
        }
    }

    /// The elapsed duration, in seconds: effective end minus start. Never
    /// negative while the clock has not fallen behind the task's start.
    pub fn delta(&self, clock: &Clock) -> (r: u64)
        requires
            clock.valid(),
            self.day is Value,
            task_times_wf(*self),
            self.start.seconds <= eff_end_spec(*self, self.day->Value_0, *clock).seconds,
        ensures
            r == eff_end_spec(*self, self.day->Value_0, *clock).seconds - self.start.seconds,
    {
        let end = self.end_or_day_time(clock);
        (end.seconds - self.start.seconds) as u64
    }
}

/// The mutators of task values: bare field replacements, used by the
/// repository after it has validated what it writes.
pub struct MutTask {}

impl MutTask {
    /// Attaches a known day value to a stored row.
    pub fn with_day(task: Task, day: Day) -> (r: Task)
        ensures
            r == with_day_spec(task, day),
    {
        Task {
            id: task.id,
            day: DayReference::Value(day),
            start: task.start,
            end: task.end,
            description: task.description,
        }
    }

    /// Replaces the description, exactly as given.
    pub fn set_description(task: &mut Task, description: &str)
        ensures
            final(task).id == old(task).id,
            final(task).day == old(task).day,
            final(task).start == old(task).start,
            final(task).end == old(task).end,
            final(task).description@ == description@,
    {
        task.description = description.to_owned();
    }

    /// Replaces the start time.
    pub fn set_start(task: &mut Task, time: Time)
        ensures
            *final(task) == (Task {
                id: old(task).id,
                day: old(task).day,
                start: time,
                end: old(task).end,
                description: old(task).description,
            }),
    {
        task.start = time;
    }

    /// Closes the task at `time`.
    pub fn set_end(task: &mut Task, time: Time)
        ensures
            *final(task) == closed_at(*old(task), time),
    {
        task.end = Some(time);
    }
}

/// Whether the row `t` belongs to the day with identifier `day_id`.
pub open spec fn on_day(t: Task, day_id: u64) -> bool {
    reference_id(t.day) == day_id
}

/// Whether the row `t` is the running task of day `day_id`.
pub open spec fn active_row(t: Task, day_id: u64) -> bool {
    on_day(t, day_id) && t.end is None
}

/// Whether some row of `s` is the running task of day `day_id`.
pub open spec fn active_on(s: Seq<Task>, day_id: u64) -> bool {
    exists|i: int| 0 <= i < s.len() && active_row(s[i], day_id)
}

/// Rows the task store accepts: each row well formed, identifiers unique
/// and below the next to be handed out, and each day carrying at most one
/// running task.
pub open spec fn task_rows_wf(rows: Seq<Task>, next_id: u64) -> bool {
    &&& forall|i: int| 0 <= i < rows.len() ==> task_row_wf(#[trigger] rows[i])
    &&& forall|i: int| 0 <= i < rows.len() ==> (#[trigger] rows[i]).id < next_id
    &&& forall|i: int, j: int|
        0 <= i < j < rows.len() ==> (#[trigger] rows[i]).id != (#[trigger] rows[j]).id
    &&& forall|i: int, j: int|
        0 <= i < j < rows.len() && i != j ==> !((#[trigger] rows[i]).end is None && (
        #[trigger] rows[j]).end is None && reference_id(rows[i].day) == reference_id(rows[j].day))
}

/// The tasks of one day occupy non-overlapping stretches: any two closed
/// rows' intervals are disjoint, and every closed row ends at or before
/// the start of the day's running task.
pub open spec fn no_overlap(s: Seq<Task>, day_id: u64) -> bool {
    &&& forall|i: int, j: int|
        0 <= i < s.len() && 0 <= j < s.len() && i != j && on_day(#[trigger] s[i], day_id) && on_day(
            #[trigger] s[j],
            day_id,
        ) && s[i].end is Some && s[j].end is Some ==> s[i].end->0.seconds <= s[j].start.seconds
            || s[j].end->0.seconds <= s[i].start.seconds
    &&& forall|i: int, j: int|
        0 <= i < s.len() && 0 <= j < s.len() && i != j && on_day(#[trigger] s[i], day_id) && on_day(
            #[trigger] s[j],
            day_id,
        ) && s[i].end is None && s[j].end is Some ==> s[j].end->0.seconds <= s[i].start.seconds
}

/// Every closed row of day `day_id` ends at or before `t`: how a store
/// looks to a clock that has not fallen behind it.
pub open spec fn closed_ends_at_most(s: Seq<Task>, day_id: u64, t: Time) -> bool {
    forall|i: int|
        0 <= i < s.len() && on_day(#[trigger] s[i], day_id) && s[i].end is Some
            ==> s[i].end->0.seconds <= t.seconds
}

/// Every running row of day `day_id` starts strictly before `t`: what
/// stopping at `t` needs so that the closed row keeps a positive length.
pub open spec fn active_starts_before(s: Seq<Task>, day_id: u64, t: Time) -> bool {
    forall|i: int|
        0 <= i < s.len() && active_row(#[trigger] s[i], day_id) ==> s[i].start.seconds < t.seconds
}

/// The sole writer of task rows. Enforces the one-running-task-per-day
/// rule and keeps every stored description trimmed and non-empty.
pub struct TaskRepository {
    tasks: Vec<Task>,
    next: u64,
}

impl TaskRepository {
    /// The task rows, in insertion order.
    pub closed spec fn rows(&self) -> Seq<Task> {
        self.tasks@
    }

    /// The identifier the next created task will receive.
    pub closed spec fn next_id(&self) -> u64 {
        self.next
    }

    /// Well-formed: see `task_rows_wf`.
    pub open spec fn wf(&self) -> bool {
        task_rows_wf(self.rows(), self.next_id())
    }

    /// An empty store.
    pub fn new() -> (r: TaskRepository)
        ensures
            r.wf(),
            r.rows() == Seq::<Task>::empty(),
            r.next_id() == 1,
    {
        TaskRepository { tasks: Vec::new(), next: 1 }
    }

    /// Rebuilds a store from already persisted rows. Fails with
    /// `Validation` when the rows could not have come from this store: an
    /// ill-formed row, a duplicate identifier, an identifier at or above
    /// `next_id`, or a day with two running tasks.
    pub fn load(tasks: Vec<Task>, next_id: u64) -> (r: Result<TaskRepository, Error>)
        ensures
            match r {
                Ok(repo) => repo.wf() && repo.rows() == tasks@ && repo.next_id() == next_id,
                Err(e) => e == Error::Validation && !task_rows_wf(tasks@, next_id),
            },
    {
        let n = tasks.len();
        let mut i: usize = 0;
        while i < n
            invariant
                0 <= i <= n,
                n == tasks@.len(),
                forall|a: int|
                    0 <= a < i ==> task_row_wf(#[trigger] tasks@[a]) && tasks@[a].id < next_id,
                forall|a: int, b: int|
                    0 <= a < b < tasks@.len() && a < i ==> (#[trigger] tasks@[a]).id != (
                    #[trigger] tasks@[b]).id,
                forall|a: int, b: int|
                    0 <= a < b < tasks@.len() && a < i ==> !((#[trigger] tasks@[a]).end is None && (
                    #[trigger] tasks@[b]).end is None && reference_id(tasks@[a].day) == reference_id(
                        tasks@[b].day,
                    )),
            decreases n - i,
        {
            let row = &tasks[i];
            if row.id >= next_id {
                return Err(Error::Validation);
            }
            if !matches!(row.day, DayReference::Id(_)) {
                return Err(Error::Validation);
            }
            if row.start.seconds >= crate::time::SECONDS_PER_DAY {
                return Err(Error::Validation);
            }
            if let Some(e) = row.end {
                if e.seconds >= crate::time::SECONDS_PER_DAY || e.seconds <= row.start.seconds {
                    return Err(Error::Validation);
                }
            }
            let desc = row.description.as_str();
            let m = desc.unicode_len();
            if m == 0 {
                return Err(Error::Validation);
            }
            if crate::text::is_space(desc.get_char(0)) || crate::text::is_space(
                desc.get_char(m - 1),
            ) {
                return Err(Error::Validation);
            }
            let mut j: usize = i + 1;
            while j < n
                invariant
                    i < j <= n,
                    n == tasks@.len(),
                    i < n,
                    forall|b: int|
                        i < b < j ==> tasks@[i as int].id != (#[trigger] tasks@[b]).id,
                    forall|b: int|
                        i < b < j ==> !(tasks@[i as int].end is None && (
                        #[trigger] tasks@[b]).end is None && reference_id(tasks@[i as int].day)
                            == reference_id(tasks@[b].day)),
                decreases n - j,
            {
                if tasks[i].id == tasks[j].id {
                    return Err(Error::Validation);
                }
                if tasks[i].end.is_none() && tasks[j].end.is_none() && tasks[i].day.id()
                    == tasks[j].day.id() {
                    return Err(Error::Validation);
                }
                j = j + 1;
            }
            i = i + 1;
        }
        Ok(TaskRepository { tasks, next: next_id })
    }

    /// The identifier the next created task will receive.
    pub fn upcoming_id(&self) -> (r: u64)
        ensures
            r == self.next_id(),
    {
        self.next
    }

    /// Every task row, in insertion order: what a storage adapter
    /// persists.
    pub fn entries(&self) -> (r: &Vec<Task>)
        ensures
            r@ == self.rows(),
    {
        &self.tasks
    }

    /// The task with identifier `id`, as stored (day by identifier);
    /// fails with `NotFound` if absent.
    pub fn task(&self, id: u64) -> (r: Result<Task, Error>)
        ensures
            match r {
                Ok(t) => exists|i: int|
                    0 <= i < self.rows().len() && (#[trigger] self.rows()[i]).id == id && t
                        == self.rows()[i],
                Err(e) => e == Error::NotFound && forall|i: int|
                    0 <= i < self.rows().len() ==> (#[trigger] self.rows()[i]).id != id,
            },
    {
        let n = self.tasks.len();
        let mut i: usize = 0;
        while i < n
            invariant
                0 <= i <= n,
                n == self.tasks@.len(),
                forall|j: int| 0 <= j < i ==> (#[trigger] self.tasks@[j]).id != id,
            decreases n - i,
        {
            if self.tasks[i].id == id {
                return Ok(self.tasks[i].clone());
            }
            i = i + 1;
        }
        Err(Error::NotFound)
    }

    /// The running task of `day`, materialized with the day value; fails
    /// with `NoActiveTask` while the day is idle.
    pub fn current(&self, day: Day) -> (r: Result<Task, Error>)
        ensures
            match r {
                Ok(t) => exists|i: int|
                    0 <= i < self.rows().len() && active_row(#[trigger] self.rows()[i], day.id) && t
                        == with_day_spec(self.rows()[i], day),
                Err(e) => e == Error::NoActiveTask && !active_on(self.rows(), day.id),
            },
    {
        let n = self.tasks.len();
        let mut i: usize = 0;
        while i < n
            invariant
                0 <= i <= n,
                n == self.tasks@.len(),
                forall|j: int| 0 <= j < i ==> !active_row(#[trigger] self.tasks@[j], day.id),
            decreases n - i,
        {
            let row = &self.tasks[i];
            if row.end.is_none() && row.day.id() == day.id {
                let t = MutTask::with_day(row.clone(), day);
                proof {
                    assert(active_row(self.rows()[i as int], day.id));
                    assert(t == with_day_spec(self.rows()[i as int], day));
                }
                return Ok(t);
            }
            i = i + 1;
        }
        Err(Error::NoActiveTask)
    }

    /// The day together with all of its tasks, each materialized with the
    /// day value, in stored order.
    pub fn day_with_tasks(&self, day: Day) -> (r: crate::aggregate::DayWithTasks)
        ensures
            r.spec_day() == day,
            r.spec_tasks() == self.rows().filter(|t: Task| on_day(t, day.id)).map_values(
                |t: Task| with_day_spec(t, day),
            ),
    {
        let n = self.tasks.len();
        let mut picked: Vec<Task> = Vec::new();
        let ghost pred = |t: Task| on_day(t, day.id);
        let ghost lift = |t: Task| with_day_spec(t, day);
        proof {
            assert(self.rows().take(0) =~= Seq::<Task>::empty());
            assert(Seq::<Task>::empty().filter(pred) =~= Seq::<Task>::empty());
            assert(picked@ =~= Seq::<Task>::empty().map_values(lift));
        }
        let mut i: usize = 0;
        while i < n
            invariant
                0 <= i <= n,
                n == self.rows().len(),
                pred == (|t: Task| on_day(t, day.id)),
                lift == (|t: Task| with_day_spec(t, day)),
                picked@ == self.rows().take(i as int).filter(pred).map_values(lift),
            decreases n - i,
        {
            let ghost before = self.rows().take(i as int);
            let ghost after = self.rows().take(i + 1);
            proof {
                assert(after.drop_last() == before);
                assert(after.last() == self.rows()[i as int]);
            }
            let row = &self.tasks[i];
            if row.day.id() == day.id {
                picked.push(MutTask::with_day(row.clone(), day));
                proof {
                    reveal_with_fuel(Seq::filter, 2);
                    assert(pred(after.last()));
                    assert(after.filter(pred) == before.filter(pred).push(self.rows()[i as int]));
                    assert(picked@ =~= after.filter(pred).map_values(lift));
                }
            } else {
                proof {
                    reveal_with_fuel(Seq::filter, 2);
                    assert(!pred(after.last()));
                    assert(after.filter(pred) == before.filter(pred));
                }
            }
            i = i + 1;
        }
        proof {
            assert(self.rows().take(n as int) == self.rows());
        }
        crate::aggregate::DayWithTasks::new(day, picked)
    }

    /// Writes `task` over the row carrying its identifier, reducing the
    /// day reference to the identifier; rows with other identifiers stay.
    fn save(&mut self, task: &Task)
        ensures
            final(self).rows().len() == old(self).rows().len(),
            final(self).next_id() == old(self).next_id(),
            forall|k: int|
                0 <= k < old(self).rows().len() ==> final(self).rows()[k] == if (
                #[trigger] old(self).rows()[k]).id == task.id {
                    store_row(*task)
                } else {
                    old(self).rows()[k]
                },
    {
        let n = self.tasks.len();
        let mut i: usize = 0;
        while i < n
            invariant
                0 <= i <= n,
                n == self.tasks@.len(),
                self.next == old(self).next,
                forall|k: int|
                    0 <= k < n ==> self.tasks@[k] == if i <= k || (#[trigger] old(self).tasks@[k]).id != task.id {
                        old(self).tasks@[k]
                    } else {
                        store_row(*task)
                    },
            decreases n - i,
        {
            if self.tasks[i].id == task.id {
                let replacement = Task {
                    id: task.id,
                    day: DayReference::Id(task.day.id()),
                    start: task.start,
                    end: task.end,
                    description: task.description.clone(),
                };
                self.tasks[i] = replacement;
            }
            i = i + 1;
        }
    }

    /// Whether `p` is the store's choice of predecessor for a task of day
    /// `day_id` starting at `start`: the first row carrying the latest end
    /// at or before `start`.
    pub open spec fn chosen_prev(s: Seq<Task>, day_id: u64, start: Time, p: int) -> bool {
        &&& 0 <= p < s.len()
        &&& prev_candidate(s[p], day_id, start)
        &&& forall|j: int|
            0 <= j < s.len() && prev_candidate(#[trigger] s[j], day_id, start) ==> s[j].end->0.seconds
                <= s[p].end->0.seconds
        &&& forall|j: int|
            0 <= j < p ==> !(prev_candidate(#[trigger] s[j], day_id, start) && s[j].end->0.seconds
                == s[p].end->0.seconds)
    }

    /// The most recently ended task of `task`'s day whose end lies at or
    /// before `task`'s start, materialized with `task`'s day value; `None`
    /// when no task of the day ended by then.
    pub fn prev(&self, task: &Task) -> (r: Option<Task>)
        requires
            task.day is Value,
        ensures
            match r {
                Some(p) => exists|i: int|
                    #![trigger self.rows()[i]]
                    Self::chosen_prev(self.rows(), reference_id(task.day), task.start, i) && p
                        == with_day_spec(self.rows()[i], task.day->Value_0),
                None => forall|i: int|
                    0 <= i < self.rows().len() ==> !prev_candidate(
                        #[trigger] self.rows()[i],
                        reference_id(task.day),
                        task.start,
                    ),
            },
    {
        let day = match task.day {
            DayReference::Value(day) => day,
            DayReference::Id(_) => {
                proof {
                    assert(false);
                }
                Day::new(0, crate::date::Date { days: 0 })
            },
        };
        let n = self.tasks.len();
        let mut best: Option<usize> = None;
        let mut i: usize = 0;
        while i < n
            invariant
                0 <= i <= n,
                n == self.tasks@.len(),
                match best {
                    Some(b) => {
                        &&& 0 <= b < i
                        &&& prev_candidate(self.tasks@[b as int], day.id, task.start)
                        &&& forall|j: int|
                            0 <= j < i && prev_candidate(
                                #[trigger] self.tasks@[j],
                                day.id,
                                task.start,
                            ) ==> self.tasks@[j].end->0.seconds <= self.tasks@[
                                b as int
                            ].end->0.seconds
                        &&& forall|j: int|
                            0 <= j < b ==> !(prev_candidate(
                                #[trigger] self.tasks@[j],
                                day.id,
                                task.start,
                            ) && self.tasks@[j].end->0.seconds == self.tasks@[
                                b as int
                            ].end->0.seconds)
                    },
                    None => forall|j: int|
                        0 <= j < i ==> !prev_candidate(#[trigger] self.tasks@[j], day.id, task.start),
                },
                day.id == reference_id(task.day),
                day == task.day->Value_0,
            decreases n - i,
        {
            let row = &self.tasks[i];
            if row.day.id() == day.id {
                if let Some(e) = row.end {
                    if e.seconds <= task.start.seconds {
                        match best {
                            None => {
                                best = Some(i);
                            },
                            Some(b) => {
                                let best_end = match self.tasks[b].end {
                                    Some(t) => t,
                                    None => Time { seconds: 0 },
                                };
                                if e.seconds > best_end.seconds {
                                    best = Some(i);
                                }
                            },
                        }
                    }
                }
            }
            i = i + 1;
        }
        match best {
            Some(b) => {
                let p = MutTask::with_day(self.tasks[b].clone(), day);
                proof {
                    assert(Self::chosen_prev(
                        self.rows(),
                        reference_id(task.day),
                        task.start,
                        b as int,
                    ));
                    assert(p == with_day_spec(self.rows()[b as int], task.day->Value_0));
                }
                Some(p)
            },
            None => None,
        }
    }
}

/// Whether the row `t` has ended by `start` on day `day_id`: the rows the
/// predecessor search considers.
pub open spec fn prev_candidate(t: Task, day_id: u64, start: Time) -> bool {
    on_day(t, day_id) && t.end is Some && t.end->0.seconds <= start.seconds
}

/// Writing `t` over the row carrying its identifier cannot give `t`'s day
/// a second running task: if `t` is open, the only running task its day
/// may already have is `t`'s own row.
pub open spec fn write_safe(s: Seq<Task>, t: Task) -> bool {
    t.end is None ==> forall|k: int|
        0 <= k < s.len() && active_row(#[trigger] s[k], reference_id(t.day)) ==> s[k].id == t.id
}

/// The stored row carrying `t`'s identifier, if any, agrees with `t` on
/// day, start and end: the caller's value is not stale in what matters to
/// the day's timeline.
pub open spec fn agrees_on_times(s: Seq<Task>, t: Task) -> bool {
    forall|k: int|
        0 <= k < s.len() && (#[trigger] s[k]).id == t.id ==> s[k].day == DayReference::Id(
            reference_id(t.day),
        ) && s[k].start == t.start && s[k].end == t.end
}

/// Closing the task at `time` keeps its day's rows apart: every other row
/// of the day either ended by the task's start or begins at or after the
/// new end.
pub open spec fn set_end_keeps(s: Seq<Task>, t: Task, time: Time) -> bool {
    forall|j: int|
        0 <= j < s.len() && on_day(#[trigger] s[j], reference_id(t.day)) && s[j].id != t.id ==> (
        s[j].end is Some ==> s[j].end->0.seconds <= t.start.seconds || time.seconds
            <= s[j].start.seconds) && (s[j].end is None ==> time.seconds <= s[j].start.seconds)
}

impl TaskRepository {
    /// Closes `task` at `time` and persists it; fails with `InvalidRange`
    /// when `time` does not lie strictly after the task's start. No
    /// cascade runs toward the following task: only start edits repair
    /// their neighbour.
    pub fn set_end(&mut self, task: Task, time: Time) -> (r: Result<Task, Error>)
        requires
            old(self).wf(),
            task_value_wf(task),
            time.valid(),
        ensures
            final(self).wf(),
            final(self).next_id() == old(self).next_id(),
            (time.seconds <= task.start.seconds) <==> (r is Err),
            r matches Err(e) ==> e == Error::InvalidRange && final(self).rows() == old(
                self).rows(),
            r matches Ok(t) ==> t == closed_at(task, time) && final(self).rows().len() == old(self).rows().len() && (forall|k: int|
                0 <= k < old(self).rows().len() ==> final(self).rows()[k] == if (#[trigger] old(self).rows()[k]).id == task.id {
                    store_row(closed_at(task, time))
                } else {
                    old(self).rows()[k]
                }),
            forall|d: u64|
                no_overlap(old(self).rows(), d) && (d != reference_id(task.day) || set_end_keeps(
                    old(self).rows(),
                    task,
                    time,
                )) ==> no_overlap(final(self).rows(), d),
    {
        if time.seconds <= task.start.seconds {
            return Err(Error::InvalidRange);
        }
        let mut updated = task;
        MutTask::set_end(&mut updated, time);
        self.save(&updated);
        proof {
            lemma_update_keeps_wf(old(self).rows(), self.rows(), old(self).next_id(), updated);
            assert forall|d: u64|
                no_overlap(old(self).rows(), d) && (d != reference_id(task.day) || set_end_keeps(
                    old(self).rows(),
                    task,
                    time,
                )) implies no_overlap(self.rows(), d) by {
                lemma_update_no_overlap(old(self).rows(), self.rows(), updated, d);
            }
        }
        Ok(updated)
    }

    /// Replaces `task`'s description with the trimmed `description` and
    /// persists it; fails with `Validation` when nothing but white space
    /// remains. Start, end and day are untouched.
    pub fn rename_task(&mut self, task: Task, description: &str) -> (r: Result<Task, Error>)
        requires
            old(self).wf(),
            task_times_wf(task),
            write_safe(old(self).rows(), task),
        ensures
            final(self).wf(),
            final(self).next_id() == old(self).next_id(),
            (trim_spec(description@).len() == 0) <==> (r is Err),
            r matches Err(e) ==> e == Error::Validation && final(self).rows() == old(self).rows(),
            r matches Ok(t) ==> t.id == task.id && t.day == task.day && t.start == task.start
                && t.end == task.end && t.description@ == trim_spec(description@)
                && final(self).rows().len() == old(self).rows().len() && (forall|k: int|
                0 <= k < old(self).rows().len() ==> if (#[trigger] old(self).rows()[k]).id
                    == task.id {
                    final(self).rows()[k] == store_row(
                        (Task {
                            id: task.id,
                            day: task.day,
                            start: task.start,
                            end: task.end,
                            description: t.description,
                        }),
                    )
                } else {
                    final(self).rows()[k] == old(self).rows()[k]
                }),
            forall|d: u64|
                no_overlap(old(self).rows(), d) && agrees_on_times(old(self).rows(), task)
                    ==> no_overlap(final(self).rows(), d),
    {
        let trimmed = crate::text::trim(description);
        if trimmed.as_str().unicode_len() == 0 {
            return Err(Error::Validation);
        }
        proof {
            crate::text::lemma_trim_shape(description@);
        }
        let mut updated = task;
        MutTask::set_description(&mut updated, trimmed.as_str());
        self.save(&updated);
        proof {
            lemma_update_keeps_wf(old(self).rows(), self.rows(), old(self).next_id(), updated);
            assert forall|d: u64|
                no_overlap(old(self).rows(), d) && agrees_on_times(
                    old(self).rows(),
                    task,
                ) implies no_overlap(self.rows(), d) by {
                assert forall|k: int|
                    0 <= k < self.rows().len() implies on_day(#[trigger] self.rows()[k], d)
                        == on_day(old(self).rows()[k], d) && self.rows()[k].start == old(self).rows()[k].start && self.rows()[k].end == old(self).rows()[k].end by {}
                lemma_same_times_no_overlap(old(self).rows(), self.rows(), d);
            }
        }
        Ok(updated)
    }

    /// Closes the running task of `day` at the clock's time and persists
    /// it; fails with `NoActiveTask` while the day is idle.
    pub fn stop(&mut self, day: Day, clock: &Clock) -> (r: Result<Task, Error>)
        requires
            old(self).wf(),
            clock.valid(),
            active_starts_before(old(self).rows(), day.id, clock.time),
        ensures
            final(self).wf(),
            final(self).next_id() == old(self).next_id(),
            (r is Err) <==> !active_on(old(self).rows(), day.id),
            r matches Err(e) ==> e == Error::NoActiveTask && final(self).rows() == old(
                self).rows(),
            r matches Ok(t) ==> exists|i: int|
                #![trigger old(self).rows()[i]]
                0 <= i < old(self).rows().len() && active_row(old(self).rows()[i], day.id) && t
                    == with_day_spec(closed_at(old(self).rows()[i], clock.time), day) && final(self).rows().len() == old(self).rows().len() && (forall|k: int|
                    0 <= k < old(self).rows().len() ==> final(self).rows()[k] == if k == i {
                        closed_at(#[trigger] old(self).rows()[k], clock.time)
                    } else {
                        old(self).rows()[k]
                    }),
            forall|d: u64|
                no_overlap(old(self).rows(), d) ==> no_overlap(final(self).rows(), d),
    {
        let active = match self.current(day) {
            Ok(t) => t,
            Err(e) => {
                return Err(e);
            },
        };
        if active.end().is_some() {
            proof {
                assert(false);
            }
            return Err(Error::AlreadyEnded);
        }
        let ghost i = choose|i: int|
            0 <= i < self.rows().len() && active_row(#[trigger] self.rows()[i], day.id) && active
                == with_day_spec(self.rows()[i], day);
        let mut updated = active;
        MutTask::set_end(&mut updated, clock.time);
        self.save(&updated);
        proof {
            assert(old(self).rows()[i].start.seconds < clock.time.seconds);
            lemma_update_keeps_wf(old(self).rows(), self.rows(), old(self).next_id(), updated);
            assert forall|k: int|
                0 <= k < old(self).rows().len() implies self.rows()[k] == if k == i {
                closed_at(#[trigger] old(self).rows()[k], clock.time)
            } else {
                old(self).rows()[k]
            } by {
                if k != i && old(self).rows()[k].id == updated.id {
                    assert(false);
                }
            }
            assert forall|d: u64| no_overlap(old(self).rows(), d) implies no_overlap(
                self.rows(),
                d,
            ) by {
                if d == day.id {
                    assert forall|j: int|
                        0 <= j < old(self).rows().len() && on_day(
                            #[trigger] old(self).rows()[j],
                            d,
                        ) && old(self).rows()[j].id != updated.id implies (old(self).rows()[j].end
                            is Some ==> old(self).rows()[j].end->0.seconds
                            <= updated.start.seconds || (updated.end is Some
                            && updated.end->0.seconds <= old(self).rows()[j].start.seconds)) && (
                    old(self).rows()[j].end is None ==> updated.end is Some
                        && updated.end->0.seconds <= old(self).rows()[j].start.seconds) by {
                        if old(self).rows()[j].end is None {
                            assert(j != i);
                            assert(active_row(old(self).rows()[j], day.id));
                            assert(active_row(old(self).rows()[i], day.id));
                            assert(false);
                        } else {
                            assert(old(self).rows()[j].end->0.seconds <= old(self).rows()[i].start.seconds);
                        }
                    }
                }
                lemma_update_no_overlap(old(self).rows(), self.rows(), updated, d);
            }
        }
        Ok(updated)
    }

    /// Starts a task described by `description` on `day` at the clock's
    /// time: an already running task is first stopped at that same time —
    /// starting supersedes, it is never rejected for a running task. Fails
    /// only with `Validation`, when the description trims to nothing.
    pub fn start(&mut self, day: Day, description: &str, clock: &Clock) -> (r: Result<Task, Error>)
        requires
            old(self).wf(),
            clock.valid(),
            old(self).next_id() < u64::MAX,
            active_starts_before(old(self).rows(), day.id, clock.time),
        ensures
            final(self).wf(),
            (r is Err) <==> trim_spec(description@).len() == 0,
            r matches Err(e) ==> e == Error::Validation && final(self).rows() == old(self).rows()
                && final(self).next_id() == old(self).next_id(),
            r matches Ok(t) ==> t.id == old(self).next_id() && t.day == DayReference::Value(day)
                && t.start == clock.time && t.end is None && t.description@ == trim_spec(
                description@,
            ) && final(self).next_id() == old(self).next_id() + 1 && final(self).rows().len()
                == old(self).rows().len() + 1 && final(self).rows().last() == (Task {
                id: old(self).next_id(),
                day: DayReference::Id(day.id),
                start: clock.time,
                end: None,
                description: t.description,
            }),
            r is Ok && !active_on(old(self).rows(), day.id) ==> forall|k: int|
                0 <= k < old(self).rows().len() ==> final(self).rows()[k] == (#[trigger] old(self).rows()[k]),
            r is Ok && active_on(old(self).rows(), day.id) ==> exists|i: int|
                #![trigger old(self).rows()[i]]
                0 <= i < old(self).rows().len() && active_row(old(self).rows()[i], day.id) && (
                forall|k: int|
                    0 <= k < old(self).rows().len() ==> final(self).rows()[k] == if k == i {
                        closed_at(#[trigger] old(self).rows()[k], clock.time)
                    } else {
                        old(self).rows()[k]
                    }),
            forall|d: u64|
                no_overlap(old(self).rows(), d) && (d == day.id ==> closed_ends_at_most(
                    old(self).rows(),
                    day.id,
                    clock.time,
                )) ==> no_overlap(final(self).rows(), d),
    {
        let trimmed = crate::text::trim(description);
        if trimmed.as_str().unicode_len() == 0 {
            return Err(Error::Validation);
        }
        proof {
            crate::text::lemma_trim_shape(description@);
        }
        let had_active = match self.current(day) {
            Ok(_) => true,
            Err(_) => false,
        };
        if had_active {
            match self.stop(day, clock) {
                Ok(_) => {},
                Err(_) => {
                    proof {
                        assert(false);
                    }
                    return Err(Error::Validation);
                },
            }
        }
        proof {
            let rows0 = old(self).rows();
            if had_active {
                let si = choose|si: int|
                    0 <= si < rows0.len() && active_row(#[trigger] rows0[si], day.id) && (forall|
                        k: int,
                    |
                        0 <= k < rows0.len() ==> self.rows()[k] == if k == si {
                            closed_at(#[trigger] rows0[k], clock.time)
                        } else {
                            rows0[k]
                        });
                assert forall|k: int|
                    0 <= k < self.rows().len() implies !active_row(
                    #[trigger] self.rows()[k],
                    day.id,
                ) by {
                    if k != si && active_row(rows0[k], day.id) {
                        assert(false);
                    }
                }
                if closed_ends_at_most(rows0, day.id, clock.time) {
                    assert forall|k: int|
                        0 <= k < self.rows().len() && on_day(#[trigger] self.rows()[k], day.id)
                            && self.rows()[k].end is Some implies self.rows()[k].end->0.seconds
                        <= clock.time.seconds by {
                        if k != si {
                            assert(self.rows()[k] == rows0[k]);
                        }
                    }
                }
            } else {
                assert(self.rows() == rows0);
                assert(!active_on(rows0, day.id));
                assert forall|k: int|
                    0 <= k < self.rows().len() implies !active_row(
                    #[trigger] self.rows()[k],
                    day.id,
                ) by {}
            }
        }
        let ghost mid = self.rows();
        let returned = Task {
            id: self.next,
            day: DayReference::Value(day),
            start: clock.time,
            end: None,
            description: trimmed,
        };
        let stored = Task {
            id: returned.id,
            day: DayReference::Id(day.id),
            start: returned.start,
            end: returned.end,
            description: returned.description.clone(),
        };
        self.tasks.push(stored);
        self.next = self.next + 1;
        proof {
            let rows = self.rows();
            let n = mid.len() as int;
            assert(rows == mid.push(stored));
            assert(rows[n] == stored);
            assert forall|k: int| 0 <= k < n implies !active_row(#[trigger] mid[k], day.id) by {}
            lemma_start_keeps_wf(mid, rows, old(self).next_id(), stored, day.id);
            assert forall|d: u64|
                no_overlap(old(self).rows(), d) && (d == day.id ==> closed_ends_at_most(
                    old(self).rows(),
                    day.id,
                    clock.time,
                )) implies no_overlap(rows, d) by {
                assert(no_overlap(mid, d));
                lemma_push_no_overlap(mid, rows, stored, d, clock.time);
            }
        }
        Ok(returned)
    }

    /// Moves `task`'s start to `time` and persists it. A move to the
    /// unchanged start is a no-op that writes nothing. A move is rejected
    /// with `InvalidRange` when the new start would not stay strictly
    /// before the task's effective end. Otherwise the day's predecessor —
    /// the most recently ended task at or before the old start — has its
    /// end rewritten to `time` first, when its end met the old start
    /// exactly or lies past the new one; that repair is itself rejected
    /// with `InvalidRange`, and nothing is written, when `time` cannot
    /// stay strictly after the predecessor's start.
    pub fn set_start(&mut self, task: Task, time: Time, clock: &Clock) -> (r: Result<Task, Error>)
        requires
            old(self).wf(),
            clock.valid(),
            task_value_wf(task),
            task.day is Value,
            time.valid(),
            write_safe(old(self).rows(), task),
        ensures
            final(self).wf(),
            final(self).next_id() == old(self).next_id(),
            set_start_post(old(self).rows(), final(self).rows(), task, time, *clock, r),
            r is Err ==> final(self).rows() == old(self).rows(),
            forall|d: u64|
                no_overlap(old(self).rows(), d) && times_in_store(old(self).rows(), task)
                    ==> no_overlap(final(self).rows(), d),
    {
        let ghost pre = old(self).rows();
        let ghost did = reference_id(task.day);
        if time == task.start {
            return Ok(task);
        }
        if time.seconds > task.start.seconds {
            let eff = task.end_or_day_time(clock);
            if time.seconds >= eff.seconds {
                return Err(Error::InvalidRange);
            }
        }
        proof {
            if let Some(e) = task.end {
                assert(time.seconds < e.seconds);
            }
        }
        let ghost mut cascade: Option<int> = None;
        let prev_found = self.prev(&task);
        match prev_found {
            Some(prev) => {
                let ghost cp = choose|i: int|
                    #![trigger self.rows()[i]]
                    Self::chosen_prev(self.rows(), did, task.start, i) && prev == with_day_spec(
                        self.rows()[i],
                        task.day->Value_0,
                    );
                let prev_end = match prev.end {
                    Some(e) => e,
                    None => {
                        proof {
                            assert(false);
                        }
                        Time { seconds: 0 }
                    },
                };
                if prev_end.seconds == task.start.seconds || prev_end.seconds > time.seconds {
                    proof {
                        assert(task_row_wf(pre[cp]));
                        assert(pre[cp].day == DayReference::Id(did));
                        assert(Self::chosen_prev(pre, did, task.start, cp) && cascade_hits(
                            pre[cp],
                            task,
                            time,
                        ));
                    }
                    match self.set_end(prev, time) {
                        Ok(_) => {
                            proof {
                                assert forall|k: int|
                                    0 <= k < pre.len() implies self.rows()[k] == if k == cp {
                                    closed_at(#[trigger] pre[k], time)
                                } else {
                                    pre[k]
                                } by {
                                    if k != cp && pre[k].id == prev.id {
                                        assert(false);
                                    }
                                    if k == cp {
                                        assert(self.rows()[k] == store_row(closed_at(prev, time)));
                                    }
                                }
                            }
                        },
                        Err(e) => {
                            proof {
                                let q = choose|q: int|
                                    Self::chosen_prev(pre, did, task.start, q) && cascade_hits(
                                        #[trigger] pre[q],
                                        task,
                                        time,
                                    );
                                lemma_chosen_prev_unique(pre, did, task.start, cp, q);
                                assert(time.seconds <= pre[q].start.seconds);
                            }
                            return Err(e);
                        },
                    }
                    proof {
                        cascade = Some(cp);
                    }
                } else {
                    proof {
                        assert forall|q: int|
                            Self::chosen_prev(pre, did, task.start, q) implies !cascade_hits(
                            #[trigger] pre[q],
                            task,
                            time,
                        ) by {
                            lemma_chosen_prev_unique(pre, did, task.start, q, cp);
                        }
                        assert(exists|p: int|
                            Self::chosen_prev(pre, did, task.start, p) && !cascade_hits(
                                #[trigger] pre[p],
                                task,
                                time,
                            ));
                    }
                }
            },
            None => {
                proof {
                    assert forall|q: int|
                        Self::chosen_prev(pre, did, task.start, q) implies !cascade_hits(
                        #[trigger] pre[q],
                        task,
                        time,
                    ) by {
                        assert(!prev_candidate(pre[q], did, task.start));
                    }
                }
            },
        }
        let ghost mid = self.rows();
        let mut updated = task;
        MutTask::set_start(&mut updated, time);
        self.save(&updated);
        proof {
            assert(updated == restarted_at(task, time));
            assert forall|k: int|
                0 <= k < pre.len() implies self.rows()[k] == if (#[trigger] pre[k]).id == task.id {
                store_row(restarted_at(task, time))
            } else if cascade matches Some(p) && k == p {
                closed_at(pre[k], time)
            } else {
                pre[k]
            } by {
                assert(mid[k].id == pre[k].id);
            }
            assert(write_safe(mid, updated)) by {
                if updated.end is None {
                    assert forall|k: int|
                        0 <= k < mid.len() && active_row(#[trigger] mid[k], did) implies mid[k].id
                        == updated.id by {
                        assert(active_row(pre[k], did));
                    }
                }
            }
            lemma_update_keeps_wf(mid, self.rows(), old(self).next_id(), updated);
            if let Some(p) = cascade {
                assert(Self::chosen_prev(pre, did, task.start, p) && cascade_hits(
                    pre[p],
                    task,
                    time,
                ));
                let q = choose|q: int|
                    Self::chosen_prev(pre, did, task.start, q) && cascade_hits(
                        #[trigger] pre[q],
                        task,
                        time,
                    );
                lemma_chosen_prev_unique(pre, did, task.start, p, q);
                assert(time.seconds > pre[p].start.seconds);
            } else {
                assert(!exists|p: int|
                    Self::chosen_prev(pre, did, task.start, p) && cascade_hits(
                        #[trigger] pre[p],
                        task,
                        time,
                    ));
            }
            assert forall|d: u64|
                no_overlap(pre, d) && times_in_store(pre, task) implies no_overlap(
                self.rows(),
                d,
            ) by {
                lemma_start_move_no_overlap(pre, self.rows(), task, time, cascade, d);
            }
        }
        Ok(updated)
    }

    /// Moves `task`'s start by `delta` seconds, wrapping around midnight:
    /// the convenience form of `set_start` at `task.start + delta`.
    pub fn shift_start(&mut self, task: Task, delta: i64, clock: &Clock) -> (r: Result<
        Task,
        Error,
    >)
        requires
            old(self).wf(),
            clock.valid(),
            task_value_wf(task),
            task.day is Value,
            write_safe(old(self).rows(), task),
        ensures
            final(self).wf(),
            final(self).next_id() == old(self).next_id(),
            set_start_post(
                old(self).rows(),
                final(self).rows(),
                task,
                crate::time::shifted_spec(task.start, delta),
                *clock,
                r,
            ),
            r is Err ==> final(self).rows() == old(self).rows(),
            forall|d: u64|
                no_overlap(old(self).rows(), d) && times_in_store(old(self).rows(), task)
                    ==> no_overlap(final(self).rows(), d),
    {
        let time = task.start.plus_seconds(delta);
        proof {
            assert(time == crate::time::shifted_spec(task.start, delta));
        }
        self.set_start(task, time, clock)
    }

    /// Renames the running task of `day`: fails with `NoActiveTask` while
    /// the day is idle, with `Validation` when the new description trims
    /// to nothing.
    pub fn rename_current(&mut self, day: Day, description: &str) -> (r: Result<Task, Error>)
        requires
            old(self).wf(),
        ensures
            final(self).wf(),
            final(self).next_id() == old(self).next_id(),
            r matches Err(_) ==> final(self).rows() == old(self).rows(),
            (r matches Err(e) && e == Error::NoActiveTask) <==> !active_on(
                old(self).rows(),
                day.id,
            ),
            (r matches Err(e) && e == Error::Validation) <==> (active_on(old(self).rows(), day.id)
                && trim_spec(description@).len() == 0),
            r is Err ==> !active_on(old(self).rows(), day.id) || trim_spec(description@).len()
                == 0,
            r matches Ok(t) ==> exists|i: int|
                #![trigger old(self).rows()[i]]
                0 <= i < old(self).rows().len() && active_row(old(self).rows()[i], day.id) && t.id
                    == old(self).rows()[i].id && t.day == DayReference::Value(day) && t.start == old(self).rows()[i].start && t.end is None && t.description@ == trim_spec(description@) && (
                forall|k: int|
                    0 <= k < old(self).rows().len() ==> if k == i {
                        final(self).rows()[k] == store_row(
                            (Task {
                                id: t.id,
                                day: t.day,
                                start: t.start,
                                end: t.end,
                                description: t.description,
                            }),
                        )
                    } else {
                        final(self).rows()[k] == (#[trigger] old(self).rows()[k])
                    }),
            forall|d: u64|
                no_overlap(old(self).rows(), d) ==> no_overlap(final(self).rows(), d),
    {
        let active = match self.current(day) {
            Ok(t) => t,
            Err(e) => {
                return Err(e);
            },
        };
        let ghost i = choose|i: int|
            0 <= i < self.rows().len() && active_row(#[trigger] self.rows()[i], day.id) && active
                == with_day_spec(self.rows()[i], day);
        proof {
            assert(write_safe(self.rows(), active));
            assert(agrees_on_times(self.rows(), active));
        }
        let r = self.rename_task(active, description);
        proof {
            if r is Ok {
                assert(old(self).rows()[i].id == r->Ok_0.id);
            }
        }
        r
    }
}

/// Overwriting the row that carries `t`'s identifier with `t`'s stored
/// form keeps the store well formed, provided `t` itself is well formed
/// and writing it cannot give its day a second running task.
proof fn lemma_update_keeps_wf(before: Seq<Task>, after: Seq<Task>, next_id: u64, t: Task)
    requires
        task_rows_wf(before, next_id),
        task_value_wf(t),
        write_safe(before, t),
        after.len() == before.len(),
        forall|k: int|
            0 <= k < before.len() ==> after[k] == if (#[trigger] before[k]).id == t.id {
                store_row(t)
            } else {
                before[k]
            },
    ensures
        task_rows_wf(after, next_id),
{
    assert forall|i: int| 0 <= i < after.len() implies task_row_wf(#[trigger] after[i]) by {
        if before[i].id == t.id {
            assert(after[i] == store_row(t));
        }
    }
    assert forall|i: int| 0 <= i < after.len() implies (#[trigger] after[i]).id
        == before[i].id by {
        if before[i].id == t.id {
            assert(after[i] == store_row(t));
        }
    }
    assert forall|i: int, j: int|
        0 <= i < j < after.len() && i != j implies !((#[trigger] after[i]).end is None && (
    #[trigger] after[j]).end is None && reference_id(after[i].day) == reference_id(
        after[j].day,
    )) by {
        if after[i].end is None && after[j].end is None && reference_id(after[i].day)
            == reference_id(after[j].day) {
            if before[i].id == t.id {
                assert(active_row(before[j], reference_id(t.day)));
            } else if before[j].id == t.id {
                assert(active_row(before[i], reference_id(t.day)));
            }
        }
    }
}

/// Overwriting the row carrying `t`'s identifier cannot disturb the rows
/// of a day `t` does not belong to; and two sequences whose rows agree on
/// day, start and end everywhere keep the same overlaps.
proof fn lemma_update_no_overlap(before: Seq<Task>, after: Seq<Task>, t: Task, d: u64)
    requires
        no_overlap(before, d),
        forall|a: int, b: int|
            0 <= a < b < before.len() ==> (#[trigger] before[a]).id != (#[trigger] before[b]).id,
        after.len() == before.len(),
        forall|k: int|
            0 <= k < before.len() ==> after[k] == if (#[trigger] before[k]).id == t.id {
                store_row(t)
            } else {
                before[k]
            },
        d != reference_id(t.day) || (forall|j: int|
            0 <= j < before.len() && on_day(#[trigger] before[j], d) && before[j].id != t.id ==> (
            before[j].end is Some ==> before[j].end->0.seconds <= t.start.seconds || (t.end is Some
                && t.end->0.seconds <= before[j].start.seconds)) && (before[j].end is None ==> t.end
                is Some && t.end->0.seconds <= before[j].start.seconds)),
        d == reference_id(t.day) ==> task_times_wf(t),
    ensures
        no_overlap(after, d),
{
    assert forall|i: int, j: int|
        0 <= i < after.len() && 0 <= j < after.len() && i != j && on_day(
            #[trigger] after[i],
            d,
        ) && on_day(#[trigger] after[j], d) && after[i].end is Some && after[j].end
            is Some implies after[i].end->0.seconds <= after[j].start.seconds
        || after[j].end->0.seconds <= after[i].start.seconds by {
        lemma_update_no_overlap_pair(before, after, t, d, i, j);
    }
    assert forall|i: int, j: int|
        0 <= i < after.len() && 0 <= j < after.len() && i != j && on_day(
            #[trigger] after[i],
            d,
        ) && on_day(#[trigger] after[j], d) && after[i].end is None && after[j].end
            is Some implies after[j].end->0.seconds <= after[i].start.seconds by {
        lemma_update_no_overlap_pair(before, after, t, d, i, j);
    }
}

/// One pair of the overlap argument in `lemma_update_no_overlap`.
proof fn lemma_update_no_overlap_pair(before: Seq<Task>, after: Seq<Task>, t: Task, d: u64, i: int, j: int)
    requires
        no_overlap(before, d),
        forall|a: int, b: int|
            0 <= a < b < before.len() ==> (#[trigger] before[a]).id != (#[trigger] before[b]).id,
        after.len() == before.len(),
        forall|k: int|
            0 <= k < before.len() ==> after[k] == if (#[trigger] before[k]).id == t.id {
                store_row(t)
            } else {
                before[k]
            },
        d != reference_id(t.day) || (forall|jj: int|
            0 <= jj < before.len() && on_day(#[trigger] before[jj], d) && before[jj].id != t.id ==> (
            before[jj].end is Some ==> before[jj].end->0.seconds <= t.start.seconds || (t.end
                is Some && t.end->0.seconds <= before[jj].start.seconds)) && (before[jj].end is None
                ==> t.end is Some && t.end->0.seconds <= before[jj].start.seconds)),
        d == reference_id(t.day) ==> task_times_wf(t),
        0 <= i < after.len(),
        0 <= j < after.len(),
        i != j,
        on_day(after[i], d),
        on_day(after[j], d),
    ensures
        after[i].end is Some && after[j].end is Some ==> after[i].end->0.seconds
            <= after[j].start.seconds || after[j].end->0.seconds <= after[i].start.seconds,
        after[i].end is None && after[j].end is Some ==> after[j].end->0.seconds
            <= after[i].start.seconds,
{
    let iu = before[i].id == t.id;
    let ju = before[j].id == t.id;
    if iu && ju {
        assert(before[i].id == before[j].id);
        assert(false);
    }
}

/// Whether the predecessor repair fires: the predecessor's end either
/// meets the task's old start exactly, or lies past the new start (the new
/// start would overlap it).
pub open spec fn cascade_hits(prevrow: Task, task: Task, time: Time) -> bool {
    prevrow.end->0.seconds == task.start.seconds || prevrow.end->0.seconds > time.seconds
}

/// Some row of `s` carries `t`'s identifier and agrees with `t` on day,
/// start and end: the caller's value reflects the store.
pub open spec fn times_in_store(s: Seq<Task>, t: Task) -> bool {
    exists|k: int|
        0 <= k < s.len() && (#[trigger] s[k]).id == t.id && s[k].day == DayReference::Id(
            reference_id(t.day),
        ) && s[k].start == t.start && s[k].end == t.end
}

/// `t` with its start moved to `time`.
pub open spec fn restarted_at(t: Task, time: Time) -> Task {
    Task { id: t.id, day: t.day, start: time, end: t.end, description: t.description }
}

/// What moving a task's start to `time` does, relating the rows `pre`
/// before the call to the rows `post` and the result `r` after it:
/// a no-op when the start does not change; a rejection when the new start
/// would not stay strictly before the task's effective end; otherwise the
/// start is applied — after the day's chosen predecessor, where its end
/// met the old start or lies past the new one, has had its end rewritten
/// to `time`, which is itself rejected if it cannot stay strictly after
/// that predecessor's start. A rejection leaves the rows untouched.
pub open spec fn set_start_post(
    pre: Seq<Task>,
    post: Seq<Task>,
    task: Task,
    time: Time,
    clock: Clock,
    r: Result<Task, Error>,
) -> bool {
    let did = reference_id(task.day);
    let eff = eff_end_spec(task, task.day->Value_0, clock);
    let moved = restarted_at(task, time);
    if time == task.start {
        r == Ok::<Task, Error>(task) && post == pre
    } else if time.seconds > task.start.seconds && time.seconds >= eff.seconds {
        r == Err::<Task, Error>(Error::InvalidRange) && post == pre
    } else if exists|p: int|
        TaskRepository::chosen_prev(pre, did, task.start, p) && cascade_hits(
            #[trigger] pre[p],
            task,
            time,
        ) {
        let p = choose|p: int|
            TaskRepository::chosen_prev(pre, did, task.start, p) && cascade_hits(
                #[trigger] pre[p],
                task,
                time,
            );
        if time.seconds <= pre[p].start.seconds {
            r == Err::<Task, Error>(Error::InvalidRange) && post == pre
        } else {
            &&& r == Ok::<Task, Error>(moved)
            &&& post.len() == pre.len()
            &&& forall|k: int|
                0 <= k < pre.len() ==> post[k] == if (#[trigger] pre[k]).id == task.id {
                    store_row(moved)
                } else if k == p {
                    closed_at(pre[k], time)
                } else {
                    pre[k]
                }
        }
    } else {
        &&& r == Ok::<Task, Error>(moved)
        &&& post.len() == pre.len()
        &&& forall|k: int|
            0 <= k < pre.len() ==> post[k] == if (#[trigger] pre[k]).id == task.id {
                store_row(moved)
            } else {
                pre[k]
            }
    }
}

/// The store's choice of predecessor is unique: what `set_start_post`
/// names by choice is the one index satisfying `chosen_prev`.
pub proof fn lemma_chosen_prev_unique(s: Seq<Task>, day_id: u64, start: Time, p1: int, p2: int)
    requires
        TaskRepository::chosen_prev(s, day_id, start, p1),
        TaskRepository::chosen_prev(s, day_id, start, p2),
    ensures
        p1 == p2,
{
    if p1 < p2 {
        assert(s[p1].end->0.seconds <= s[p2].end->0.seconds);
        assert(s[p2].end->0.seconds <= s[p1].end->0.seconds);
        assert(false);
    } else if p2 < p1 {
        assert(s[p1].end->0.seconds <= s[p2].end->0.seconds);
        assert(s[p2].end->0.seconds <= s[p1].end->0.seconds);
        assert(false);
    }
}

/// The hypotheses shared by the start-move preservation lemmas: well
/// formed, uniquely identified rows without a second running task per day;
/// a task value that reflects its stored row; a move that is genuine,
/// stays within the day and, for a closed task, strictly before its end;
/// and a post state shaped as `set_start_post`'s success cases describe,
/// with the predecessor repair either applied at `cascade` or correctly
/// not applicable.
pub open spec fn start_move_hyp(
    pre: Seq<Task>,
    post: Seq<Task>,
    task: Task,
    time: Time,
    cascade: Option<int>,
) -> bool {
    &&& forall|i: int| 0 <= i < pre.len() ==> task_row_wf(#[trigger] pre[i])
    &&& forall|a: int, b: int|
        0 <= a < b < pre.len() ==> (#[trigger] pre[a]).id != (#[trigger] pre[b]).id
    &&& forall|a: int, b: int|
        0 <= a < b < pre.len() ==> !((#[trigger] pre[a]).end is None && (#[trigger] pre[b]).end
            is None && reference_id(pre[a].day) == reference_id(pre[b].day))
    &&& times_in_store(pre, task)
    &&& task_times_wf(task)
    &&& time.valid()
    &&& time != task.start
    &&& (task.end matches Some(e) ==> time.seconds < e.seconds)
    &&& post.len() == pre.len()
    &&& match cascade {
        Some(p) => TaskRepository::chosen_prev(pre, reference_id(task.day), task.start, p)
            && cascade_hits(pre[p], task, time) && time.seconds > pre[p].start.seconds && (forall|
            k: int,
        |
            0 <= k < pre.len() ==> post[k] == if (#[trigger] pre[k]).id == task.id {
                store_row(restarted_at(task, time))
            } else if k == p {
                closed_at(pre[k], time)
            } else {
                pre[k]
            }),
        None => ((forall|i: int|
            0 <= i < pre.len() ==> !prev_candidate(
                #[trigger] pre[i],
                reference_id(task.day),
                task.start,
            )) || (exists|p: int|
            TaskRepository::chosen_prev(pre, reference_id(task.day), task.start, p)
                && !cascade_hits(#[trigger] pre[p], task, time))) && (forall|k: int|
            0 <= k < pre.len() ==> post[k] == if (#[trigger] pre[k]).id == task.id {
                store_row(restarted_at(task, time))
            } else {
                pre[k]
            }),
    }
}

/// One pair of the argument that a start move keeps a day's rows apart.
proof fn lemma_start_move_pair(
    pre: Seq<Task>,
    post: Seq<Task>,
    task: Task,
    time: Time,
    cascade: Option<int>,
    d: u64,
    i: int,
    j: int,
)
    requires
        start_move_hyp(pre, post, task, time, cascade),
        no_overlap(pre, d),
        0 <= i < post.len(),
        0 <= j < post.len(),
        i != j,
        on_day(post[i], d),
        on_day(post[j], d),
    ensures
        post[i].end is Some && post[j].end is Some ==> post[i].end->0.seconds
            <= post[j].start.seconds || post[j].end->0.seconds <= post[i].start.seconds,
        post[i].end is None && post[j].end is Some ==> post[j].end->0.seconds
            <= post[i].start.seconds,
{
    let did = reference_id(task.day);
    let sk = choose|k: int|
        0 <= k < pre.len() && (#[trigger] pre[k]).id == task.id && pre[k].day == DayReference::Id(
            did,
        ) && pre[k].start == task.start && pre[k].end == task.end;
    assert forall|k: int| 0 <= k < pre.len() && (#[trigger] pre[k]).id == task.id implies k
        == sk by {
        if k != sk {
            if k < sk {
                assert(pre[k].id != pre[sk].id);
            } else {
                assert(pre[sk].id != pre[k].id);
            }
        }
    }
    if d != did {
        assert(post[i] == pre[i]);
        assert(post[j] == pre[j]);
        return ;
    }
    if let Some(p) = cascade {
        assert(pre[p].end is Some && pre[p].end->0.seconds <= task.start.seconds);
        assert(p != sk) by {
            if p == sk {
                assert(pre[sk].end == task.end);
                if let Some(e) = task.end {
                    assert(e.seconds <= task.start.seconds);
                    assert(task.start.seconds < e.seconds);
                }
            }
        }
    }
    if i == sk || j == sk {
        let other = if i == sk {
            j
        } else {
            i
        };
        lemma_start_move_task_vs(pre, post, task, time, cascade, d, sk, other);
        assert(post[sk] == store_row(restarted_at(task, time)));
    } else if cascade is Some && (i == cascade->0 || j == cascade->0) {
        let p = cascade->0;
        let other = if i == p {
            j
        } else {
            i
        };
        lemma_start_move_prev_vs(pre, post, task, time, p, d, sk, other);
        assert(post[p] == closed_at(pre[p], time));
        assert(post[other] == pre[other]);
    } else {
        assert(post[i] == pre[i]);
        assert(post[j] == pre[j]);
    }
}

/// The moved task row against any other row `j` of its day.
proof fn lemma_start_move_task_vs(
    pre: Seq<Task>,
    post: Seq<Task>,
    task: Task,
    time: Time,
    cascade: Option<int>,
    d: u64,
    sk: int,
    j: int,
)
    requires
        start_move_hyp(pre, post, task, time, cascade),
        no_overlap(pre, d),
        d == reference_id(task.day),
        0 <= sk < pre.len(),
        pre[sk].id == task.id,
        pre[sk].day == DayReference::Id(d),
        pre[sk].start == task.start,
        pre[sk].end == task.end,
        forall|k: int| 0 <= k < pre.len() && (#[trigger] pre[k]).id == task.id ==> k == sk,
        0 <= j < post.len(),
        j != sk,
        on_day(post[j], d),
        cascade matches Some(p) ==> p != sk,
    ensures
        post[j].end is Some ==> post[j].end->0.seconds <= time.seconds || (task.end is Some
            && task.end->0.seconds <= post[j].start.seconds),
        post[j].end is None ==> task.end is Some && task.end->0.seconds
            <= post[j].start.seconds,
{
    let did = reference_id(task.day);
    if cascade is Some && j == cascade->0 {
        let p = cascade->0;
        assert(post[j] == closed_at(pre[p], time));
        assert(post[j].end->0.seconds <= time.seconds);
    } else {
        assert(post[j] == pre[j]);
        if pre[j].end is Some {
            // `j` is closed: in `pre` it avoided the task's old interval.
            if task.end is Some && task.end->0.seconds <= pre[j].start.seconds {
            } else {
                assert(pre[j].end->0.seconds <= task.start.seconds);
                if pre[j].end->0.seconds > time.seconds {
                    // `j` would reach past the new start: then `j` was a
                    // predecessor candidate, and the repair rules leave no
                    // room for its end above `time`.
                    assert(prev_candidate(pre[j], did, task.start));
                    match cascade {
                        Some(p) => {
                            assert(pre[j].end->0.seconds <= pre[p].end->0.seconds);
                            assert(pre[j].end->0.seconds <= pre[p].start.seconds || pre[
                                p
                            ].end->0.seconds <= pre[j].start.seconds);
                            if pre[j].end->0.seconds <= pre[p].start.seconds {
                                assert(pre[p].start.seconds < time.seconds);
                                assert(false);
                            } else {
                                assert(pre[j].end->0.seconds <= pre[j].start.seconds);
                                assert(pre[j].start.seconds < pre[j].end->0.seconds);
                                assert(false);
                            }
                        },
                        None => {
                            if exists|q: int|
                                TaskRepository::chosen_prev(pre, did, task.start, q)
                                    && !cascade_hits(#[trigger] pre[q], task, time) {
                                let q = choose|q: int|
                                    TaskRepository::chosen_prev(pre, did, task.start, q)
                                        && !cascade_hits(#[trigger] pre[q], task, time);
                                assert(pre[j].end->0.seconds <= pre[q].end->0.seconds);
                                assert(pre[q].end->0.seconds <= time.seconds);
                                assert(false);
                            } else {
                                assert(!prev_candidate(pre[j], did, task.start));
                                assert(false);
                            }
                        },
                    }
                }
            }
        } else {
            // `j` is the day's running task: then the task itself is
            // closed, and in `pre` it ended by `j`'s start.
            assert(!(pre[sk].end is None)) by {
                if pre[sk].end is None {
                    if sk < j {
                        assert(!(pre[sk].end is None && pre[j].end is None && reference_id(
                            pre[sk].day,
                        ) == reference_id(pre[j].day)));
                    } else {
                        assert(!(pre[j].end is None && pre[sk].end is None && reference_id(
                            pre[j].day,
                        ) == reference_id(pre[sk].day)));
                    }
                }
            }
            assert(task.end->0.seconds <= pre[j].start.seconds);
        }
    }
}

/// The repaired predecessor row against any other row `j` of the day.
proof fn lemma_start_move_prev_vs(
    pre: Seq<Task>,
    post: Seq<Task>,
    task: Task,
    time: Time,
    p: int,
    d: u64,
    sk: int,
    j: int,
)
    requires
        start_move_hyp(pre, post, task, time, Some(p)),
        no_overlap(pre, d),
        d == reference_id(task.day),
        0 <= sk < pre.len(),
        pre[sk].id == task.id,
        pre[sk].day == DayReference::Id(d),
        pre[sk].start == task.start,
        pre[sk].end == task.end,
        forall|k: int| 0 <= k < pre.len() && (#[trigger] pre[k]).id == task.id ==> k == sk,
        p != sk,
        0 <= j < post.len(),
        j != p,
        j != sk,
        on_day(post[j], d),
    ensures
        post[j].end is Some ==> post[j].end->0.seconds <= pre[p].start.seconds || time.seconds
            <= post[j].start.seconds,
        post[j].end is None ==> time.seconds <= post[j].start.seconds,
{
    let did = reference_id(task.day);
    assert(post[j] == pre[j]);
    assert(on_day(pre[p], did));
    let e_p = pre[p].end->0.seconds;
    if pre[j].end is Some {
        if pre[j].end->0.seconds <= pre[p].start.seconds {
        } else {
            assert(e_p <= pre[j].start.seconds);
            if e_p > time.seconds {
                assert(time.seconds <= pre[j].start.seconds);
            } else {
                assert(e_p == task.start.seconds);
                if pre[sk].end is Some {
                    if pre[j].end->0.seconds <= task.start.seconds {
                        assert(pre[j].end->0.seconds <= pre[j].start.seconds);
                        assert(false);
                    } else {
                        assert(pre[sk].end->0.seconds <= pre[j].start.seconds);
                        assert(time.seconds < task.end->0.seconds);
                    }
                } else {
                    assert(pre[j].end->0.seconds <= task.start.seconds);
                    assert(pre[j].end->0.seconds <= pre[j].start.seconds);
                    assert(false);
                }
            }
        }
    } else {
        assert(e_p <= pre[j].start.seconds);
        if e_p > time.seconds {
            assert(time.seconds <= pre[j].start.seconds);
        } else {
            assert(e_p == task.start.seconds);
            if pre[sk].end is None {
                if sk < j {
                    assert(!(pre[sk].end is None && pre[j].end is None && reference_id(pre[sk].day)
                        == reference_id(pre[j].day)));
                } else {
                    assert(!(pre[j].end is None && pre[sk].end is None && reference_id(pre[j].day)
                        == reference_id(pre[sk].day)));
                }
                assert(false);
            } else {
                assert(pre[sk].end->0.seconds <= pre[j].start.seconds);
                assert(time.seconds < task.end->0.seconds);
            }
        }
    }
}

/// Moving a task's start, with the predecessor repair as `set_start`
/// applies it, keeps every day's rows apart.
proof fn lemma_start_move_no_overlap(
    pre: Seq<Task>,
    post: Seq<Task>,
    task: Task,
    time: Time,
    cascade: Option<int>,
    d: u64,
)
    requires
        start_move_hyp(pre, post, task, time, cascade),
        no_overlap(pre, d),
    ensures
        no_overlap(post, d),
{
    assert forall|i: int, j: int|
        0 <= i < post.len() && 0 <= j < post.len() && i != j && on_day(
            #[trigger] post[i],
            d,
        ) && on_day(#[trigger] post[j], d) && post[i].end is Some && post[j].end
            is Some implies post[i].end->0.seconds <= post[j].start.seconds
        || post[j].end->0.seconds <= post[i].start.seconds by {
        lemma_start_move_pair(pre, post, task, time, cascade, d, i, j);
    }
    assert forall|i: int, j: int|
        0 <= i < post.len() && 0 <= j < post.len() && i != j && on_day(
            #[trigger] post[i],
            d,
        ) && on_day(#[trigger] post[j], d) && post[i].end is None && post[j].end
            is Some implies post[j].end->0.seconds <= post[i].start.seconds by {
        lemma_start_move_pair(pre, post, task, time, cascade, d, i, j);
    }
}

/// Appending a fresh running task keeps the store well formed, provided
/// its day had no running task left.
proof fn lemma_start_keeps_wf(mid: Seq<Task>, rows: Seq<Task>, next_id: u64, stored: Task, day_id: u64)
    requires
        task_rows_wf(mid, next_id),
        next_id < u64::MAX,
        rows == mid.push(stored),
        task_row_wf(stored),
        stored.id == next_id,
        stored.end is None,
        reference_id(stored.day) == day_id,
        forall|k: int| 0 <= k < mid.len() ==> !active_row(#[trigger] mid[k], day_id),
    ensures
        task_rows_wf(rows, (next_id + 1) as u64),
{
    let n = mid.len() as int;
    assert forall|i: int| 0 <= i < rows.len() implies task_row_wf(#[trigger] rows[i]) by {
        if i < n {
            assert(rows[i] == mid[i]);
        }
    }
    assert forall|i: int| 0 <= i < rows.len() implies (#[trigger] rows[i]).id < next_id + 1 by {
        if i < n {
            assert(rows[i] == mid[i]);
        }
    }
    assert forall|i: int, j: int|
        0 <= i < j < rows.len() implies (#[trigger] rows[i]).id != (#[trigger] rows[j]).id by {
        if j < n {
            assert(rows[i] == mid[i] && rows[j] == mid[j]);
        } else {
            assert(rows[i] == mid[i] && rows[j] == stored);
        }
    }
    assert forall|i: int, j: int|
        0 <= i < j < rows.len() && i != j implies !((#[trigger] rows[i]).end is None && (
    #[trigger] rows[j]).end is None && reference_id(rows[i].day) == reference_id(
        rows[j].day,
    )) by {
        if j < n {
            assert(rows[i] == mid[i] && rows[j] == mid[j]);
        } else {
            assert(rows[i] == mid[i] && rows[j] == stored);
            if rows[i].end is None && reference_id(rows[i].day) == day_id {
                assert(active_row(mid[i], day_id));
            }
        }
    }
}

/// Appending a running task that starts at `time` keeps a day's rows
/// apart, provided every closed row of the day has ended by `time` and no
/// other running task is left on it.
proof fn lemma_push_no_overlap(mid: Seq<Task>, rows: Seq<Task>, stored: Task, d: u64, time: Time)
    requires
        no_overlap(mid, d),
        rows == mid.push(stored),
        stored.end is None,
        stored.start == time,
        reference_id(stored.day) == d ==> closed_ends_at_most(mid, d, time) && (forall|k: int|
            0 <= k < mid.len() ==> !active_row(#[trigger] mid[k], d)),
    ensures
        no_overlap(rows, d),
{
    let n = mid.len() as int;
    assert forall|i: int, j: int|
        0 <= i < rows.len() && 0 <= j < rows.len() && i != j && on_day(
            #[trigger] rows[i],
            d,
        ) && on_day(#[trigger] rows[j], d) && rows[i].end is Some && rows[j].end
            is Some implies rows[i].end->0.seconds <= rows[j].start.seconds
        || rows[j].end->0.seconds <= rows[i].start.seconds by {
        assert(i < n && j < n);
        assert(rows[i] == mid[i] && rows[j] == mid[j]);
    }
    assert forall|i: int, j: int|
        0 <= i < rows.len() && 0 <= j < rows.len() && i != j && on_day(
            #[trigger] rows[i],
            d,
        ) && on_day(#[trigger] rows[j], d) && rows[i].end is None && rows[j].end
            is Some implies rows[j].end->0.seconds <= rows[i].start.seconds by {
        assert(j < n && rows[j] == mid[j]);
        if i < n {
            assert(rows[i] == mid[i]);
        } else {
            assert(rows[i] == stored);
        }
    }
}

/// The count of running tasks among `s` on day `day_id`.
pub open spec fn active_count(s: Seq<Task>, day_id: u64) -> int
    decreases s.len(),
{
    if s.len() == 0 {
        0
    } else {
        active_count(s.drop_last(), day_id) + if active_row(s.last(), day_id) {
            1int
        } else {
            0int
        }
    }
}

/// A positive count names a running row.
proof fn lemma_active_count_witness(s: Seq<Task>, day_id: u64)
    requires
        active_count(s, day_id) > 0,
    ensures
        exists|i: int| 0 <= i < s.len() && active_row(#[trigger] s[i], day_id),
    decreases s.len(),
{
    if active_row(s.last(), day_id) {
        assert(active_row(s[s.len() - 1], day_id));
    } else {
        lemma_active_count_witness(s.drop_last(), day_id);
        let i = choose|i: int|
            0 <= i < s.drop_last().len() && active_row(#[trigger] s.drop_last()[i], day_id);
        assert(active_row(s[i], day_id));
    }
}

/// The single-active rule, counted: in a well-formed store, each day has
/// zero or one running task, after any sequence of operations — every
/// operation ends in a well-formed store.
pub proof fn lemma_single_active(rows: Seq<Task>, next_id: u64, day_id: u64)
    requires
        task_rows_wf(rows, next_id),
    ensures
        0 <= active_count(rows, day_id) <= 1,
    decreases rows.len(),
{
    if rows.len() > 0 {
        let init = rows.drop_last();
        assert(task_rows_wf(init, next_id)) by {
            assert forall|i: int| 0 <= i < init.len() implies task_row_wf(#[trigger] init[i])
                && init[i].id < next_id by {
                assert(init[i] == rows[i]);
            }
            assert forall|i: int, j: int| 0 <= i < j < init.len() implies (
            #[trigger] init[i]).id != (#[trigger] init[j]).id by {
                assert(init[i] == rows[i] && init[j] == rows[j]);
            }
            assert forall|i: int, j: int|
                0 <= i < j < init.len() && i != j implies !((#[trigger] init[i]).end is None && (
            #[trigger] init[j]).end is None && reference_id(init[i].day) == reference_id(
                init[j].day,
            )) by {
                assert(init[i] == rows[i] && init[j] == rows[j]);
            }
        }
        lemma_single_active(init, next_id, day_id);
        if active_row(rows.last(), day_id) && active_count(init, day_id) > 0 {
            lemma_active_count_witness(init, day_id);
            let i = choose|i: int| 0 <= i < init.len() && active_row(#[trigger] init[i], day_id);
            assert(rows[i] == init[i]);
            assert(!(rows[i].end is None && rows[rows.len() - 1].end is None && reference_id(
                rows[i].day,
            ) == reference_id(rows[rows.len() - 1].day)));
            assert(false);
        }
    }
}

/// The no-overlap rule, read on the clock: on a day whose rows satisfy
/// `no_overlap` and carry at most one running task, any two tasks'
/// stretches from start to effective end are disjoint, whatever the clock
/// says. Every operation's contract carries `no_overlap` forward, so this
/// holds after any sequence of them.
pub proof fn lemma_day_stretches_disjoint(s: Seq<Task>, next_id: u64, day: Day, clock: Clock)
    requires
        task_rows_wf(s, next_id),
        no_overlap(s, day.id),
    ensures
        forall|i: int, j: int|
            0 <= i < s.len() && 0 <= j < s.len() && i != j && on_day(#[trigger] s[i], day.id)
                && on_day(#[trigger] s[j], day.id) ==> eff_end_spec(s[i], day, clock).seconds
                <= s[j].start.seconds || eff_end_spec(s[j], day, clock).seconds
                <= s[i].start.seconds,
{
    assert forall|i: int, j: int|
        0 <= i < s.len() && 0 <= j < s.len() && i != j && on_day(#[trigger] s[i], day.id)
            && on_day(#[trigger] s[j], day.id) implies eff_end_spec(s[i], day, clock).seconds
        <= s[j].start.seconds || eff_end_spec(s[j], day, clock).seconds <= s[i].start.seconds by {
        if s[i].end is None && s[j].end is None {
            if i < j {
                assert(!(s[i].end is None && s[j].end is None && reference_id(s[i].day)
                    == reference_id(s[j].day)));
            } else {
                assert(!(s[j].end is None && s[i].end is None && reference_id(s[j].day)
                    == reference_id(s[i].day)));
            }
        }
    }
}

/// Reading a task back by its identifier is unambiguous: a well-formed
/// store holds at most one row per identifier, so what `task` returns for
/// an identifier is the row that was persisted under it.
pub proof fn lemma_lookup_unambiguous(rows: Seq<Task>, next_id: u64, id: u64)
    requires
        task_rows_wf(rows, next_id),
    ensures
        forall|i: int, j: int|
            0 <= i < rows.len() && 0 <= j < rows.len() && (#[trigger] rows[i]).id == id && (
            #[trigger] rows[j]).id == id ==> i == j,
{
    assert forall|i: int, j: int|
        0 <= i < rows.len() && 0 <= j < rows.len() && (#[trigger] rows[i]).id == id && (
    #[trigger] rows[j]).id == id implies i == j by {
        if i < j {
            assert(rows[i].id != rows[j].id);
        } else if j < i {
            assert(rows[j].id != rows[i].id);
        }
    }
}

/// Two row sequences that agree everywhere on day membership, start and
/// end carry the same overlaps.
proof fn lemma_same_times_no_overlap(before: Seq<Task>, after: Seq<Task>, d: u64)
    requires
        no_overlap(before, d),
        after.len() == before.len(),
        forall|k: int|
            0 <= k < before.len() ==> on_day(#[trigger] after[k], d) == on_day(before[k], d) && (
            #[trigger] after[k]).start == before[k].start && after[k].end == before[k].end,
    ensures
        no_overlap(after, d),
{
}

} // verus!

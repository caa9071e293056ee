use vstd::prelude::*;
use crate::date::Clock;
use crate::day::Day;
use crate::task::{Task, eff_end_spec, task_times_wf};
use crate::time::Time;

verus! {

/// The longest a single task can run within one day, in seconds.
pub const MAX_TASK_SECONDS: u32 = 86399;

/// Tasks ready for display computations: each carries its day by value,
/// has coherent times, and does not start after its effective end (the
/// clock has not fallen behind a running task's start).
pub open spec fn tasks_renderable(tasks: Seq<Task>, clock: Clock) -> bool {
    forall|i: int|
        0 <= i < tasks.len() ==> {
            let t = #[trigger] tasks[i];
            &&& t.day is Value
            &&& task_times_wf(t)
            &&& t.start.seconds <= eff_end_spec(t, t.day->Value_0, clock).seconds
        }
}

/// The effective end of the task at `i`, for reading off a task list.
pub open spec fn eff_at(tasks: Seq<Task>, clock: Clock, i: int) -> Time {
    eff_end_spec(tasks[i], tasks[i].day->Value_0, clock)
}

/// The summed elapsed seconds of `tasks`.
pub open spec fn delta_sum(tasks: Seq<Task>, clock: Clock) -> int
    decreases tasks.len(),
{
    if tasks.len() == 0 {
        0
    } else {
        delta_sum(tasks.drop_last(), clock) + (eff_at(tasks, clock, tasks.len() - 1).seconds
            - tasks.last().start.seconds)
    }
}

/// Sums the elapsed seconds of a task list.
fn sum_deltas(tasks: &Vec<Task>, clock: &Clock) -> (r: u128)
    requires
        clock.valid(),
        tasks_renderable(tasks@, *clock),
    ensures
        r == delta_sum(tasks@, *clock),
{
    let n = tasks.len();
    let mut acc: u128 = 0;
    let mut i: usize = 0;
    while i < n
        invariant
            0 <= i <= n,
            n == tasks@.len(),
            clock.valid(),
            tasks_renderable(tasks@, *clock),
            acc == delta_sum(tasks@.take(i as int), *clock),
            acc <= (i as int) * (MAX_TASK_SECONDS as int),
        decreases n - i,
    {
        let task = &tasks[i];
        let d = task.delta(clock);
        proof {
            let taken = tasks@.take(i + 1);
            assert(taken.drop_last() == tasks@.take(i as int));
            assert(taken.last() == tasks@[i as int]);
            assert(eff_at(taken, *clock, taken.len() - 1) == eff_end_spec(
                tasks@[i as int],
                tasks@[i as int].day->Value_0,
                *clock,
            ));
        }
        acc = acc + (d as u128);
        i = i + 1;
    }
    proof {
        assert(tasks@.take(n as int) == tasks@);
    }
    acc
}

/// The latest effective end among `tasks`, `None` when there are none.
fn max_eff_end(tasks: &Vec<Task>, clock: &Clock) -> (r: Option<Time>)
    requires
        clock.valid(),
        tasks_renderable(tasks@, *clock),
    ensures
        (r is None) <==> tasks@.len() == 0,
        r matches Some(m) ==> (exists|i: int|
            0 <= i < tasks@.len() && eff_at(tasks@, *clock, i) == m) && (forall|i: int|
            0 <= i < tasks@.len() ==> (#[trigger] eff_at(tasks@, *clock, i)).seconds <= m.seconds)
            && m.seconds == max_eff_secs(tasks@, *clock),
{
    let n = tasks.len();
    let mut best: Option<Time> = None;
    let mut i: usize = 0;
    while i < n
        invariant
            0 <= i <= n,
            n == tasks@.len(),
            clock.valid(),
            tasks_renderable(tasks@, *clock),
            (best is None) <==> i == 0,
            best matches Some(m) ==> (exists|k: int|
                0 <= k < i && eff_at(tasks@, *clock, k) == m) && (forall|k: int|
                0 <= k < i ==> (#[trigger] eff_at(tasks@, *clock, k)).seconds <= m.seconds)
                && m.seconds == max_eff_secs(tasks@.take(i as int), *clock),
        decreases n - i,
    {
        let task = &tasks[i];
        let e = task.end_or_day_time(clock);
        proof {
            assert(e == eff_at(tasks@, *clock, i as int));
            let taken = tasks@.take(i + 1);
            assert(taken.drop_last() == tasks@.take(i as int));
            assert(taken.last() == tasks@[i as int]);
            assert(eff_at(taken, *clock, taken.len() - 1) == eff_at(tasks@, *clock, i as int));
            assert(max_eff_secs(taken, *clock) == if (e.seconds as int) > max_eff_secs(
                tasks@.take(i as int),
                *clock,
            ) {
                e.seconds as int
            } else {
                max_eff_secs(tasks@.take(i as int), *clock)
            });
            if i == 0 {
                assert(tasks@.take(0).len() == 0);
                assert(max_eff_secs(tasks@.take(0), *clock) == -1);
            }
        }
        best = match best {
            None => Some(e),
            Some(m) => {
                if e.seconds > m.seconds {
                    Some(e)
                } else {
                    Some(m)
                }
            },
        };
        i = i + 1;
    }
    proof {
        assert(tasks@.take(n as int) == tasks@);
    }
    best
}

/// The distinct descriptions of `tasks`, each at its first occurrence, in
/// encounter order.
pub open spec fn descriptions_of(tasks: Seq<Task>) -> Seq<Seq<char>>
    decreases tasks.len(),
{
    if tasks.len() == 0 {
        Seq::empty()
    } else {
        let init = descriptions_of(tasks.drop_last());
        if init.contains(tasks.last().description@) {
            init
        } else {
            init.push(tasks.last().description@)
        }
    }
}

/// The position of `d` in `descs`, counting from the front.
pub open spec fn desc_rank(descs: Seq<Seq<char>>, d: Seq<char>) -> int
    decreases descs.len(),
{
    if descs.len() == 0 {
        0
    } else if descs[0] == d {
        0
    } else {
        1 + desc_rank(descs.drop_first(), d)
    }
}

/// The largest effective-end second among `tasks`; below every time when
/// there are none.
pub open spec fn max_eff_secs(tasks: Seq<Task>, clock: Clock) -> int
    decreases tasks.len(),
{
    if tasks.len() == 0 {
        -1
    } else {
        let rest = max_eff_secs(tasks.drop_last(), clock);
        let e = eff_at(tasks, clock, tasks.len() - 1).seconds as int;
        if e > rest {
            e
        } else {
            rest
        }
    }
}

/// `descriptions_of` never lists a description twice.
proof fn lemma_descriptions_distinct(tasks: Seq<Task>)
    ensures
        forall|k: int, l: int|
            0 <= k < l < descriptions_of(tasks).len() ==> descriptions_of(tasks)[k]
                != descriptions_of(tasks)[l],
    decreases tasks.len(),
{
    if tasks.len() > 0 {
        lemma_descriptions_distinct(tasks.drop_last());
        let init = descriptions_of(tasks.drop_last());
        let whole = descriptions_of(tasks);
        if !init.contains(tasks.last().description@) {
            assert forall|k: int, l: int|
                0 <= k < l < whole.len() implies whole[k] != whole[l] by {
                if l == whole.len() - 1 {
                    assert(whole[k] == init[k]);
                    assert(whole[l] == tasks.last().description@);
                    assert(init.contains(init[k]));
                }
            }
        }
    }
}

/// Every task's description is listed by `descriptions_of`.
proof fn lemma_descriptions_complete(tasks: Seq<Task>)
    ensures
        forall|i: int|
            0 <= i < tasks.len() ==> descriptions_of(tasks).contains(
                (#[trigger] tasks[i]).description@,
            ),
    decreases tasks.len(),
{
    if tasks.len() > 0 {
        lemma_descriptions_complete(tasks.drop_last());
        let init = descriptions_of(tasks.drop_last());
        let whole = descriptions_of(tasks);
        assert forall|i: int| 0 <= i < tasks.len() implies whole.contains(
            (#[trigger] tasks[i]).description@,
        ) by {
            if i < tasks.len() - 1 {
                assert(tasks.drop_last()[i] == tasks[i]);
                assert(init.contains(tasks[i].description@));
                let w = choose|w: int| 0 <= w < init.len() && init[w] == tasks[i].description@;
                assert(whole[w] == tasks[i].description@);
            } else {
                if init.contains(tasks.last().description@) {
                    let w = choose|w: int|
                        0 <= w < init.len() && init[w] == tasks.last().description@;
                    assert(whole[w] == tasks.last().description@);
                } else {
                    assert(whole[whole.len() - 1] == tasks.last().description@);
                }
            }
        }
    }
}

/// A description `descriptions_of` does not list filters to nothing.
proof fn lemma_filter_absent(tasks: Seq<Task>, d: Seq<char>)
    requires
        !descriptions_of(tasks).contains(d),
    ensures
        tasks.filter(|t: Task| t.description@ == d) == Seq::<Task>::empty(),
    decreases tasks.len(),
{
    reveal_with_fuel(Seq::filter, 2);
    if tasks.len() == 0 {
        assert(tasks.filter(|t: Task| t.description@ == d) =~= Seq::<Task>::empty());
    } else {
        let init = descriptions_of(tasks.drop_last());
        assert(!init.contains(d)) by {
            if init.contains(d) {
                let w = choose|w: int| 0 <= w < init.len() && init[w] == d;
                assert(descriptions_of(tasks)[w] == d);
            }
        }
        lemma_filter_absent(tasks.drop_last(), d);
        assert(tasks.last().description@ != d) by {
            lemma_descriptions_complete(tasks);
            assert(descriptions_of(tasks).contains(tasks[tasks.len() - 1].description@));
        }
        assert(tasks.filter(|t: Task| t.description@ == d) == tasks.drop_last().filter(
            |t: Task| t.description@ == d,
        ));
    }
}

/// A description `descriptions_of` lists filters to at least one task.
proof fn lemma_filter_present(tasks: Seq<Task>, d: Seq<char>)
    requires
        descriptions_of(tasks).contains(d),
    ensures
        tasks.filter(|t: Task| t.description@ == d).len() > 0,
    decreases tasks.len(),
{
    reveal_with_fuel(Seq::filter, 2);
    let init = descriptions_of(tasks.drop_last());
    if tasks.last().description@ == d {
        assert(tasks.filter(|t: Task| t.description@ == d) == tasks.drop_last().filter(
            |t: Task| t.description@ == d,
        ).push(tasks.last()));
    } else {
        assert(init.contains(d)) by {
            let w = choose|w: int|
                0 <= w < descriptions_of(tasks).len() && descriptions_of(tasks)[w] == d;
            if init.contains(tasks.last().description@) {
                assert(init[w] == d);
            } else {
                assert(w < init.len());
                assert(init[w] == d);
            }
        }
        lemma_filter_present(tasks.drop_last(), d);
        assert(tasks.filter(|t: Task| t.description@ == d) == tasks.drop_last().filter(
            |t: Task| t.description@ == d,
        ));
    }
}

/// In a duplicate-free description list the rank of an entry is its index.
proof fn lemma_desc_rank_of_index(descs: Seq<Seq<char>>, m: int)
    requires
        0 <= m < descs.len(),
        forall|k: int, l: int| 0 <= k < l < descs.len() ==> descs[k] != descs[l],
    ensures
        desc_rank(descs, descs[m]) == m,
    decreases descs.len(),
{
    if m > 0 {
        assert(descs[0] != descs[m]);
        let rest = descs.drop_first();
        assert(rest[m - 1] == descs[m]);
        assert forall|k: int, l: int| 0 <= k < l < rest.len() implies rest[k] != rest[l] by {
            assert(rest[k] == descs[k + 1] && rest[l] == descs[l + 1]);
        }
        lemma_desc_rank_of_index(rest, m - 1);
    }
}

/// The tasks of one day sharing a description, for summary totals.
pub struct TaskGroup {
    description: String,
    tasks: Vec<Task>,
}

impl TaskGroup {
    /// The shared description.
    pub closed spec fn spec_description(&self) -> Seq<char> {
        self.description@
    }

    /// The member tasks, in day order.
    pub closed spec fn spec_tasks(&self) -> Seq<Task> {
        self.tasks@
    }

    pub fn new(description: String, tasks: Vec<Task>) -> (r: TaskGroup)
        ensures
            r.spec_description() == description@,
            r.spec_tasks() == tasks@,
    {
        TaskGroup { description, tasks }
    }

    /// A group seeded with a single task, described as that task is.
    pub fn from_task(task: Task) -> (r: TaskGroup)
        ensures
            r.spec_description() == task.description@,
            r.spec_tasks().len() == 1,
            r.spec_tasks()[0] == task,
    {
        let description = task.description.clone();
        let mut tasks: Vec<Task> = Vec::new();
        tasks.push(task);
        TaskGroup { description, tasks }
    }

    /// Accepts `task` into the group when its description matches,
    /// refuses it otherwise.
    pub fn add_task(&mut self, task: Task) -> (r: bool)
        ensures
            r == (task.description@ == old(self).spec_description()),
            final(self).spec_description() == old(self).spec_description(),
            r ==> final(self).spec_tasks() == old(self).spec_tasks().push(task),
            !r ==> final(self).spec_tasks() == old(self).spec_tasks(),
    {
        if !(self.description == task.description) {
            return false;
        }
        self.tasks.push(task);
        true
    }

    pub fn description(&self) -> (r: &str)
        ensures
            r@ == self.spec_description(),
    {
        self.description.as_str()
    }

    pub fn tasks(&self) -> (r: &Vec<Task>)
        ensures
            r@ == self.spec_tasks(),
    {
        &self.tasks
    }

    /// The summed elapsed seconds of the member tasks.
    pub fn delta(&self, clock: &Clock) -> (r: u128)
        requires
            clock.valid(),
            tasks_renderable(self.spec_tasks(), *clock),
        ensures
            r == delta_sum(self.spec_tasks(), *clock),
    {
        sum_deltas(&self.tasks, clock)
    }

    /// The latest effective end among the member tasks: the time the
    /// group was last active, which orders groups within a day.
    pub fn latest_time(&self, clock: &Clock) -> (r: Option<Time>)
        requires
            clock.valid(),
            tasks_renderable(self.spec_tasks(), *clock),
        ensures
            (r is None) <==> self.spec_tasks().len() == 0,
            r matches Some(m) ==> (exists|i: int|
                0 <= i < self.spec_tasks().len() && eff_at(self.spec_tasks(), *clock, i) == m) && (
            forall|i: int|
                0 <= i < self.spec_tasks().len() ==> (#[trigger] eff_at(
                    self.spec_tasks(),
                    *clock,
                    i,
                )).seconds <= m.seconds) && m.seconds == max_eff_secs(self.spec_tasks(), *clock),
    {
        max_eff_end(&self.tasks, clock)
    }
}

/// Whether the group was last active at or before `bound`.
fn group_last_active_at_most(g: &TaskGroup, bound: Time, clock: &Clock) -> (r: bool)
    requires
        clock.valid(),
        tasks_renderable(g.spec_tasks(), *clock),
        g.spec_tasks().len() > 0,
    ensures
        r == (max_eff_secs(g.spec_tasks(), *clock) <= bound.seconds),
{
    match g.latest_time(clock) {
        Some(m) => m.seconds <= bound.seconds,
        None => {
            proof {
                assert(false);
            }
            false
        },
    }
}

/// A day together with its tasks, as loaded for display: derived, never
/// persisted.
pub struct DayWithTasks {
    day: Day,
    tasks: Vec<Task>,
}

impl DayWithTasks {
    /// The day.
    pub closed spec fn spec_day(&self) -> Day {
        self.day
    }

    /// The day's tasks, in stored order.
    pub closed spec fn spec_tasks(&self) -> Seq<Task> {
        self.tasks@
    }

    pub fn new(day: Day, tasks: Vec<Task>) -> (r: DayWithTasks)
        ensures
            r.spec_day() == day,
            r.spec_tasks() == tasks@,
    {
        DayWithTasks { day, tasks }
    }

    /// Whether the day has no tasks recorded.
    pub fn is_empty(&self) -> (r: bool)
        ensures
            r == (self.spec_tasks().len() == 0),
    {
        self.tasks.len() == 0
    }

    pub fn day(&self) -> (r: Day)
        ensures
            r == self.spec_day(),
    {
        self.day
    }

    pub fn tasks(&self) -> (r: &Vec<Task>)
        ensures
            r@ == self.spec_tasks(),
    {
        &self.tasks
    }

    /// The day's tasks partitioned by description: one group per distinct
    /// description, holding exactly the day's tasks that carry it in day
    /// order, and the groups ordered by ascending latest activity, groups
    /// last active at the same time keeping first-encounter order.
    pub fn task_groups(&self, clock: &Clock) -> (r: Vec<TaskGroup>)
        requires
            clock.valid(),
            tasks_renderable(self.spec_tasks(), *clock),
        ensures
            ({
                let all = self.spec_tasks();
                let descs = descriptions_of(all);
                &&& r@.len() == descs.len()
                &&& forall|k: int|
                    0 <= k < r@.len() ==> descs.contains(
                        (#[trigger] r@[k]).spec_description(),
                    )
                &&& forall|k: int, l: int|
                    0 <= k < l < r@.len() ==> (#[trigger] r@[k]).spec_description() != (
                    #[trigger] r@[l]).spec_description()
                &&& forall|k: int|
                    0 <= k < r@.len() ==> (#[trigger] r@[k]).spec_tasks() == all.filter(
                        |t: Task| t.description@ == r@[k].spec_description(),
                    )
                &&& forall|k: int| 0 <= k < r@.len() ==> (#[trigger] r@[k]).spec_tasks().len() > 0
                &&& forall|k: int|
                    0 <= k < r@.len() ==> tasks_renderable(
                        (#[trigger] r@[k]).spec_tasks(),
                        *clock,
                    )
                &&& forall|k: int, l: int|
                    0 <= k < l < r@.len() ==> max_eff_secs((#[trigger] r@[k]).spec_tasks(), *clock)
                        < max_eff_secs((#[trigger] r@[l]).spec_tasks(), *clock) || (max_eff_secs(
                        r@[k].spec_tasks(),
                        *clock,
                    ) == max_eff_secs(r@[l].spec_tasks(), *clock) && desc_rank(
                        descs,
                        r@[k].spec_description(),
                    ) < desc_rank(descs, r@[l].spec_description()))
            }),
    {
        let ghost all = self.spec_tasks();
        let ghost view_of = |s: String| s@;
        let n = self.tasks.len();
        let mut names: Vec<String> = Vec::new();
        proof {
            assert(all.take(0) =~= Seq::<Task>::empty());
            assert(names@.map_values(view_of) =~= descriptions_of(all.take(0)));
        }
        let mut i: usize = 0;
        while i < n
            invariant
                0 <= i <= n,
                n == all.len(),
                all == self.spec_tasks(),
                view_of == (|s: String| s@),
                names@.map_values(view_of) == descriptions_of(all.take(i as int)),
            decreases n - i,
        {
            let ghost before = descriptions_of(all.take(i as int));
            proof {
                assert(all.take(i + 1).drop_last() == all.take(i as int));
                assert(all.take(i + 1).last() == all[i as int]);
            }
            let mut found = false;
            let mut j: usize = 0;
            while j < names.len()
                invariant
                    0 <= j <= names@.len(),
                    i < n,
                    n == all.len(),
                    all == self.spec_tasks(),
                    found ==> exists|w: int|
                        0 <= w < names@.len() && (#[trigger] names@[w])@ == all[i as int].description@,
                    !found ==> forall|w: int|
                        0 <= w < j ==> (#[trigger] names@[w])@ != all[i as int].description@,
                decreases names@.len() - j,
            {
                if names[j] == self.tasks[i].description {
                    found = true;
                    proof {
                        assert(names@[j as int]@ == all[i as int].description@);
                    }
                }
                j = j + 1;
            }
            proof {
                if found {
                    let w = choose|w: int|
                        0 <= w < names@.len() && (#[trigger] names@[w])@ == all[
                            i as int
                        ].description@;
                    assert(names@.map_values(view_of)[w] == all[i as int].description@);
                    assert(before.contains(all[i as int].description@));
                } else {
                    if before.contains(all[i as int].description@) {
                        let w = choose|w: int|
                            0 <= w < before.len() && before[w] == all[i as int].description@;
                        assert(names@.map_values(view_of)[w] == all[i as int].description@);
                        assert(names@[w]@ == all[i as int].description@);
                        assert(false);
                    }
                    assert(!before.contains(all[i as int].description@));
                }
            }
            if !found {
                names.push(self.tasks[i].description.clone());
                proof {
                    assert(names@.map_values(view_of) =~= descriptions_of(all.take(i + 1)));
                }
            }
            i = i + 1;
        }
        proof {
            assert(all.take(n as int) == all);
            lemma_descriptions_distinct(all);
        }
        let ghost descs = descriptions_of(all);
        let mut out: Vec<TaskGroup> = Vec::new();
        let mut g: usize = 0;
        while g < names.len()
            invariant
                0 <= g <= names@.len(),
                n == all.len(),
                all == self.spec_tasks(),
                clock.valid(),
                tasks_renderable(all, *clock),
                view_of == (|s: String| s@),
                descs == descriptions_of(all),
                names@.map_values(view_of) == descs,
                out@.len() == g,
                forall|k: int|
                    0 <= k < out@.len() ==> descs.contains(
                        (#[trigger] out@[k]).spec_description(),
                    ),
                forall|k: int|
                    0 <= k < out@.len() ==> desc_rank(
                        descs,
                        (#[trigger] out@[k]).spec_description(),
                    ) < g,
                forall|k: int, l: int|
                    0 <= k < l < out@.len() ==> (#[trigger] out@[k]).spec_description() != (
                    #[trigger] out@[l]).spec_description(),
                forall|k: int|
                    0 <= k < out@.len() ==> (#[trigger] out@[k]).spec_tasks() == all.filter(
                        |t: Task| t.description@ == out@[k].spec_description(),
                    ),
                forall|k: int| 0 <= k < out@.len() ==> (#[trigger] out@[k]).spec_tasks().len() > 0,
                forall|k: int|
                    0 <= k < out@.len() ==> tasks_renderable(
                        (#[trigger] out@[k]).spec_tasks(),
                        *clock,
                    ),
                forall|k: int, l: int|
                    0 <= k < l < out@.len() ==> max_eff_secs(
                        (#[trigger] out@[k]).spec_tasks(),
                        *clock,
                    ) < max_eff_secs((#[trigger] out@[l]).spec_tasks(), *clock) || (max_eff_secs(
                        out@[k].spec_tasks(),
                        *clock,
                    ) == max_eff_secs(out@[l].spec_tasks(), *clock) && desc_rank(
                        descs,
                        out@[k].spec_description(),
                    ) < desc_rank(descs, out@[l].spec_description())),
            decreases names@.len() - g,
        {
            let ghost dg = names@[g as int]@;
            let ghost member_pred = |t: Task| t.description@ == dg;
            let mut members: Vec<Task> = Vec::new();
            proof {
                assert(all.take(0) =~= Seq::<Task>::empty());
                assert(all.take(0).filter(member_pred) =~= Seq::<Task>::empty());
            }
            let mut i2: usize = 0;
            while i2 < n
                invariant
                    0 <= i2 <= n,
                    n == all.len(),
                    all == self.spec_tasks(),
                    clock.valid(),
                    tasks_renderable(all, *clock),
                    g < names@.len(),
                    dg == names@[g as int]@,
                    member_pred == (|t: Task| t.description@ == dg),
                    members@ == all.take(i2 as int).filter(member_pred),
                    tasks_renderable(members@, *clock),
                decreases n - i2,
            {
                let ghost before = all.take(i2 as int);
                let ghost after = all.take(i2 + 1);
                proof {
                    assert(after.drop_last() == before);
                    assert(after.last() == all[i2 as int]);
                }
                if self.tasks[i2].description == names[g] {
                    members.push(self.tasks[i2].clone());
                    proof {
                        reveal_with_fuel(Seq::filter, 2);
                        assert(member_pred(after.last()));
                        assert(after.filter(member_pred) == before.filter(member_pred).push(
                            all[i2 as int],
                        ));
                        assert forall|w: int| 0 <= w < members@.len() implies {
                            let t = #[trigger] members@[w];
                            &&& t.day is Value
                            &&& task_times_wf(t)
                            &&& t.start.seconds <= eff_end_spec(t, t.day->Value_0, *clock).seconds
                        } by {
                            if w < members@.len() - 1 {
                            } else {
                                assert(members@[w] == all[i2 as int]);
                            }
                        }
                    }
                } else {
                    proof {
                        reveal_with_fuel(Seq::filter, 2);
                        assert(!member_pred(after.last()));
                        assert(after.filter(member_pred) == before.filter(member_pred));
                    }
                }
                i2 = i2 + 1;
            }
            proof {
                assert(all.take(n as int) == all);
                assert(descs.contains(dg)) by {
                    assert(names@.map_values(view_of)[g as int] == dg);
                }
                lemma_filter_present(all, dg);
                lemma_descriptions_distinct(all);
                lemma_desc_rank_of_index(descs, g as int);
            }
            let grp = TaskGroup::new(names[g].clone(), members);
            let key = match grp.latest_time(clock) {
                Some(m) => m,
                None => {
                    proof {
                        assert(false);
                    }
                    Time { seconds: 0 }
                },
            };
            let mut p: usize = 0;
            while p < out.len() && group_last_active_at_most(&out[p], key, clock)
                invariant
                    0 <= p <= out@.len(),
                    clock.valid(),
                    forall|k: int|
                        0 <= k < out@.len() ==> tasks_renderable(
                            (#[trigger] out@[k]).spec_tasks(),
                            *clock,
                        ),
                    forall|k: int|
                        0 <= k < out@.len() ==> (#[trigger] out@[k]).spec_tasks().len() > 0,
                    forall|k: int|
                        0 <= k < p ==> max_eff_secs((#[trigger] out@[k]).spec_tasks(), *clock)
                            <= key.seconds,
                decreases out@.len() - p,
            {
                p = p + 1;
            }
            let ghost sorted_before = out@;
            out.insert(p, grp);
            proof {
                sorted_before.insert_ensures(p as int, grp);
                assert(key.seconds == max_eff_secs(grp.spec_tasks(), *clock));
                assert(grp.spec_description() == dg);
                assert(desc_rank(descs, dg) == g);
                assert forall|k: int| 0 <= k < out@.len() implies desc_rank(
                    descs,
                    (#[trigger] out@[k]).spec_description(),
                ) < g + 1 by {
                    if k < p {
                        assert(out@[k] == sorted_before[k]);
                    } else if k > p {
                        assert(out@[k] == sorted_before[k - 1]);
                    }
                }
                assert forall|k: int, l: int|
                    0 <= k < l < out@.len() implies max_eff_secs(
                    (#[trigger] out@[k]).spec_tasks(),
                    *clock,
                ) < max_eff_secs((#[trigger] out@[l]).spec_tasks(), *clock) || (max_eff_secs(
                    out@[k].spec_tasks(),
                    *clock,
                ) == max_eff_secs(out@[l].spec_tasks(), *clock) && desc_rank(
                    descs,
                    out@[k].spec_description(),
                ) < desc_rank(descs, out@[l].spec_description())) by {
                    if k < p {
                        assert(out@[k] == sorted_before[k]);
                    } else if k > p {
                        assert(out@[k] == sorted_before[k - 1]);
                    }
                    if l < p {
                        assert(out@[l] == sorted_before[l]);
                    } else if l > p {
                        assert(out@[l] == sorted_before[l - 1]);
                    }
                }
                assert forall|k: int, l: int|
                    0 <= k < l < out@.len() implies (#[trigger] out@[k]).spec_description() != (
                #[trigger] out@[l]).spec_description() by {
                    if k < p {
                        assert(out@[k] == sorted_before[k]);
                    } else if k > p {
                        assert(out@[k] == sorted_before[k - 1]);
                    }
                    if l < p {
                        assert(out@[l] == sorted_before[l]);
                    } else if l > p {
                        assert(out@[l] == sorted_before[l - 1]);
                    }
                    if out@[k].spec_description() == out@[l].spec_description() {
                        assert(desc_rank(descs, out@[k].spec_description()) == desc_rank(
                            descs,
                            out@[l].spec_description(),
                        ));
                        assert(false);
                    }
                }
            }
            g = g + 1;
        }
        out
    }

    /// The summed elapsed seconds of every task of the day.
    pub fn delta(&self, clock: &Clock) -> (r: u128)
        requires
            clock.valid(),
            tasks_renderable(self.spec_tasks(), *clock),
        ensures
            r == delta_sum(self.spec_tasks(), *clock),
    {
        sum_deltas(&self.tasks, clock)
    }
}

} // verus!

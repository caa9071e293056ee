use ttrack::aggregate::DayWithTasks;
use ttrack::aggregate::TaskGroup;
use ttrack::config::Config;
use ttrack::date::{Clock, Date};
use ttrack::day::{Day, DayReference, DayRepository};
use ttrack::error::Error;
use ttrack::task::{MutTask, Task, TaskRepository};
use ttrack::time::Time;

fn hm(h: u32, m: u32) -> Time {
    Time::from_hms(h, m, 0).unwrap()
}

fn clock_at(days: u64, h: u32, m: u32) -> Clock {
    Clock { today: Date { days }, time: hm(h, m) }
}

const TODAY: u64 = 738888;

fn day_one(repo: &mut DayRepository) -> Day {
    repo.from_date(Date { days: TODAY })
}

#[test]
fn p3_start_supersedes() {
    let mut days = DayRepository::new();
    let day = day_one(&mut days);
    let mut tasks = TaskRepository::new();
    let first = tasks.start(day, "alpha", &clock_at(TODAY, 10, 0)).unwrap();
    assert!(first.is_active());
    assert_eq!(first.start(), hm(10, 0));
    let second = tasks.start(day, "beta", &clock_at(TODAY, 11, 0)).unwrap();
    assert!(second.is_active());
    let closed = tasks.task(first.id()).unwrap();
    assert_eq!(closed.end(), Some(hm(11, 0)));
    // the superseded task's span is fixed and strictly positive
    let clock = clock_at(TODAY, 12, 0);
    let closed = MutTask::with_day(closed, day);
    assert_eq!(closed.delta(&clock), 3600);
    let current = tasks.current(day).unwrap();
    assert_eq!(current.id(), second.id());
    assert_eq!(current.description(), "beta");
}

fn two_closed_tasks() -> (DayRepository, TaskRepository, Day, u64, u64) {
    let mut days = DayRepository::new();
    let day = day_one(&mut days);
    let mut tasks = TaskRepository::new();
    let a = tasks.start(day, "a", &clock_at(TODAY, 10, 0)).unwrap();
    tasks.stop(day, &clock_at(TODAY, 11, 0)).unwrap();
    let b = tasks.start(day, "b", &clock_at(TODAY, 11, 0)).unwrap();
    tasks.stop(day, &clock_at(TODAY, 12, 0)).unwrap();
    (days, tasks, day, a.id(), b.id())
}

#[test]
fn p4_set_start_cascade() {
    let (_days, mut tasks, day, a_id, b_id) = two_closed_tasks();
    let b = MutTask::with_day(tasks.task(b_id).unwrap(), day);
    let clock = clock_at(TODAY, 13, 0);
    let moved = tasks.set_start(b, hm(10, 30), &clock).unwrap();
    assert_eq!(moved.start(), hm(10, 30));
    let a = tasks.task(a_id).unwrap();
    assert_eq!(a.end(), Some(hm(10, 30)));
    let b = MutTask::with_day(tasks.task(b_id).unwrap(), day);
    assert_eq!(b.start(), hm(10, 30));
    // the boundary moved: a shrank to 30m, b grew to 1h30m
    let a = MutTask::with_day(tasks.task(a_id).unwrap(), day);
    assert_eq!(a.delta(&clock), 30 * 60);
    assert_eq!(b.delta(&clock), 90 * 60);
}

#[test]
fn p4_set_start_before_predecessor_rejected() {
    let (_days, mut tasks, day, a_id, b_id) = two_closed_tasks();
    let b = MutTask::with_day(tasks.task(b_id).unwrap(), day);
    let clock = clock_at(TODAY, 13, 0);
    // 09:00 lies before a's start: repairing a's end to 09:00 would not
    // stay after a's start, so the whole edit is rejected unapplied
    let r = tasks.set_start(b, hm(9, 0), &clock);
    assert_eq!(r.err(), Some(Error::InvalidRange));
    assert_eq!(tasks.task(a_id).unwrap().end(), Some(hm(11, 0)));
    assert_eq!(tasks.task(b_id).unwrap().start(), hm(11, 0));
}

#[test]
fn p5_set_start_same_time_is_noop() {
    let (_days, mut tasks, day, a_id, b_id) = two_closed_tasks();
    let b = MutTask::with_day(tasks.task(b_id).unwrap(), day);
    let clock = clock_at(TODAY, 13, 0);
    let back = tasks.set_start(b, hm(11, 0), &clock).unwrap();
    assert_eq!(back.start(), hm(11, 0));
    assert_eq!(back.end(), Some(hm(12, 0)));
    assert_eq!(back.description(), "b");
    // neither the moved row nor its neighbour was touched
    assert_eq!(tasks.task(a_id).unwrap().end(), Some(hm(11, 0)));
    assert_eq!(tasks.task(b_id).unwrap().start(), hm(11, 0));
}

#[test]
fn p6_grouping_order_and_totals() {
    let mut days = DayRepository::new();
    let day = day_one(&mut days);
    let mut tasks = TaskRepository::new();
    tasks.start(day, "X", &clock_at(TODAY, 8, 0)).unwrap();
    tasks.stop(day, &clock_at(TODAY, 9, 0)).unwrap();
    tasks.start(day, "Y", &clock_at(TODAY, 9, 0)).unwrap();
    tasks.stop(day, &clock_at(TODAY, 10, 0)).unwrap();
    tasks.start(day, "X", &clock_at(TODAY, 10, 0)).unwrap();
    tasks.stop(day, &clock_at(TODAY, 11, 0)).unwrap();
    let clock = clock_at(TODAY, 12, 0);
    let with_tasks = tasks.day_with_tasks(day);
    let groups = with_tasks.task_groups(&clock);
    assert_eq!(groups.len(), 2);
    // ascending by latest activity: "Y" finished at 10:00, "X" at 11:00
    assert_eq!(groups[0].description(), "Y");
    assert_eq!(groups[1].description(), "X");
    assert_eq!(groups[0].latest_time(&clock), Some(hm(10, 0)));
    assert_eq!(groups[1].latest_time(&clock), Some(hm(11, 0)));
    // the "X" group's total is the sum of its two members
    assert_eq!(groups[1].tasks().len(), 2);
    assert_eq!(groups[1].delta(&clock), 2 * 3600);
    assert_eq!(with_tasks.delta(&clock), 3 * 3600);
    assert!(!with_tasks.is_empty());
}

#[test]
fn p6_grouping_ties_keep_first_encounter_order() {
    // two groups last active at the same second stay in encounter order
    let day = Day::new(1, Date { days: TODAY });
    let t = |id: u64, desc: &str, s: Time, e: Time| Task::new(
        id,
        DayReference::Value(day),
        s,
        Some(e),
        desc.to_owned(),
    );
    let list = vec![
        t(1, "m", hm(8, 0), hm(12, 0)),
        t(2, "n", hm(7, 0), hm(12, 0)),
    ];
    let clock = clock_at(TODAY, 13, 0);
    let with_tasks = DayWithTasks::new(day, list);
    let groups = with_tasks.task_groups(&clock);
    assert_eq!(groups.len(), 2);
    assert_eq!(groups[0].description(), "m");
    assert_eq!(groups[1].description(), "n");
}

#[test]
fn p7_week_walk_from_wednesday() {
    assert_eq!(Date { days: TODAY }.weekday_index(), 2);
    let mut days = DayRepository::new();
    let week = days.week_till_today(&clock_at(TODAY, 9, 0));
    assert_eq!(week.len(), 3);
    assert_eq!(week[0].date(), Date { days: TODAY });
    assert_eq!(week[1].date(), Date { days: TODAY - 1 });
    assert_eq!(week[2].date(), Date { days: TODAY - 2 });
    assert!(week[2].date().is_monday());
    assert_ne!(week[0].id(), week[1].id());
    assert_ne!(week[1].id(), week[2].id());
    assert_ne!(week[0].id(), week[2].id());
}

#[test]
fn complete_week_from_sunday_has_seven_days() {
    // four days past the Wednesday lies a Sunday
    let anchor = Date { days: TODAY + 4 };
    assert_eq!(anchor.weekday_index(), 6);
    let mut days = DayRepository::new();
    let week = days.complete_week(anchor);
    assert_eq!(week.len(), 7);
    assert!(week[6].date().is_monday());
}

#[test]
fn p8_round_trip_trims_description() {
    let mut days = DayRepository::new();
    let day = day_one(&mut days);
    let mut tasks = TaskRepository::new();
    let started = tasks.start(day, "  deep work\t", &clock_at(TODAY, 10, 0)).unwrap();
    assert_eq!(started.description(), "deep work");
    let read = tasks.task(started.id()).unwrap();
    assert_eq!(read.start(), hm(10, 0));
    assert_eq!(read.end(), None);
    assert_eq!(read.description(), "deep work");
    tasks.stop(day, &clock_at(TODAY, 10, 30)).unwrap();
    let read = tasks.task(started.id()).unwrap();
    assert_eq!(read.end(), Some(hm(10, 30)));
    assert_eq!(read.description(), "deep work");
}

#[test]
fn start_rejects_blank_description() {
    let mut days = DayRepository::new();
    let day = day_one(&mut days);
    let mut tasks = TaskRepository::new();
    let r = tasks.start(day, "   \t ", &clock_at(TODAY, 10, 0));
    assert_eq!(r.err(), Some(Error::Validation));
    assert_eq!(tasks.current(day).err(), Some(Error::NoActiveTask));
}

#[test]
fn stop_without_active_task_fails() {
    let mut days = DayRepository::new();
    let day = day_one(&mut days);
    let mut tasks = TaskRepository::new();
    assert_eq!(tasks.stop(day, &clock_at(TODAY, 10, 0)).err(), Some(Error::NoActiveTask));
    assert_eq!(tasks.current(day).err(), Some(Error::NoActiveTask));
}

#[test]
fn rename_current_trims_and_validates() {
    let mut days = DayRepository::new();
    let day = day_one(&mut days);
    let mut tasks = TaskRepository::new();
    assert_eq!(tasks.rename_current(day, "x").err(), Some(Error::NoActiveTask));
    tasks.start(day, "draft", &clock_at(TODAY, 10, 0)).unwrap();
    assert_eq!(tasks.rename_current(day, "  \n ").err(), Some(Error::Validation));
    let renamed = tasks.rename_current(day, "  final copy ").unwrap();
    assert_eq!(renamed.description(), "final copy");
    assert_eq!(renamed.start(), hm(10, 0));
    assert_eq!(renamed.end(), None);
    let read = tasks.current(day).unwrap();
    assert_eq!(read.description(), "final copy");
}

#[test]
fn set_end_validates_range_and_does_not_cascade_forward() {
    let (_days, mut tasks, day, a_id, b_id) = two_closed_tasks();
    let a = MutTask::with_day(tasks.task(a_id).unwrap(), day);
    assert_eq!(tasks.set_end(a, hm(10, 0)).err(), Some(Error::InvalidRange));
    let a = MutTask::with_day(tasks.task(a_id).unwrap(), day);
    // reaching past b's start is accepted: end edits repair nothing
    let widened = tasks.set_end(a, hm(11, 30)).unwrap();
    assert_eq!(widened.end(), Some(hm(11, 30)));
    assert_eq!(tasks.task(a_id).unwrap().end(), Some(hm(11, 30)));
    assert_eq!(tasks.task(b_id).unwrap().start(), hm(11, 0));
}

#[test]
fn shift_start_moves_by_minutes() {
    let (_days, mut tasks, day, a_id, b_id) = two_closed_tasks();
    let b = MutTask::with_day(tasks.task(b_id).unwrap(), day);
    let clock = clock_at(TODAY, 13, 0);
    let moved = tasks.shift_start(b, -30 * 60, &clock).unwrap();
    assert_eq!(moved.start(), hm(10, 30));
    assert_eq!(tasks.task(a_id).unwrap().end(), Some(hm(10, 30)));
}

#[test]
fn task_lookup_unknown_id_fails() {
    let tasks = TaskRepository::new();
    assert_eq!(tasks.task(7).err(), Some(Error::NotFound));
}

#[test]
fn prev_picks_most_recently_ended_before_start() {
    let mut days = DayRepository::new();
    let day = day_one(&mut days);
    let mut tasks = TaskRepository::new();
    tasks.start(day, "early", &clock_at(TODAY, 8, 0)).unwrap();
    tasks.stop(day, &clock_at(TODAY, 9, 0)).unwrap();
    let mid = tasks.start(day, "mid", &clock_at(TODAY, 10, 0)).unwrap();
    tasks.stop(day, &clock_at(TODAY, 11, 0)).unwrap();
    let probe = Task::new(99, DayReference::Value(day), hm(12, 0), None, "probe".to_owned());
    let found = tasks.prev(&probe).unwrap();
    assert_eq!(found.id(), mid.id());
    assert_eq!(found.end(), Some(hm(11, 0)));
    let early_probe = Task::new(99, DayReference::Value(day), hm(7, 0), None, "probe".to_owned());
    assert!(tasks.prev(&early_probe).is_none());
}

#[test]
fn day_repository_reuses_days_and_finds_by_id() {
    let mut days = DayRepository::new();
    let first = days.from_date(Date { days: TODAY });
    let again = days.from_date(Date { days: TODAY });
    assert_eq!(first.id(), again.id());
    let other = days.from_date(Date { days: TODAY + 1 });
    assert_ne!(first.id(), other.id());
    assert_eq!(days.day(first.id()), Ok(first));
    assert_eq!(days.day(42), Err(Error::NotFound));
    assert_eq!(days.resolve(DayReference::Id(other.id())), Ok(other));
    assert_eq!(days.resolve(DayReference::Value(first)), Ok(first));
}

#[test]
fn today_and_yesterday_resolve_adjacent_dates() {
    let mut days = DayRepository::new();
    let clock = clock_at(TODAY, 9, 0);
    let today = days.today(&clock);
    assert_eq!(today.date(), Date { days: TODAY });
    let yesterday = days.yesterday(&clock).unwrap();
    assert_eq!(yesterday.date(), Date { days: TODAY - 1 });
    assert_eq!(
        days.yesterday(&Clock { today: Date { days: 0 }, time: hm(9, 0) }),
        Err(Error::NotFound)
    );
}

#[test]
fn from_days_ago_counts_back_from_today() {
    let mut days = DayRepository::new();
    let clock = clock_at(TODAY, 9, 0);
    let day = days.from_days_ago(&clock, 3).unwrap();
    assert_eq!(day.date(), Date { days: TODAY - 3 });
    let same = days.from_date(Date { days: TODAY - 3 });
    assert_eq!(day.id(), same.id());
    assert_eq!(days.from_days_ago(&clock, TODAY + 1).err(), Some(Error::NotFound));
}

#[test]
fn list_passed_days_returns_newest_first() {
    let mut days = DayRepository::new();
    days.from_date(Date { days: TODAY - 2 });
    days.from_date(Date { days: TODAY });
    days.from_date(Date { days: TODAY - 1 });
    let listed = days.list_passed_days(2);
    assert_eq!(listed.len(), 2);
    assert_eq!(listed[0].date(), Date { days: TODAY });
    assert_eq!(listed[1].date(), Date { days: TODAY - 1 });
    assert_eq!(days.list_passed_days(9).len(), 3);
}

#[test]
fn day_time_closes_past_days_at_end_of_day() {
    let day = Day::new(1, Date { days: TODAY - 1 });
    let clock = clock_at(TODAY, 9, 30);
    assert!(!day.is_today(&clock));
    assert_eq!(day.time(&clock).seconds, 86399);
    let today = Day::new(2, Date { days: TODAY });
    assert!(today.is_today(&clock));
    assert_eq!(today.time(&clock), hm(9, 30));
}

#[test]
fn active_task_counts_up_to_the_clock() {
    let mut days = DayRepository::new();
    let day = day_one(&mut days);
    let mut tasks = TaskRepository::new();
    tasks.start(day, "open", &clock_at(TODAY, 9, 0)).unwrap();
    let current = tasks.current(day).unwrap();
    assert_eq!(current.delta(&clock_at(TODAY, 9, 45)), 45 * 60);
    assert_eq!(current.end_or_day_time(&clock_at(TODAY, 9, 45)), hm(9, 45));
}

#[test]
fn repository_load_validates_rows() {
    let row = |id: u64, day: u64, s: Time, e: Option<Time>| Task::new(
        id,
        DayReference::Id(day),
        s,
        e,
        "work".to_owned(),
    );
    let good = vec![row(1, 1, hm(8, 0), Some(hm(9, 0))), row(2, 1, hm(9, 0), None)];
    assert!(TaskRepository::load(good, 3).is_ok());
    let duplicate = vec![row(1, 1, hm(8, 0), Some(hm(9, 0))), row(1, 2, hm(9, 0), None)];
    assert_eq!(TaskRepository::load(duplicate, 3).err(), Some(Error::Validation));
    let two_active = vec![row(1, 1, hm(8, 0), None), row(2, 1, hm(9, 0), None)];
    assert_eq!(TaskRepository::load(two_active, 3).err(), Some(Error::Validation));
    let backwards = vec![row(1, 1, hm(9, 0), Some(hm(8, 0)))];
    assert_eq!(TaskRepository::load(backwards, 2).err(), Some(Error::Validation));
    let stale_id = vec![row(5, 1, hm(8, 0), None)];
    assert_eq!(TaskRepository::load(stale_id, 3).err(), Some(Error::Validation));
}

#[test]
fn day_repository_load_validates_rows() {
    let good = vec![Day::new(1, Date { days: TODAY }), Day::new(2, Date { days: TODAY - 1 })];
    assert!(DayRepository::load(good, 3).is_ok());
    let doubled_date = vec![
        Day::new(1, Date { days: TODAY }),
        Day::new(2, Date { days: TODAY }),
    ];
    assert_eq!(DayRepository::load(doubled_date, 3).err(), Some(Error::Validation));
}

#[test]
fn task_group_accepts_only_its_description() {
    let day = Day::new(1, Date { days: TODAY });
    let a = Task::new(1, DayReference::Value(day), hm(8, 0), Some(hm(9, 0)), "a".to_owned());
    let b = Task::new(2, DayReference::Value(day), hm(9, 0), Some(hm(10, 0)), "b".to_owned());
    let mut group = TaskGroup::from_task(a);
    assert_eq!(group.description(), "a");
    assert!(!group.add_task(b));
    let a2 = Task::new(3, DayReference::Value(day), hm(10, 0), Some(hm(10, 30)), "a".to_owned());
    assert!(group.add_task(a2));
    assert_eq!(group.tasks().len(), 2);
}

#[test]
fn config_names_the_database_file() {
    let config = Config::new("/home/me/.local/state/ttrack".to_owned());
    assert_eq!(config.database_path(), "/home/me/.local/state/ttrack/database.db");
    assert_eq!(config.path(), "/home/me/.local/state/ttrack");
}

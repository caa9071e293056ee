use vstd::prelude::*;
use crate::date::{Clock, Date, weekday_index_spec};
use crate::error::Error;
use crate::time::{Time, END_OF_DAY};

verus! {

/// One calendar date's record: the grouping unit for tasks. Immutable once
/// created; never deleted.
#[derive(Clone, Copy, PartialEq, Eq, Structural, Debug)]
pub struct Day {
    pub id: u64,
    pub date: Date,
}

/// The time a day left open is charged through: the clock's time while the
/// day is the current date, the last second of the day once it has passed.
pub open spec fn day_time_spec(day: Day, clock: Clock) -> Time {
    if day.date == clock.today {
        clock.time
    } else {
        Time { seconds: END_OF_DAY }
    }
}

impl Day {
    pub fn new(id: u64, date: Date) -> (r: Day)
        ensures
            r.id == id,
            r.date == date,
    {
        Day { id, date }
    }

    pub fn id(&self) -> (r: u64)
        ensures
            r == self.id,
    {
        self.id
    }

    pub fn date(&self) -> (r: Date)
        ensures
            r == self.date,
    {
        self.date
    }

    /// Whether this day is the clock's current date.
    pub fn is_today(&self, clock: &Clock) -> (r: bool)
        ensures
            r == (self.date == clock.today),
    {
        self.date == clock.today
    }

    /// The effective closing time of this day: now while the day is today,
    /// else the last second of the day.
    pub fn time(&self, clock: &Clock) -> (r: Time)
        requires
            clock.valid(),
        ensures
            r == day_time_spec(*self, *clock),
            r.valid(),
    {
        if !self.is_today(clock) {
            return Time::end_of_day();
        }
        clock.time
    }
}

/// A reference to a day: by bare identifier, or by the full value when it
/// is already known. Upgrading from `Id` to `Value` is always explicit.
#[derive(Clone, Copy, PartialEq, Eq, Structural, Debug)]
pub enum DayReference {
    Id(u64),
    Value(Day),
}

/// The identifier a day reference carries.
pub open spec fn reference_id(r: DayReference) -> u64 {
    match r {
        DayReference::Id(id) => id,
        DayReference::Value(day) => day.id,
    }
}

impl DayReference {
    /// The day value, when this reference carries one.
    pub fn value(&self) -> (r: Option<Day>)
        ensures
            match r {
                Some(day) => *self == DayReference::Value(day),
                None => self is Id,
            },
    {
        match self {
            DayReference::Id(_) => None,
            DayReference::Value(day) => Some(*day),
        }
    }

    /// The identifier this reference carries.
    pub fn id(&self) -> (r: u64)
        ensures
            r == reference_id(*self),
    {
        match self {
            DayReference::Id(id) => *id,
            DayReference::Value(day) => day.id,
        }
    }
}

/// Whether some row of `s` carries the date `date`.
pub open spec fn has_date(s: Seq<Day>, date: Date) -> bool {
    exists|i: int| 0 <= i < s.len() && s[i].date == date
}

/// Whether some row of `s` carries the identifier `id`.
pub open spec fn has_day_id(s: Seq<Day>, id: u64) -> bool {
    exists|i: int| 0 <= i < s.len() && s[i].id == id
}

/// Whether `s` is sorted by date, newest first.
pub open spec fn sorted_by_date_desc(s: Seq<Day>) -> bool {
    forall|k: int, l: int| 0 <= k < l < s.len() ==> s[k].date.days >= s[l].date.days
}

/// Day rows that could have come from this store: identifiers unique and
/// below the next one to be handed out, no two rows sharing a date.
pub open spec fn day_rows_wf(rows: Seq<Day>, next_id: u64) -> bool {
    &&& forall|i: int| 0 <= i < rows.len() ==> (#[trigger] rows[i]).id < next_id
    &&& forall|i: int, j: int|
        0 <= i < j < rows.len() ==> (#[trigger] rows[i]).id != (#[trigger] rows[j]).id
            && rows[i].date != rows[j].date
}

/// The sole writer of day rows. Resolving a date creates its row the first
/// time; identifiers are handed out in increasing order and never reused.
pub struct DayRepository {
    days: Vec<Day>,
    next: u64,
}

impl DayRepository {
    /// The day rows, in insertion order.
    pub closed spec fn rows(&self) -> Seq<Day> {
        self.days@
    }

    /// The identifier the next created day will receive.
    pub closed spec fn next_id(&self) -> u64 {
        self.next
    }

    /// Well-formed: identifiers are unique and below the next one to be
    /// handed out, and no two rows share a date.
    pub open spec fn wf(&self) -> bool {
        day_rows_wf(self.rows(), self.next_id())
    }

    /// An empty store.
    pub fn new() -> (r: DayRepository)
        ensures
            r.wf(),
            r.rows() == Seq::<Day>::empty(),
            r.next_id() == 1,
    {
        DayRepository { days: Vec::new(), next: 1 }
    }

    /// Rebuilds a store from already persisted rows. Fails with
    /// `Validation` when the rows could not have come from this store:
    /// a duplicate identifier or date, or an identifier at or above
    /// `next_id`.
    pub fn load(days: Vec<Day>, next_id: u64) -> (r: Result<DayRepository, Error>)
        ensures
            match r {
                Ok(repo) => repo.wf() && repo.rows() == days@ && repo.next_id() == next_id,
                Err(e) => e == Error::Validation && !day_rows_wf(days@, next_id),
            },
    {
        let n = days.len();
        let mut i: usize = 0;
        while i < n
            invariant
                0 <= i <= n,
                n == days@.len(),
                forall|a: int| 0 <= a < i ==> (#[trigger] days@[a]).id < next_id,
                forall|a: int, b: int|
                    0 <= a < b < days@.len() && a < i ==> (#[trigger] days@[a]).id != (
                    #[trigger] days@[b]).id && days@[a].date != days@[b].date,
            decreases n - i,
        {
            if days[i].id >= next_id {
                return Err(Error::Validation);
            }
            let mut j: usize = i + 1;
            while j < n
                invariant
                    i < j <= n,
                    n == days@.len(),
                    forall|b: int|
                        i < b < j ==> days@[i as int].id != (#[trigger] days@[b]).id
                            && days@[i as int].date != days@[b].date,
                decreases n - j,
            {
                if days[i].id == days[j].id || days[i].date == days[j].date {
                    return Err(Error::Validation);
                }
                j = j + 1;
            }
            i = i + 1;
        }
        Ok(DayRepository { days, next: next_id })
    }

    /// The identifier the next created day will receive.
    pub fn upcoming_id(&self) -> (r: u64)
        ensures
            r == self.next_id(),
    {
        self.next
    }

    /// Every day row, in insertion order: what a storage adapter
    /// persists.
    pub fn entries(&self) -> (r: &Vec<Day>)
        ensures
            r@ == self.rows(),
    {
        &self.days
    }

    /// The existing day for `date`, or a freshly created one: resolving
    /// never fails for a valid date.
    pub fn from_date(&mut self, date: Date) -> (r: Day)
        requires
            old(self).wf(),
            old(self).next_id() < u64::MAX,
        ensures
            final(self).wf(),
            r.date == date,
            final(self).rows().contains(r),
            has_date(old(self).rows(), date) ==> final(self).rows() == old(self).rows()
                && final(self).next_id() == old(self).next_id() && old(self).rows().contains(r),
            !has_date(old(self).rows(), date) ==> final(self).rows() == old(self).rows().push(
                (Day { id: old(self).next_id(), date }),
            ) && final(self).next_id() == old(self).next_id() + 1 && r == (Day {
                id: old(self).next_id(),
                date,
            }),
    {
        let n = self.days.len();
        let mut i: usize = 0;
        while i < n
            invariant
                0 <= i <= n,
                n == self.days@.len(),
                forall|j: int| 0 <= j < i ==> (#[trigger] self.days@[j]).date != date,
                self.days@ == old(self).days@,
                self.next == old(self).next,
                old(self).wf(),
                old(self).next_id() < u64::MAX,
            decreases n - i,
        {
            if self.days[i].date == date {
                let found = self.days[i];
                proof {
                    assert(old(self).rows()[i as int] == found);
                    assert(old(self).rows().contains(found));
                    assert(has_date(old(self).rows(), date));
                }
                return found;
            }
            i = i + 1;
        }
        let day = Day { id: self.next, date };
        proof {
            assert(!has_date(old(self).rows(), date));
        }
        self.days.push(day);
        self.next = self.next + 1;
        proof {
            let rows = self.days@;
            assert(rows == old(self).days@.push(day));
            assert(rows[rows.len() - 1] == day);
            assert(rows.contains(day));
            assert forall|a: int| 0 <= a < rows.len() implies (#[trigger] rows[a]).id
                < self.next by {
                if a < rows.len() - 1 {
                    assert(rows[a] == old(self).days@[a]);
                }
            }
            assert forall|a: int, b: int| 0 <= a < b < rows.len() implies (
            #[trigger] rows[a]).id != (#[trigger] rows[b]).id && rows[a].date != rows[b].date by {
                assert(rows[a] == old(self).days@[a]);
                if b < rows.len() - 1 {
                    assert(rows[b] == old(self).days@[b]);
                } else {
                    assert(rows[b] == day);
                }
            }
        }
        day
    }

    /// The day for the clock's current date, created on first reference.
    pub fn today(&mut self, clock: &Clock) -> (r: Day)
        requires
            old(self).wf(),
            old(self).next_id() < u64::MAX,
        ensures
            final(self).wf(),
            r.date == clock.today,
            final(self).rows().contains(r),
            has_date(old(self).rows(), clock.today) ==> final(self).rows() == old(self).rows()
                && final(self).next_id() == old(self).next_id(),
            !has_date(old(self).rows(), clock.today) ==> final(self).rows() == old(self).rows().push(
                (Day { id: old(self).next_id(), date: clock.today }),
            ) && final(self).next_id() == old(self).next_id() + 1,
    {
        self.from_date(clock.today)
    }

    /// The day for the date before the clock's current one, created on
    /// first reference; fails only when no earlier date exists.
    pub fn yesterday(&mut self, clock: &Clock) -> (r: Result<Day, Error>)
        requires
            old(self).wf(),
            old(self).next_id() < u64::MAX,
        ensures
            final(self).wf(),
            r is Ok <==> clock.today.days > 0,
            r matches Ok(day) ==> day.date.days == clock.today.days - 1
                && final(self).rows().contains(day),
            r matches Err(e) ==> e == Error::NotFound && *final(self) == *old(self),
    {
        match clock.today.previous() {
            Some(date) => Ok(self.from_date(date)),
            None => Err(Error::NotFound),
        }
    }

    /// The day `n` days before the clock's current date, created on first
    /// reference; fails only when no such date exists in range.
    pub fn from_days_ago(&mut self, clock: &Clock, n: u64) -> (r: Result<Day, Error>)
        requires
            old(self).wf(),
            old(self).next_id() < u64::MAX,
        ensures
            final(self).wf(),
            r is Ok <==> n <= clock.today.days,
            r matches Ok(day) ==> day.date.days == clock.today.days - n && final(
                self).rows().contains(day),
            r matches Err(e) ==> e == Error::NotFound && *final(self) == *old(self),
    {
        match clock.today.back(n) {
            Some(date) => Ok(self.from_date(date)),
            None => Err(Error::NotFound),
        }
    }

    /// The days of `anchor`'s week, walking one day at a time from
    /// `anchor` backward to that week's Monday, each created on first
    /// reference: newest first, Monday last.
    pub fn complete_week(&mut self, anchor: Date) -> (r: Vec<Day>)
        requires
            old(self).wf(),
            old(self).next_id() <= u64::MAX - 7,
        ensures
            final(self).wf(),
            r@.len() == if weekday_index_spec(anchor.days) <= anchor.days {
                weekday_index_spec(anchor.days) + 1
            } else {
                anchor.days + 1
            },
            forall|k: int|
                0 <= k < r@.len() ==> (#[trigger] r@[k]).date.days == anchor.days - k,
            forall|k: int| 0 <= k < r@.len() ==> final(self).rows().contains(#[trigger] r@[k]),
            old(self).rows().is_prefix_of(final(self).rows()),
    {
        let ghost w = weekday_index_spec(anchor.days);
        let mut week: Vec<Day> = Vec::new();
        let first = self.from_date(anchor);
        week.push(first);
        let mut date = anchor;
        proof {
            lemma_weekday_back(anchor.days as int, 0);
        }
        while !date.is_monday() && date.days > 0
            invariant
                self.wf(),
                w == weekday_index_spec(anchor.days),
                old(self).next_id() <= u64::MAX - 7,
                1 <= week@.len() <= 7,
                week@.len() - 1 <= w,
                date.days == anchor.days - (week@.len() - 1),
                weekday_index_spec(date.days) == w - (week@.len() - 1),
                forall|k: int|
                    0 <= k < week@.len() ==> (#[trigger] week@[k]).date.days == anchor.days - k,
                forall|k: int| 0 <= k < week@.len() ==> self.rows().contains(#[trigger] week@[k]),
                old(self).rows().is_prefix_of(self.rows()),
                self.next_id() <= old(self).next_id() + week@.len(),
            decreases date.days,
        {
            proof {
                vstd::arithmetic::div_mod::lemma_mod_bound(anchor.days + 6, 7);
                assert(w - (week@.len() - 1) >= 1);
                assert(week@.len() <= w <= 6);
                assert(week@.len() <= anchor.days);
                assert(self.next_id() < u64::MAX);
            }
            date = Date { days: date.days - 1 };
            proof {
                lemma_weekday_back(anchor.days as int, (week@.len()) as int);
            }
            let ghost pre = self.rows();
            let day = self.from_date(date);
            proof {
                assert forall|k: int| 0 <= k < week@.len() implies self.rows().contains(
                    #[trigger] week@[k],
                ) by {
                    let idx = choose|idx: int| 0 <= idx < pre.len() && pre[idx] == week@[k];
                    assert(self.rows()[idx] == week@[k]);
                }
                assert(old(self).rows().is_prefix_of(self.rows())) by {
                    let olen = old(self).rows().len() as int;
                    assert(self.rows().take(olen) =~= pre.take(olen));
                }
            }
            week.push(day);
        }
        week
    }

    /// The days from today back through the most recent Monday, each
    /// created on first reference: today first, Monday last.
    pub fn week_till_today(&mut self, clock: &Clock) -> (r: Vec<Day>)
        requires
            old(self).wf(),
            old(self).next_id() <= u64::MAX - 7,
        ensures
            final(self).wf(),
            r@.len() == if weekday_index_spec(clock.today.days) <= clock.today.days {
                weekday_index_spec(clock.today.days) + 1
            } else {
                clock.today.days + 1
            },
            forall|k: int|
                0 <= k < r@.len() ==> (#[trigger] r@[k]).date.days == clock.today.days - k,
            forall|k: int| 0 <= k < r@.len() ==> final(self).rows().contains(#[trigger] r@[k]),
            old(self).rows().is_prefix_of(final(self).rows()),
    {
        self.complete_week(clock.today)
    }

    /// The `count` most recent days on record, newest first.
    pub fn list_passed_days(&self, count: usize) -> (r: Vec<Day>)
        requires
            self.wf(),
        ensures
            r@.len() == if count <= self.rows().len() {
                count as int
            } else {
                self.rows().len() as int
            },
            sorted_by_date_desc(r@),
            forall|k: int| 0 <= k < r@.len() ==> self.rows().contains(#[trigger] r@[k]),
            forall|i: int|
                0 <= i < self.rows().len() ==> r@.contains(#[trigger] self.rows()[i]) || (
                forall|k: int|
                    0 <= k < r@.len() ==> self.rows()[i].date.days <= (
                    #[trigger] r@[k]).date.days),
    {
        let n = self.days.len();
        let mut copy: Vec<Day> = Vec::new();
        let mut i: usize = 0;
        while i < n
            invariant
                0 <= i <= n,
                n == self.days@.len(),
                copy@ == self.days@.take(i as int),
            decreases n - i,
        {
            let d = self.days[i];
            copy.push(d);
            proof {
                assert(self.days@.take(i + 1) == self.days@.take(i as int).push(d));
            }
            i = i + 1;
        }
        proof {
            assert(self.days@.take(n as int) == self.days@);
        }
        let sorted_full = sort_days_desc(copy);
        let ghost whole = sorted_full@;
        let mut sorted = sorted_full;
        sorted.truncate(count);
        proof {
            let full = self.days@;
            broadcast use vstd::seq_lib::group_to_multiset_ensures;

            assert(whole.to_multiset() == full.to_multiset());
            assert(sorted@ == if count <= whole.len() {
                whole.subrange(0, count as int)
            } else {
                whole
            });

            assert forall|k: int| 0 <= k < sorted@.len() implies full.contains(
                #[trigger] sorted@[k],
            ) by {
                assert(whole.to_multiset().count(whole[k]) > 0);
            }
            assert forall|i2: int| 0 <= i2 < full.len() implies sorted@.contains(
                #[trigger] full[i2],
            ) || (forall|k: int|
                0 <= k < sorted@.len() ==> full[i2].date.days <= (
                #[trigger] sorted@[k]).date.days) by {
                assert(whole.to_multiset().count(full[i2]) > 0);
                let j = choose|j: int| 0 <= j < whole.len() && whole[j] == full[i2];
                if j < sorted@.len() {
                    assert(sorted@[j] == full[i2]);
                } else {
                    assert forall|k: int| 0 <= k < sorted@.len() implies full[i2].date.days <= (
                    #[trigger] sorted@[k]).date.days by {
                        assert(whole[k].date.days >= whole[j].date.days);
                    }
                }
            }
        }
        sorted
    }

    /// The day a reference points at: the carried value, or a lookup by
    /// identifier.
    pub fn resolve(&self, reference: DayReference) -> (r: Result<Day, Error>)
        requires
            self.wf(),
        ensures
            match reference {
                DayReference::Value(day) => r == Ok::<Day, Error>(day),
                DayReference::Id(id) => match r {
                    Ok(day) => day.id == id && self.rows().contains(day),
                    Err(e) => e == Error::NotFound && !has_day_id(self.rows(), id),
                },
            },
    {
        match reference {
            DayReference::Id(id) => self.day(id),
            DayReference::Value(day) => Ok(day),
        }
    }

    /// The day with identifier `id`; fails with `NotFound` if absent.
    pub fn day(&self, id: u64) -> (r: Result<Day, Error>)
        requires
            self.wf(),
        ensures
            match r {
                Ok(day) => day.id == id && self.rows().contains(day),
                Err(e) => e == Error::NotFound && !has_day_id(self.rows(), id),
            },
    {
        let n = self.days.len();
        let mut i: usize = 0;
        while i < n
            invariant
                0 <= i <= n,
                n == self.days@.len(),
                forall|j: int| 0 <= j < i ==> (#[trigger] self.days@[j]).id != id,
            decreases n - i,
        {
            if self.days[i].id == id {
                return Ok(self.days[i]);
            }
            i = i + 1;
        }
        Err(Error::NotFound)
    }
}

/// Walking `k` days back from a date, while `k` stays within the leading
/// part of the week, lowers the weekday index by exactly `k`.
proof fn lemma_weekday_back(days: int, k: int)
    requires
        0 <= k <= (days + 6) % 7,
        k <= days,
    ensures
        (days - k + 6) % 7 == (days + 6) % 7 - k,
{
    let t = days + 6;
    let q = t / 7;
    vstd::arithmetic::div_mod::lemma_fundamental_div_mod(t, 7);
    assert(t == 7 * q + t % 7);
    vstd::arithmetic::div_mod::lemma_fundamental_div_mod_converse(t - k, 7, q, t % 7 - k);
}

/// Insertion sort of day rows by date, newest first.
fn sort_days_desc(v: Vec<Day>) -> (r: Vec<Day>)
    ensures
        r@.to_multiset() == v@.to_multiset(),
        r@.len() == v@.len(),
        sorted_by_date_desc(r@),
{
    let mut out: Vec<Day> = Vec::new();
    proof {
        assert(v@.take(0) =~= out@);
    }
    let mut i: usize = 0;
    while i < v.len()
        invariant
            0 <= i <= v@.len(),
            out@.len() == i,
            out@.to_multiset() == v@.take(i as int).to_multiset(),
            sorted_by_date_desc(out@),
        decreases v@.len() - i,
    {
        let d = v[i];
        let mut p: usize = 0;
        while p < out.len() && out[p].date.days >= d.date.days
            invariant
                0 <= p <= out@.len(),
                forall|k: int| 0 <= k < p ==> (#[trigger] out@[k]).date.days >= d.date.days,
            decreases out@.len() - p,
        {
            p = p + 1;
        }
        let ghost before = out@;
        out.insert(p, d);
        proof {
            broadcast use vstd::seq_lib::group_to_multiset_ensures;
            broadcast use vstd::seq_lib::to_multiset_insert;

            assert(v@.take(i + 1).drop_last() == v@.take(i as int));
            assert(v@.take(i + 1) == v@.take(i as int).push(d));
            assert(out@ == before.insert(p as int, d));
            assert forall|k: int, l: int| 0 <= k < l < out@.len() implies (
            #[trigger] out@[k]).date.days >= (#[trigger] out@[l]).date.days by {
                before.insert_ensures(p as int, d);
            }
        }
        i = i + 1;
    }
    proof {
        assert(v@.take(v@.len() as int) == v@);
    }
    out
}

} // verus!

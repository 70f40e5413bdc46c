//! Records against the clock: a record that starts now, and durations up to now.
use crate::record::Record;
use crate::timestamp::Timestamp;
use chrono::{Datelike, TimeZone, Timelike};
use vstd::prelude::*;

verus! {

/// The largest number of whole minutes in a chrono `TimeDelta` (`i64::MAX` milliseconds).
pub const MAX_DELTA_MINUTES: i64 = 153722867280912;

/// Relies on chrono's `Local::now`, read through `Datelike` and `Timelike`: the local
/// year, month (1 to 12), day (1 to 31), hour (0 to 23), minute and second (0 to 59).
#[verifier::external_body]
fn local_now() -> (r: (i32, u32, u32, u32, u32, u32))
    ensures
        1 <= r.1 <= 12,
        1 <= r.2 <= 31,
        r.3 < 24,
        r.4 < 60,
        r.5 < 60,
{
    let now = chrono::Local::now();
    (now.year(), now.month(), now.day(), now.hour(), now.minute(), now.second())
}

/// Relies on chrono's `Local::now` and `TimeDelta::num_minutes`: the whole minutes from
/// `t`, placed in the local time zone by `Local.from_local_datetime(..).earliest()`, up
/// to now. `None` where `t` names no local time. A `TimeDelta` holds at most `i64::MAX`
/// milliseconds either way.
#[verifier::external_body]
fn minutes_since(t: &Timestamp) -> (r: Option<i64>)
    ensures
        r matches Some(m) ==> -MAX_DELTA_MINUTES <= m <= MAX_DELTA_MINUTES,
{
    let date = chrono::NaiveDate::from_ymd_opt(t.year as i32, t.month as u32, t.day as u32)?;
    let naive = date.and_hms_opt(t.hour as u32, t.minute as u32, t.second as u32)?;
    let start = chrono::Local.from_local_datetime(&naive).earliest()?;
    Some((chrono::Local::now() - start).num_minutes())
}

/// `x - y` where it fits in an `i64`.
pub open spec fn minus(x: int, y: int) -> Option<i64> {
    if i64::MIN <= x - y <= i64::MAX {
        Some((x - y) as i64)
    } else {
        None
    }
}

fn checked_minus(x: i64, y: i64) -> (r: Option<i64>)
    ensures
        r == minus(x as int, y as int),
{
    if y >= 0 {
        if x >= i64::MIN + y {
            Some(x - y)
        } else {
            None
        }
    } else {
        if x <= i64::MAX + y {
            Some(x - y)
        } else {
            None
        }
    }
}

impl Record {
    /// A record that starts now, to the second, with nothing else set. Where the local
    /// date lies outside the years 0 to 9999, the start is left absent.
    pub fn now() -> (r: Record)
        ensures
            r.start matches Some(t) ==> t.wf(),
            r.activity is None,
            r.rest is None,
            r.note@.len() == 0,
    {
        let (year, month, day, hour, minute, second) = local_now();
        let start = if 0 <= year && year <= 9999 {
            let t = Timestamp {
                year: year as u16,
                month: month as u8,
                day: day as u8,
                hour: hour as u8,
                minute: minute as u8,
                second: second as u8,
            };
            if t.is_valid() {
                Some(t)
            } else {
                None
            }
        } else {
            None
        };
        Record { start, activity: None, rest: None, note: String::new() }
    }

    /// Whole minutes from the start up to now; zero without a start, or where the start
    /// names no local time.
    pub fn duration_until_now(&self) -> (r: i64)
        ensures
            self.start is None ==> r == 0,
            -MAX_DELTA_MINUTES <= r <= MAX_DELTA_MINUTES,
    {
        match &self.start {
            Some(t) => match minutes_since(t) {
                Some(m) => m,
                None => 0,
            },
            None => 0,
        }
    }

    /// With a start, sets the activity to `elapsed` minutes less the rest, where that
    /// fits in an `i64`; otherwise leaves the record as it is.
    pub fn update_activity(&mut self, elapsed: i64)
        ensures
            final(self).start == old(self).start,
            final(self).rest == old(self).rest,
            final(self).note@ == old(self).note@,
            final(self).activity == (if old(self).start is Some && minus(
                elapsed as int,
                old(self).rest.unwrap_or(0) as int,
            ) is Some {
                minus(elapsed as int, old(self).rest.unwrap_or(0) as int)
            } else {
                old(self).activity
            }),
    {
        if self.start.is_some() {
            let rest = match self.rest {
                Some(r) => r,
                None => 0,
            };
            if let Some(a) = checked_minus(elapsed, rest) {
                self.activity = Some(a);
            }
        }
    }

    /// With a start, sets the rest to `elapsed` minutes less the activity, where that
    /// fits in an `i64`; otherwise leaves the record as it is.
    pub fn update_rest(&mut self, elapsed: i64)
        ensures
            final(self).start == old(self).start,
            final(self).activity == old(self).activity,
            final(self).note@ == old(self).note@,
            final(self).rest == (if old(self).start is Some && minus(
                elapsed as int,
                old(self).activity.unwrap_or(0) as int,
            ) is Some {
                minus(elapsed as int, old(self).activity.unwrap_or(0) as int)
            } else {
                old(self).rest
            }),
    {
        if self.start.is_some() {
            let activity = match self.activity {
                Some(a) => a,
                None => 0,
            };
            if let Some(r) = checked_minus(elapsed, activity) {
                self.rest = Some(r);
            }
        }
    }

    /// With a start, sets the activity to the minutes from the start up to now, less
    /// the rest.
    pub fn update_activity_to_now(&mut self)
        ensures
            final(self).start == old(self).start,
            final(self).rest == old(self).rest,
            final(self).note@ == old(self).note@,
            old(self).start is None ==> final(self).activity == old(self).activity,
            old(self).start is Some && -MAX_DELTA_MINUTES <= old(self).rest.unwrap_or(0)
                <= MAX_DELTA_MINUTES ==> final(self).activity is Some,
    {
        let elapsed = self.duration_until_now();
        self.update_activity(elapsed);
    }

    /// With a start, sets the rest to the minutes from the start up to now, less the
    /// activity.
    pub fn update_rest_to_now(&mut self)
        ensures
            final(self).start == old(self).start,
            final(self).activity == old(self).activity,
            final(self).note@ == old(self).note@,
            old(self).start is None ==> final(self).rest == old(self).rest,
            old(self).start is Some && -MAX_DELTA_MINUTES <= old(self).activity.unwrap_or(0)
                <= MAX_DELTA_MINUTES ==> final(self).rest is Some,
    {
        let elapsed = self.duration_until_now();
        self.update_rest(elapsed);
    }
}

} // verus!

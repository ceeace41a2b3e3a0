//! Projection of a history store into per-metric time series: for each
//! stored day one `(ordinal, value)` pair, ordered by ascending calendar
//! date, with no gap filling for absent dates. The ordinal axis can be
//! turned back into a calendar date with `calendar::date_from_ordinal` for
//! labelling.

use crate::calendar::{date_before, lemma_date_ordinal_increases};
use crate::workrave::{
    day_date, day_ord, day_valid, lemma_store_map_seq, InputStats, WorkraveHistory,
};
use crate::calendar::CalendarDate;
use vstd::prelude::*;

verus! {

/// One of the six statistics a day records.
#[derive(Clone, Copy, PartialEq, Eq, Structural, Debug)]
pub enum Metric {
    ActiveTime,
    MouseMovement,
    MouseClickMovement,
    MouseMovementTime,
    MouseClicks,
    Keystrokes,
}

/// The field of `InputStats` a metric selects.
pub open spec fn metric_value(metric: Metric, stats: InputStats) -> u64 {
    match metric {
        Metric::ActiveTime => stats.total_active_time_seconds,
        Metric::MouseMovement => stats.total_mouse_movement,
        Metric::MouseClickMovement => stats.total_mouse_click_movement,
        Metric::MouseMovementTime => stats.total_mouse_movement_time,
        Metric::MouseClicks => stats.total_mouse_clicks,
        Metric::Keystrokes => stats.total_keystrokes,
    }
}

/// Reads the field of `InputStats` a metric selects.
pub fn select_metric(metric: Metric, stats: &InputStats) -> (v: u64)
    ensures
        v == metric_value(metric, *stats),
{
    match metric {
        Metric::ActiveTime => stats.total_active_time_seconds,
        Metric::MouseMovement => stats.total_mouse_movement,
        Metric::MouseClickMovement => stats.total_mouse_click_movement,
        Metric::MouseMovementTime => stats.total_mouse_movement_time,
        Metric::MouseClicks => stats.total_mouse_clicks,
        Metric::Keystrokes => stats.total_keystrokes,
    }
}

/// One point of a per-metric series: the day ordinal of a stored date on
/// the x-axis and the selected statistic on the y-axis.
#[derive(Clone, Copy, PartialEq, Eq, Structural, Debug)]
pub struct SeriesPoint {
    pub ordinal: u64,
    pub value: u64,
}

/// Projects a history into one metric's series: exactly one point per
/// stored day, in strictly ascending ordinal (that is, calendar date)
/// order, with no gap-filled entries for dates absent from the store.
pub fn project_series(history: &WorkraveHistory, metric: Metric) -> (r: Vec<SeriesPoint>)
    ensures
        r@.len() == history.day_seq().len(),
        r@.len() == history@.len(),
        forall|i: int|
            0 <= i < r@.len() ==> (#[trigger] r@[i]).ordinal == day_ord(history.day_seq()[i])
                && r@[i].value == metric_value(metric, history.day_seq()[i].stats),
        forall|i: int, j: int| 0 <= i < j < r@.len() ==> r@[i].ordinal < r@[j].ordinal,
{
    let days = history.all_days();
    proof {
        lemma_store_map_seq(days@);
    }
    let n = days.len();
    let mut r: Vec<SeriesPoint> = Vec::new();
    let mut i: usize = 0;
    while i < n
        invariant
            days@ == history.day_seq(),
            crate::workrave::days_wf(days@),
            n == days@.len(),
            i <= n,
            r@.len() == i,
            forall|j: int|
                0 <= j < i ==> (#[trigger] r@[j]).ordinal == day_ord(days@[j]) && r@[j].value
                    == metric_value(metric, days@[j].stats),
        decreases n - i,
    {
        let d = &days[i];
        let o = crate::calendar::days_from_ce(&d.datetime_range.start.date);
        let v = select_metric(metric, &d.stats);
        r.push(SeriesPoint { ordinal: o, value: v });
        i = i + 1;
    }
    r
}

/// The stored calendar dates, in ascending calendar order: the keys of the
/// history's mapping, one per entry, sorted.
pub fn get_sorted_dates(history: &WorkraveHistory) -> (r: Vec<CalendarDate>)
    ensures
        r@.len() == history.day_seq().len(),
        r@.len() == history@.len(),
        forall|i: int| 0 <= i < r@.len() ==> r@[i] == day_date(#[trigger] history.day_seq()[i]),
        forall|i: int| 0 <= i < r@.len() ==> history@.dom().contains(#[trigger] r@[i]),
        forall|i: int, j: int| 0 <= i < j < r@.len() ==> date_before(r@[i], r@[j]),
{
    let days = history.all_days();
    proof {
        lemma_store_map_seq(days@);
    }
    let n = days.len();
    let mut r: Vec<CalendarDate> = Vec::new();
    let mut i: usize = 0;
    while i < n
        invariant
            days@ == history.day_seq(),
            crate::workrave::days_wf(days@),
            history@ == crate::workrave::store_map_of(days@),
            n == days@.len(),
            i <= n,
            r@.len() == i,
            forall|j: int| 0 <= j < i ==> r@[j] == day_date(#[trigger] days@[j]),
            forall|j: int| 0 <= j < i ==> history@.dom().contains(#[trigger] r@[j]),
        decreases n - i,
    {
        proof {
            lemma_store_map_seq(days@);
        }
        let d = &days[i];
        r.push(d.datetime_range.start.date);
        i = i + 1;
    }
    proof {
        assert forall|i: int, j: int| 0 <= i < j < r@.len() implies date_before(r@[i], r@[j]) by {
            let a = days@[i];
            let b = days@[j];
            assert(day_valid(a) && day_valid(b));
            assert(day_ord(a) < day_ord(b));
            if day_date(a) == day_date(b) {
                assert(day_ord(a) == day_ord(b));
            } else if date_before(day_date(b), day_date(a)) {
                lemma_date_ordinal_increases(day_date(b), day_date(a));
            }
        }
    }
    r
}

} // verus!

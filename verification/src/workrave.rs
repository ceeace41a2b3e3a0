//! Records of the WorkRave `historystats` export: line classification, the
//! date-range and stats decoders, the unit normalizer, and the date-keyed
//! history store.

use crate::calendar::{
    date_ordinal, days_from_ce, days_in_month, days_in_month_exec, lemma_date_ordinal_injective,
    timestamp_valid, CalendarDate, Timestamp, MAX_YEAR,
};
use crate::text::{
    line_chars, parse_u64_token, split_spaces, split_tokens, token_numeric, token_value, trim_spec,
    trimmed_chars,
};
use vstd::arithmetic::div_mod::{lemma_fundamental_div_mod, lemma_mod_bound};
use vstd::prelude::*;

verus! {

/// Raw movement units per meter of mouse travel in the export format.
pub const WORKRAVE_MOVEMENT_UNITS_PER_METER: u64 = 4288;

/// A date range: the start and end timestamps of one logged session. The
/// format does not guarantee `start <= end`, and nothing here assumes it;
/// both timestamps are preserved verbatim, and only `start`'s calendar date
/// is used to key the history.
#[derive(Clone, Copy, PartialEq, Eq, Structural, Debug)]
pub struct DatetimeRange {
    pub start: Timestamp,
    pub end: Timestamp,
}

/// One day's input-activity statistics.
///
/// The two movement fields are normalized distances held in fixed-point
/// form: hundredths of a meter, the raw unit count divided by
/// `WORKRAVE_MOVEMENT_UNITS_PER_METER` and rounded to two decimal places.
#[derive(Clone, Copy, PartialEq, Eq, Structural, Debug)]
pub struct InputStats {
    pub total_active_time_seconds: u64,
    /// Total mouse movement, in hundredths of a meter.
    pub total_mouse_movement: u64,
    /// Total click-drag movement, in hundredths of a meter.
    pub total_mouse_click_movement: u64,
    pub total_mouse_movement_time: u64,
    pub total_mouse_clicks: u64,
    pub total_keystrokes: u64,
}

/// One logged session: a date range paired with its statistics.
#[derive(Clone, Copy, PartialEq, Eq, Structural, Debug)]
pub struct WorkraveDay {
    pub datetime_range: DatetimeRange,
    pub stats: InputStats,
}

/// Why a load failed. A header mismatch is not an error (the load reports
/// "no data" instead); these are the hard failures of a structurally corrupt
/// file.
#[derive(Clone, Copy, PartialEq, Eq, Structural, Debug)]
pub enum LoadError {
    /// The file holds a different number of date-range lines than stats
    /// lines, so the two streams cannot be paired.
    StructuralError,
    /// A date-range or stats line holds the wrong number of fields, a
    /// non-numeric field, or an invalid calendar date or time.
    FieldParseError,
}

/// The kind of one line of the export, decided by its first character.
#[derive(Clone, Copy, PartialEq, Eq, Structural, Debug)]
pub enum LineKind {
    DateRangeLine,
    StatsLine,
    BreakLine,
    UnrecognizedLine,
}

/// Classifies a trimmed line by its first character: `D` is a date range,
/// `m` is a stats record, `B` is a break marker (ignored), and anything
/// else, including the header line and an empty line, carries no data.
pub open spec fn classify_line(t: Seq<char>) -> LineKind {
    if t.len() == 0 {
        LineKind::UnrecognizedLine
    } else if t[0] == 'D' {
        LineKind::DateRangeLine
    } else if t[0] == 'm' {
        LineKind::StatsLine
    } else if t[0] == 'B' {
        LineKind::BreakLine
    } else {
        LineKind::UnrecognizedLine
    }
}

/// Classifies one trimmed line.
pub fn classify_line_exec(t: &Vec<char>) -> (k: LineKind)
    ensures
        k == classify_line(t@),
{
    if t.len() == 0 {
        LineKind::UnrecognizedLine
    } else if t[0] == 'D' {
        LineKind::DateRangeLine
    } else if t[0] == 'm' {
        LineKind::StatsLine
    } else if t[0] == 'B' {
        LineKind::BreakLine
    } else {
        LineKind::UnrecognizedLine
    }
}

/// The normalized form of a raw movement count: hundredths of a meter,
/// rounded to the nearest (half of 4288 is 2144, and an exact half rounds
/// away from zero).
pub open spec fn spec_normalize(raw: int) -> int {
    (raw * 100 + 2144) / 4288
}

/// The normalizer rounds to the nearest hundredth of a meter: the scaled
/// result `4288 * normalize(raw)` sits within half a unit (2144) of the
/// exact scaled value `100 * raw`, with ties rounded up.
pub proof fn lemma_normalize_rounds(raw: int)
    requires
        0 <= raw,
    ensures
        100 * raw - 2143 <= 4288 * spec_normalize(raw) <= 100 * raw + 2144,
{
    let x = raw * 100 + 2144;
    lemma_fundamental_div_mod(x, 4288);
    lemma_mod_bound(x, 4288);
}

/// Converts a raw movement count to hundredths of a meter.
pub fn normalize(raw_units: u64) -> (r: u64)
    ensures
        r == spec_normalize(raw_units as int),
{
    let wide: u128 = (raw_units as u128) * 100 + 2144;
    let q: u128 = wide / (WORKRAVE_MOVEMENT_UNITS_PER_METER as u128);
    proof {
        lemma_fundamental_div_mod(wide as int, 4288);
        lemma_mod_bound(wide as int, 4288);
        assert(q <= u64::MAX) by (nonlinear_arith)
            requires
                4288 * (q as int) <= wide as int,
                wide as int <= 0xffff_ffff_ffff_ffffu64 * 100 + 2144,
        ;
    }
    q as u64
}

/// Whether a token is numeric and fits a 32-bit field, the width the
/// date-range decoder reads.
pub open spec fn field_fits_u32(t: Seq<char>) -> bool {
    token_numeric(t) && token_value(t) <= u32::MAX
}

/// Whether a token is numeric and fits a 64-bit field, the width the stats
/// decoder reads.
pub open spec fn field_fits_u64(t: Seq<char>) -> bool {
    token_numeric(t) && token_value(t) <= u64::MAX
}

/// The timestamp described by one half of a date-range line: a day, a
/// zero-based month, a year offset from 1900, an hour and a minute.
pub open spec fn timestamp_of_fields(day: int, month0: int, yoff: int, hour: int, minute: int) -> Timestamp {
    Timestamp {
        date: CalendarDate {
            year: (1900 + yoff) as u32,
            month: (month0 + 1) as u32,
            day: day as u32,
        },
        hour: hour as u32,
        minute: minute as u32,
    }
}

/// Whether one half of a date-range line describes a valid calendar date
/// and time once the month is converted to one-based and the year offset is
/// added to 1900.
pub open spec fn timestamp_fields_valid(day: int, month0: int, yoff: int, hour: int, minute: int) -> bool {
    &&& 0 <= yoff <= MAX_YEAR - 1900
    &&& 0 <= month0 <= 11
    &&& 1 <= day <= days_in_month(1900 + yoff, month0 + 1)
    &&& 0 <= hour <= 23
    &&& 0 <= minute <= 59
}

/// What a date-range line decodes to: `None` when the field count is not
/// exactly ten, a field is not a 32-bit integer, or either timestamp is
/// invalid. The ten fields are the start's day, zero-based month, year
/// offset from 1900, hour and minute, then the end's in the same order.
pub open spec fn spec_convert_date_line(l: Seq<char>) -> Option<DatetimeRange> {
    if l.len() == 0 {
        None
    } else {
        let toks = split_spaces(trim_spec(l.drop_first()));
        if toks.len() != 10 {
            None
        } else if !(forall|i: int| 0 <= i < 10 ==> field_fits_u32(#[trigger] toks[i])) {
            None
        } else {
            let sd = token_value(toks[0]);
            let sm = token_value(toks[1]);
            let sy = token_value(toks[2]);
            let sh = token_value(toks[3]);
            let smin = token_value(toks[4]);
            let ed = token_value(toks[5]);
            let em = token_value(toks[6]);
            let ey = token_value(toks[7]);
            let eh = token_value(toks[8]);
            let emin = token_value(toks[9]);
            if timestamp_fields_valid(sd, sm, sy, sh, smin) && timestamp_fields_valid(
                ed,
                em,
                ey,
                eh,
                emin,
            ) {
                Some(
                    DatetimeRange {
                        start: timestamp_of_fields(sd, sm, sy, sh, smin),
                        end: timestamp_of_fields(ed, em, ey, eh, emin),
                    },
                )
            } else {
                None
            }
        }
    }
}

/// What a stats line decodes to: `None` when the field count is not exactly
/// seven or a field is not a 64-bit integer. The field at index 0 is
/// reserved and discarded; the remaining six are the active seconds, the
/// two raw movement counts (normalized before storage), the movement
/// duration, the click count and the keystroke count.
pub open spec fn spec_convert_stats_line(l: Seq<char>) -> Option<InputStats> {
    if l.len() == 0 {
        None
    } else {
        let toks = split_spaces(trim_spec(l.drop_first()));
        if toks.len() != 7 {
            None
        } else if !(forall|i: int| 0 <= i < 7 ==> field_fits_u64(#[trigger] toks[i])) {
            None
        } else {
            Some(
                InputStats {
                    total_active_time_seconds: token_value(toks[1]) as u64,
                    total_mouse_movement: spec_normalize(token_value(toks[2])) as u64,
                    total_mouse_click_movement: spec_normalize(token_value(toks[3])) as u64,
                    total_mouse_movement_time: token_value(toks[4]) as u64,
                    total_mouse_clicks: token_value(toks[5]) as u64,
                    total_keystrokes: token_value(toks[6]) as u64,
                },
            )
        }
    }
}

/// Builds the timestamp one half of a date-range line describes, checking
/// validity of the resulting calendar date and time.
fn timestamp_from_fields(day: u32, month0: u32, yoff: u32, hour: u32, minute: u32) -> (r: Option<
    Timestamp,
>)
    ensures
        r is Some <==> timestamp_fields_valid(
            day as int,
            month0 as int,
            yoff as int,
            hour as int,
            minute as int,
        ),
        r is Some ==> r->0 == timestamp_of_fields(
            day as int,
            month0 as int,
            yoff as int,
            hour as int,
            minute as int,
        ),
        r is Some ==> timestamp_valid(r->0),
{
    if yoff > MAX_YEAR - 1900 || month0 > 11 || hour > 23 || minute > 59 {
        return None;
    }
    let year = 1900 + yoff;
    let month = month0 + 1;
    if day < 1 || day > days_in_month_exec(year, month) {
        return None;
    }
    Some(Timestamp { date: CalendarDate { year, month, day }, hour, minute })
}

impl WorkraveDay {
    /// Decodes a date-range line (still carrying its `D` prefix) into the
    /// session's start and end timestamps. Fails with `FieldParseError`
    /// exactly when the line does not decode: wrong field count, a
    /// non-numeric or oversized field, or an invalid date or time.
    pub fn convert_date_line(line: &str) -> (r: Result<DatetimeRange, LoadError>)
        ensures
            r == (match spec_convert_date_line(line@) {
                Some(d) => Ok::<DatetimeRange, LoadError>(d),
                None => Err::<DatetimeRange, LoadError>(LoadError::FieldParseError),
            }),
            r matches Ok(d) ==> timestamp_valid(d.start) && timestamp_valid(d.end),
    {
        let chars = line_chars(line);
        convert_date_chars(&chars)
    }

    /// Decodes a stats line (still carrying its `m` prefix) into normalized
    /// input statistics. Fails with `FieldParseError` exactly when the line
    /// does not decode: wrong field count or a non-numeric or oversized
    /// field.
    pub fn convert_stats_line(line: &str) -> (r: Result<InputStats, LoadError>)
        ensures
            r == (match spec_convert_stats_line(line@) {
                Some(s) => Ok::<InputStats, LoadError>(s),
                None => Err::<InputStats, LoadError>(LoadError::FieldParseError),
            }),
    {
        let chars = line_chars(line);
        convert_stats_chars(&chars)
    }

    /// Pairs a decoded date range with its decoded statistics.
    pub fn build_day(stats: InputStats, dates: DatetimeRange) -> (day: WorkraveDay)
        ensures
            day == (WorkraveDay { datetime_range: dates, stats }),
    {
        WorkraveDay { datetime_range: dates, stats }
    }
}

/// Decodes a date-range line given as characters; see `convert_date_line`.
pub(crate) fn convert_date_chars(chars: &Vec<char>) -> (r: Result<DatetimeRange, LoadError>)
    ensures
        r == (match spec_convert_date_line(chars@) {
            Some(d) => Ok::<DatetimeRange, LoadError>(d),
            None => Err::<DatetimeRange, LoadError>(LoadError::FieldParseError),
        }),
        r matches Ok(d) ==> timestamp_valid(d.start) && timestamp_valid(d.end),
{
    if chars.len() == 0 {
        return Err(LoadError::FieldParseError);
    }
    let rest = crate::text::copy_tail(chars);
    let t = trimmed_chars(&rest);
    let toks = split_tokens(&t);
    let ghost stoks = split_spaces(trim_spec(chars@.drop_first()));
    if toks.len() != 10 {
        return Err(LoadError::FieldParseError);
    }
    let mut fields: Vec<u32> = Vec::new();
    let mut i: usize = 0;
    while i < 10
        invariant
            i <= 10,
            chars@.len() >= 1,
            stoks == split_spaces(trim_spec(chars@.drop_first())),
            toks@.len() == 10,
            stoks.len() == 10,
            forall|j: int| 0 <= j < 10 ==> toks@[j]@ == stoks[j],
            fields@.len() == i,
            forall|j: int| 0 <= j < i ==> field_fits_u32(#[trigger] stoks[j]),
            forall|j: int| 0 <= j < i ==> fields@[j] == token_value(stoks[j]),
        decreases 10 - i,
    {
        match parse_u64_token(&toks[i]) {
            None => {
                return Err(LoadError::FieldParseError);
            },
            Some(v) => {
                if v > u32::MAX as u64 {
                    return Err(LoadError::FieldParseError);
                }
                fields.push(v as u32);
            },
        }
        i = i + 1;
    }
    let start = match timestamp_from_fields(fields[0], fields[1], fields[2], fields[3], fields[4]) {
        Some(ts) => ts,
        None => {
            return Err(LoadError::FieldParseError);
        },
    };
    let end = match timestamp_from_fields(fields[5], fields[6], fields[7], fields[8], fields[9]) {
        Some(ts) => ts,
        None => {
            return Err(LoadError::FieldParseError);
        },
    };
    Ok(DatetimeRange { start, end })
}


/// Decodes a stats line given as characters; see `convert_stats_line`.
pub(crate) fn convert_stats_chars(chars: &Vec<char>) -> (r: Result<InputStats, LoadError>)
    ensures
        r == (match spec_convert_stats_line(chars@) {
            Some(s) => Ok::<InputStats, LoadError>(s),
            None => Err::<InputStats, LoadError>(LoadError::FieldParseError),
        }),
{
    if chars.len() == 0 {
        return Err(LoadError::FieldParseError);
    }
    let rest = crate::text::copy_tail(chars);
    let t = trimmed_chars(&rest);
    let toks = split_tokens(&t);
    let ghost stoks = split_spaces(trim_spec(chars@.drop_first()));
    if toks.len() != 7 {
        return Err(LoadError::FieldParseError);
    }
    let mut fields: Vec<u64> = Vec::new();
    let mut i: usize = 0;
    while i < 7
        invariant
            i <= 7,
            chars@.len() >= 1,
            stoks == split_spaces(trim_spec(chars@.drop_first())),
            toks@.len() == 7,
            stoks.len() == 7,
            forall|j: int| 0 <= j < 7 ==> toks@[j]@ == stoks[j],
            fields@.len() == i,
            forall|j: int| 0 <= j < i ==> field_fits_u64(#[trigger] stoks[j]),
            forall|j: int| 0 <= j < i ==> fields@[j] == token_value(stoks[j]),
        decreases 7 - i,
    {
        match parse_u64_token(&toks[i]) {
            None => {
                proof {
                    assert(!field_fits_u64(stoks[i as int]));
                }
                return Err(LoadError::FieldParseError);
            },
            Some(v) => {
                fields.push(v);
            },
        }
        i = i + 1;
    }
    Ok(
        InputStats {
            total_active_time_seconds: fields[1],
            total_mouse_movement: normalize(fields[2]),
            total_mouse_click_movement: normalize(fields[3]),
            total_mouse_movement_time: fields[4],
            total_mouse_clicks: fields[5],
            total_keystrokes: fields[6],
        },
    )
}


/// The calendar date a day is keyed by: the date of its range's start.
pub open spec fn day_date(day: WorkraveDay) -> CalendarDate {
    day.datetime_range.start.date
}

/// Whether both of a day's timestamps are valid calendar dates and times;
/// every decoded day satisfies this.
pub open spec fn day_valid(day: WorkraveDay) -> bool {
    timestamp_valid(day.datetime_range.start) && timestamp_valid(day.datetime_range.end)
}

/// The day ordinal of a day's keying date.
pub open spec fn day_ord(day: WorkraveDay) -> int {
    date_ordinal(day_date(day))
}

/// The mapping a sequence of days builds when each is inserted in turn,
/// keyed by its start date: on duplicate dates the later day wins.
pub open spec fn store_map_of(days: Seq<WorkraveDay>) -> Map<CalendarDate, WorkraveDay>
    decreases days.len(),
{
    if days.len() == 0 {
        Map::empty()
    } else {
        store_map_of(days.drop_last()).insert(day_date(days.last()), days.last())
    }
}

/// Well-formedness of the store's backing sequence: every day is valid and
/// the days are strictly ordered by their keying date, so each calendar
/// date appears at most once.
pub open spec fn days_wf(days: Seq<WorkraveDay>) -> bool {
    &&& forall|i: int| 0 <= i < days.len() ==> day_valid(#[trigger] days[i])
    &&& forall|i: int, j: int|
        0 <= i < j < days.len() ==> day_ord(#[trigger] days[i]) < day_ord(#[trigger] days[j])
}

/// The domain of the built mapping is exactly the set of keying dates, so
/// the mapping holds one entry per distinct date: inserting `N` days yields
/// `N` entries less one per date that recurs.
pub proof fn lemma_store_map_domain(days: Seq<WorkraveDay>)
    ensures
        store_map_of(days).dom() =~= days.map_values(|d: WorkraveDay| day_date(d)).to_set(),
        store_map_of(days).dom().finite(),
        store_map_of(days).len() == days.map_values(|d: WorkraveDay| day_date(d)).to_set().len(),
    decreases days.len(),
{
    broadcast use vstd::set::group_set_axioms, vstd::map::group_map_axioms, vstd::seq::group_seq_axioms;

    let keys = days.map_values(|d: WorkraveDay| day_date(d));
    if days.len() == 0 {
        assert forall|k: CalendarDate| !keys.to_set().contains(k) by {
            if keys.contains(k) {
                let i = choose|i: int| 0 <= i < keys.len() && keys[i] == k;
            }
        }
    } else {
        lemma_store_map_domain(days.drop_last());
        let prev = days.drop_last().map_values(|d: WorkraveDay| day_date(d));
        assert forall|k: CalendarDate|
            store_map_of(days).dom().contains(k) implies keys.to_set().contains(k) by {
            if k == day_date(days.last()) {
                assert(keys[days.len() - 1] == k);
                assert(keys.contains(k));
            } else {
                let i = choose|i: int| 0 <= i < prev.len() && prev[i] == k;
                assert(keys[i] == k);
                assert(keys.contains(k));
            }
        }
        assert forall|k: CalendarDate|
            keys.to_set().contains(k) implies store_map_of(days).dom().contains(k) by {
            let i = choose|i: int| 0 <= i < keys.len() && keys[i] == k;
            if i < days.len() - 1 {
                assert(prev[i] == k);
                assert(prev.contains(k));
            }
        }
    }
    assert(store_map_of(days).dom() =~= keys.to_set());
    assert(store_map_of(days).dom() == keys.to_set());
}

/// Days whose date occurs no later in the sequence survive into the built
/// mapping unchanged: the mapping holds, for each date, the last day with
/// that date.
pub proof fn lemma_store_map_survivor(days: Seq<WorkraveDay>, i: int)
    requires
        0 <= i < days.len(),
        forall|j: int| i < j < days.len() ==> day_date(#[trigger] days[j]) != day_date(days[i]),
    ensures
        store_map_of(days).dom().contains(day_date(days[i])),
        store_map_of(days)[day_date(days[i])] == days[i],
    decreases days.len(),
{
    if i < days.len() - 1 {
        lemma_store_map_survivor(days.drop_last(), i);
    }
}

/// A sequence of days with pairwise distinct dates builds a mapping with
/// exactly one entry per day.
pub proof fn lemma_store_count_distinct(days: Seq<WorkraveDay>)
    requires
        forall|i: int, j: int|
            0 <= i < j < days.len() ==> day_date(#[trigger] days[i]) != day_date(
                #[trigger] days[j],
            ),
    ensures
        store_map_of(days).len() == days.len(),
{
    lemma_store_map_domain(days);
    let keys = days.map_values(|d: WorkraveDay| day_date(d));
    assert(keys.no_duplicates()) by {
        assert forall|i: int, j: int|
            0 <= i < keys.len() && 0 <= j < keys.len() && i != j implies keys[i] != keys[j] by {
            if i < j {
                assert(day_date(days[i]) != day_date(days[j]));
            } else {
                assert(day_date(days[j]) != day_date(days[i]));
            }
        }
    }
    keys.unique_seq_to_set();
}

/// For all valid date-range lines, decoding recovers the calendar fields
/// by the format's conventions: the start year is the third field plus
/// 1900, and the start month is the second, zero-based field plus one.
pub proof fn lemma_date_decode_fields(l: Seq<char>)
    requires
        spec_convert_date_line(l) is Some,
    ensures
        ({
            let toks = split_spaces(trim_spec(l.drop_first()));
            let d = spec_convert_date_line(l)->0;
            &&& d.start.date.year == token_value(toks[2]) + 1900
            &&& d.start.date.month == token_value(toks[1]) + 1
            &&& d.start.date.day == token_value(toks[0])
            &&& d.start.hour == token_value(toks[3])
            &&& d.start.minute == token_value(toks[4])
        }),
{
}

/// Under well-formedness the built mapping and the backing sequence are two
/// views of the same store: same size, and each day is found at its date.
pub proof fn lemma_store_map_seq(days: Seq<WorkraveDay>)
    requires
        days_wf(days),
    ensures
        store_map_of(days).dom().finite(),
        store_map_of(days).len() == days.len(),
        forall|i: int|
            0 <= i < days.len() ==> store_map_of(days).dom().contains(day_date(
                #[trigger] days[i],
            )),
        forall|i: int|
            0 <= i < days.len() ==> store_map_of(days)[day_date(#[trigger] days[i])] == days[i],
        forall|k: CalendarDate|
            #[trigger] store_map_of(days).dom().contains(k) ==> exists|i: int|
                0 <= i < days.len() && day_date(#[trigger] days[i]) == k,
    decreases days.len(),
{
    broadcast use vstd::set::group_set_axioms, vstd::map::group_map_axioms;

    if days.len() > 0 {
        let rest = days.drop_last();
        assert(days_wf(rest)) by {
            assert forall|i: int| 0 <= i < rest.len() implies day_valid(#[trigger] rest[i]) by {
                assert(rest[i] == days[i]);
            }
        }
        lemma_store_map_seq(rest);
        let last = days.last();
        let k = day_date(last);
        assert(!store_map_of(rest).dom().contains(k)) by {
            if store_map_of(rest).dom().contains(k) {
                let i = choose|i: int| 0 <= i < rest.len() && day_date(#[trigger] rest[i]) == k;
                assert(day_ord(days[i]) < day_ord(last));
            }
        }
        assert forall|i: int|
            0 <= i < days.len() implies store_map_of(days)[day_date(#[trigger] days[i])]
            == days[i] by {
            if i < days.len() - 1 {
                assert(rest[i] == days[i]);
                assert(day_ord(days[i]) < day_ord(last));
                assert(day_date(days[i]) != k);
            }
        }
        assert forall|i: int|
            0 <= i < days.len() implies store_map_of(days).dom().contains(day_date(
            #[trigger] days[i],
        )) by {
            if i < days.len() - 1 {
                assert(rest[i] == days[i]);
            }
        }
        assert forall|k2: CalendarDate|
            #[trigger] store_map_of(days).dom().contains(k2) implies exists|i: int|
            0 <= i < days.len() && day_date(#[trigger] days[i]) == k2 by {
            if k2 == k {
                assert(day_date(days[days.len() - 1]) == k2);
            } else {
                let i = choose|i: int| 0 <= i < rest.len() && day_date(#[trigger] rest[i]) == k2;
                assert(day_date(days[i]) == k2);
            }
        }
    }
}

/// Inserting a day at its sorted position keeps the sequence well formed
/// and inserts it into the built mapping.
proof fn lemma_store_seq_insert(days: Seq<WorkraveDay>, day: WorkraveDay, idx: int)
    requires
        days_wf(days),
        day_valid(day),
        0 <= idx <= days.len(),
        forall|j: int| 0 <= j < idx ==> day_ord(#[trigger] days[j]) < day_ord(day),
        forall|j: int| idx <= j < days.len() ==> day_ord(day) < day_ord(#[trigger] days[j]),
    ensures
        days_wf(days.insert(idx, day)),
        store_map_of(days.insert(idx, day)) == store_map_of(days).insert(day_date(day), day),
    decreases days.len(),
{
    broadcast use vstd::map::group_map_axioms, vstd::set::group_set_axioms;

    let s2 = days.insert(idx, day);
    assert(days_wf(s2)) by {
        assert forall|i: int| 0 <= i < s2.len() implies day_valid(#[trigger] s2[i]) by {
            if i < idx {
                assert(s2[i] == days[i]);
            } else if i == idx {
                assert(s2[i] == day);
            } else {
                assert(s2[i] == days[i - 1]);
            }
        }
        assert forall|i: int, j: int|
            0 <= i < j < s2.len() implies day_ord(#[trigger] s2[i]) < day_ord(
            #[trigger] s2[j],
        ) by {
            if i < idx {
                assert(s2[i] == days[i]);
            } else if i == idx {
                assert(s2[i] == day);
            } else {
                assert(s2[i] == days[i - 1]);
            }
            if j < idx {
                assert(s2[j] == days[j]);
            } else if j == idx {
                assert(s2[j] == day);
            } else {
                assert(s2[j] == days[j - 1]);
            }
        }
    }
    if idx == days.len() {
        assert(s2.drop_last() =~= days);
        assert(s2.last() == day);
    } else {
        let last = days.last();
        assert(s2.last() == last);
        assert(s2.drop_last() =~= days.drop_last().insert(idx, day));
        assert(days_wf(days.drop_last())) by {
            assert forall|i: int|
                0 <= i < days.drop_last().len() implies day_valid(
                #[trigger] days.drop_last()[i],
            ) by {
                assert(days.drop_last()[i] == days[i]);
            }
        }
        lemma_store_seq_insert(days.drop_last(), day, idx);
        let ml = store_map_of(days.drop_last());
        assert(day_ord(day) < day_ord(last));
        assert(day_date(day) != day_date(last));
        assert(ml.insert(day_date(day), day).insert(day_date(last), last) =~= ml.insert(
            day_date(last),
            last,
        ).insert(day_date(day), day));
    }
}

/// Replacing the one day that holds a date keeps the sequence well formed
/// and inserts the replacement into the built mapping.
proof fn lemma_store_seq_update(days: Seq<WorkraveDay>, day: WorkraveDay, idx: int)
    requires
        days_wf(days),
        day_valid(day),
        0 <= idx < days.len(),
        day_date(days[idx]) == day_date(day),
    ensures
        days_wf(days.update(idx, day)),
        store_map_of(days.update(idx, day)) == store_map_of(days).insert(day_date(day), day),
    decreases days.len(),
{
    broadcast use vstd::map::group_map_axioms, vstd::set::group_set_axioms;

    let s2 = days.update(idx, day);
    assert(day_ord(days[idx]) == day_ord(day));
    assert(days_wf(s2)) by {
        assert forall|i: int| 0 <= i < s2.len() implies day_valid(#[trigger] s2[i]) by {
            if i != idx {
                assert(s2[i] == days[i]);
            }
        }
        assert forall|i: int, j: int|
            0 <= i < j < s2.len() implies day_ord(#[trigger] s2[i]) < day_ord(
            #[trigger] s2[j],
        ) by {
            if i != idx {
                assert(s2[i] == days[i]);
            }
            if j != idx {
                assert(s2[j] == days[j]);
            }
        }
    }
    let k = day_date(day);
    if idx == days.len() - 1 {
        assert(s2.drop_last() =~= days.drop_last());
        assert(s2.last() == day);
        let ml = store_map_of(days.drop_last());
        assert(ml.insert(day_date(days[idx]), days[idx]).insert(k, day) =~= ml.insert(k, day));
    } else {
        let last = days.last();
        assert(s2.last() == last);
        assert(s2.drop_last() =~= days.drop_last().update(idx, day));
        assert(days_wf(days.drop_last())) by {
            assert forall|i: int|
                0 <= i < days.drop_last().len() implies day_valid(
                #[trigger] days.drop_last()[i],
            ) by {
                assert(days.drop_last()[i] == days[i]);
            }
        }
        assert(days.drop_last()[idx] == days[idx]);
        lemma_store_seq_update(days.drop_last(), day, idx);
        let ml = store_map_of(days.drop_last());
        assert(day_ord(day) < day_ord(last));
        assert(k != day_date(last));
        assert(ml.insert(k, day).insert(day_date(last), last) =~= ml.insert(
            day_date(last),
            last,
        ).insert(k, day));
    }
}

/// Whether one raw line of the file decodes. Lines that carry no data
/// (break markers, the header, unrecognized lines) are always acceptable;
/// date-range and stats lines must decode.
pub open spec fn line_ok(l: Seq<char>) -> bool {
    match classify_line(trim_spec(l)) {
        LineKind::DateRangeLine => spec_convert_date_line(trim_spec(l)) is Some,
        LineKind::StatsLine => spec_convert_stats_line(trim_spec(l)) is Some,
        _ => true,
    }
}

/// Whether every line of the file decodes; when this fails, a load fails
/// with `FieldParseError`.
pub open spec fn all_lines_ok(lines: Seq<Seq<char>>) -> bool {
    forall|i: int| 0 <= i < lines.len() ==> line_ok(#[trigger] lines[i])
}

/// The date ranges of a file's date-range lines, in file order.
pub open spec fn decoded_dates(lines: Seq<Seq<char>>) -> Seq<DatetimeRange>
    decreases lines.len(),
{
    if lines.len() == 0 {
        Seq::empty()
    } else {
        let rest = decoded_dates(lines.drop_last());
        let t = trim_spec(lines.last());
        if classify_line(t) is DateRangeLine {
            rest.push(spec_convert_date_line(t)->0)
        } else {
            rest
        }
    }
}

/// The statistics of a file's stats lines, in file order.
pub open spec fn decoded_stats(lines: Seq<Seq<char>>) -> Seq<InputStats>
    decreases lines.len(),
{
    if lines.len() == 0 {
        Seq::empty()
    } else {
        let rest = decoded_stats(lines.drop_last());
        let t = trim_spec(lines.last());
        if classify_line(t) is StatsLine {
            rest.push(spec_convert_stats_line(t)->0)
        } else {
            rest
        }
    }
}

/// The days a file describes: the i-th date range paired with the i-th
/// stats record, however the two kinds of line are interleaved. Meaningful
/// when the two streams have equal length; a load enforces that.
pub open spec fn paired_days(lines: Seq<Seq<char>>) -> Seq<WorkraveDay> {
    Seq::new(
        decoded_dates(lines).len(),
        |i: int|
            WorkraveDay {
                datetime_range: decoded_dates(lines)[i],
                stats: decoded_stats(lines)[i],
            },
    )
}

/// Round trip of a structurally sound file: pairing yields one day per
/// date-range/stats pair, loading stores one entry per distinct start date
/// (exactly one entry per pair unless a date recurs, each recurrence
/// costing one entry), and a pair whose date never recurs later in the
/// file is stored verbatim — so on a shared date the last pair wins.
pub proof fn lemma_load_round_trip(lines: Seq<Seq<char>>, i: int)
    requires
        decoded_dates(lines).len() == decoded_stats(lines).len(),
        0 <= i < paired_days(lines).len(),
        forall|j: int|
            i < j < paired_days(lines).len() ==> day_date(#[trigger] paired_days(lines)[j])
                != day_date(paired_days(lines)[i]),
    ensures
        paired_days(lines).len() == decoded_dates(lines).len(),
        store_map_of(paired_days(lines)).len() == paired_days(lines).map_values(
            |d: WorkraveDay| day_date(d),
        ).to_set().len(),
        (forall|p: int, q: int|
            0 <= p < q < paired_days(lines).len() ==> day_date(#[trigger] paired_days(lines)[p])
                != day_date(#[trigger] paired_days(lines)[q])) ==> store_map_of(
            paired_days(lines),
        ).len() == decoded_dates(lines).len(),
        store_map_of(paired_days(lines))[day_date(paired_days(lines)[i])] == paired_days(lines)[i],
        store_map_of(paired_days(lines)).dom().contains(day_date(paired_days(lines)[i])),
{
    let days = paired_days(lines);
    lemma_store_map_domain(days);
    if forall|p: int, q: int|
        0 <= p < q < days.len() ==> day_date(#[trigger] days[p]) != day_date(#[trigger] days[q]) {
        lemma_store_count_distinct(days);
    }
    lemma_store_map_survivor(days, i);
}

/// The character sequences of a file's lines.
pub open spec fn line_views(lines: Seq<String>) -> Seq<Seq<char>> {
    lines.map_values(|s: String| s@)
}

/// Whether a file's first line is exactly the recognized header.
pub open spec fn spec_header_ok(lines: Seq<String>) -> bool {
    lines.len() > 0 && lines[0]@ == "WorkRaveStats 4"@
}

/// The in-memory history: a mapping from calendar date to exactly one day,
/// viewed abstractly as a `Map` keyed by the date of each day's start
/// timestamp. The backing vector keeps the days in ascending date order.
#[derive(Debug)]
pub struct WorkraveHistory {
    days: Vec<WorkraveDay>,
}

impl View for WorkraveHistory {
    type V = Map<CalendarDate, WorkraveDay>;

    closed spec fn view(&self) -> Map<CalendarDate, WorkraveDay> {
        store_map_of(self.days@)
    }
}

impl WorkraveHistory {
    #[verifier::type_invariant]
    spec fn wf(self) -> bool {
        days_wf(self.days@)
    }

    /// The stored days, in ascending order of their keying date.
    pub closed spec fn day_seq(&self) -> Seq<WorkraveDay> {
        self.days@
    }

    /// The stored days, in ascending date order. The sequence is well
    /// formed, and the abstract mapping is exactly the one it builds, so
    /// `lemma_store_map_seq` relates the two views.
    pub fn all_days(&self) -> (v: &Vec<WorkraveDay>)
        ensures
            v@ == self.day_seq(),
            days_wf(self.day_seq()),
            self@ == store_map_of(self.day_seq()),
    {
        proof {
            use_type_invariant(&*self);
        }
        &self.days
    }

    /// An empty history.
    pub fn new() -> (h: WorkraveHistory)
        ensures
            h@ == Map::<CalendarDate, WorkraveDay>::empty(),
            h.day_seq() == Seq::<WorkraveDay>::empty(),
    {
        let h = WorkraveHistory { days: Vec::new() };
        proof {
            assert(h.days@ =~= Seq::<WorkraveDay>::empty());
        }
        h
    }

    /// Number of stored days.
    pub fn day_count(&self) -> (n: usize)
        ensures
            n == self@.len(),
            n == self.day_seq().len(),
    {
        proof {
            use_type_invariant(&*self);
            lemma_store_map_seq(self.days@);
        }
        self.days.len()
    }

    /// Inserts a day at its date, replacing any day already stored there.
    fn insert_day(&mut self, day: WorkraveDay)
        requires
            day_valid(day),
        ensures
            final(self)@ == old(self)@.insert(day_date(day), day),
    {
        proof {
            use_type_invariant(&*self);
        }
        let mut days: Vec<WorkraveDay> = Vec::new();
        core::mem::swap(&mut days, &mut self.days);
        let ghost olds = days@;
        let key = days_from_ce(&day.datetime_range.start.date);
        let mut idx: usize = 0;
        loop
            invariant
                days@ == olds,
                days_wf(days@),
                day_valid(day),
                key == date_ordinal(day_date(day)),
                idx <= days@.len(),
                forall|j: int| 0 <= j < idx ==> day_ord(#[trigger] days@[j]) < day_ord(day),
            ensures
                idx <= days@.len(),
                idx < days@.len() ==> day_ord(days@[idx as int]) >= day_ord(day),
            decreases days@.len() - idx,
        {
            if idx == days.len() {
                break;
            }
            let o = days_from_ce(&days[idx].datetime_range.start.date);
            if o >= key {
                break;
            }
            idx = idx + 1;
        }
        let replace: bool = if idx < days.len() {
            days_from_ce(&days[idx].datetime_range.start.date) == key
        } else {
            false
        };
        if replace {
            proof {
                lemma_date_ordinal_injective(day_date(days@[idx as int]), day_date(day));
                lemma_store_seq_update(days@, day, idx as int);
            }
            days.set(idx, day);
        } else {
            proof {
                assert forall|j: int|
                    idx <= j < days@.len() implies day_ord(day) < day_ord(
                    #[trigger] days@[j],
                ) by {
                    assert(day_ord(days@[idx as int]) <= day_ord(days@[j]));
                }
                lemma_store_seq_insert(days@, day, idx as int);
            }
            days.insert(idx, day);
        }
        self.days = days;
    }

    /// Whether a file's first line is exactly the header `WorkRaveStats 4`,
    /// the sole format-version gate. Any other first line, including another
    /// version number, makes the file invalid.
    pub fn is_file_valid(first_line: &str) -> (r: bool)
        ensures
            r == (first_line@ == "WorkRaveStats 4"@),
    {
        crate::text::str_eq(first_line, "WorkRaveStats 4")
    }

    /// Parses a whole file (its lines, in order) into a history keyed by
    /// each day's start date, later lines winning on a shared date.
    ///
    /// Fails with `FieldParseError` exactly when some date-range or stats
    /// line does not decode, and otherwise with `StructuralError` exactly
    /// when the file holds different numbers of date-range and stats lines.
    /// The header is not checked here; see `load_historystats`.
    pub fn load_historystats_file(lines: &Vec<String>) -> (r: Result<WorkraveHistory, LoadError>)
        ensures
            !all_lines_ok(line_views(lines@)) ==> r == Err::<WorkraveHistory, LoadError>(
                LoadError::FieldParseError,
            ),
            all_lines_ok(line_views(lines@)) && decoded_dates(line_views(lines@)).len()
                != decoded_stats(line_views(lines@)).len() ==> r == Err::<
                WorkraveHistory,
                LoadError,
            >(LoadError::StructuralError),
            all_lines_ok(line_views(lines@)) && decoded_dates(line_views(lines@)).len()
                == decoded_stats(line_views(lines@)).len() ==> r is Ok,
            r matches Ok(h) ==> h@ == store_map_of(paired_days(line_views(lines@))),
    {
        let ghost ls = line_views(lines@);
        let n = lines.len();
        let mut dates: Vec<DatetimeRange> = Vec::new();
        let mut stats: Vec<InputStats> = Vec::new();
        let mut i: usize = 0;
        proof {
            assert(ls.take(0) =~= Seq::<Seq<char>>::empty());
        }
        while i < n
            invariant
                ls == line_views(lines@),
                n == lines@.len(),
                ls.len() == n,
                i <= n,
                forall|j: int| 0 <= j < i ==> line_ok(#[trigger] ls[j]),
                dates@ == decoded_dates(ls.take(i as int)),
                stats@ == decoded_stats(ls.take(i as int)),
                forall|j: int|
                    0 <= j < dates@.len() ==> timestamp_valid((#[trigger] dates@[j]).start)
                        && timestamp_valid(dates@[j].end),
            decreases n - i,
        {
            let chars = line_chars(lines[i].as_str());
            proof {
                assert(ls[i as int] == lines@[i as int]@);
                assert(ls.take(i + 1).drop_last() =~= ls.take(i as int));
                assert(ls.take(i + 1).last() == ls[i as int]);
            }
            let t = trimmed_chars(&chars);
            match classify_line_exec(&t) {
                LineKind::DateRangeLine => {
                    match convert_date_chars(&t) {
                        Ok(d) => {
                            dates.push(d);
                        },
                        Err(e) => {
                            return Err(e);
                        },
                    }
                },
                LineKind::StatsLine => {
                    match convert_stats_chars(&t) {
                        Ok(s) => {
                            stats.push(s);
                        },
                        Err(e) => {
                            return Err(e);
                        },
                    }
                },
                LineKind::BreakLine => {},
                LineKind::UnrecognizedLine => {},
            }
            i = i + 1;
        }
        proof {
            assert(ls.take(n as int) =~= ls);
        }
        if dates.len() != stats.len() {
            return Err(LoadError::StructuralError);
        }
        let ghost days = paired_days(ls);
        let m = dates.len();
        let mut hist = WorkraveHistory::new();
        let mut k: usize = 0;
        proof {
            assert(days.take(0) =~= Seq::<WorkraveDay>::empty());
            assert(store_map_of(Seq::<WorkraveDay>::empty()) == Map::<
                CalendarDate,
                WorkraveDay,
            >::empty());
        }
        while k < m
            invariant
                days == paired_days(ls),
                m == dates@.len(),
                stats@.len() == m,
                days.len() == m,
                k <= m,
                forall|j: int|
                    0 <= j < m ==> #[trigger] days[j] == (WorkraveDay {
                        datetime_range: dates@[j],
                        stats: stats@[j],
                    }),
                forall|j: int|
                    0 <= j < dates@.len() ==> timestamp_valid((#[trigger] dates@[j]).start)
                        && timestamp_valid(dates@[j].end),
                hist@ == store_map_of(days.take(k as int)),
            decreases m - k,
        {
            let day = WorkraveDay::build_day(stats[k], dates[k]);
            proof {
                assert(day_valid(day));
                assert(days.take(k + 1).drop_last() =~= days.take(k as int));
                assert(days.take(k + 1).last() == days[k as int]);
            }
            hist.insert_day(day);
            k = k + 1;
        }
        proof {
            assert(days.take(m as int) =~= days);
        }
        Ok(hist)
    }

    /// Loads a file that has already been read into lines: yields
    /// `Ok(None)` ("no data", a soft negative) when the file is empty or
    /// its first line is not the recognized header, and otherwise parses
    /// the whole file as `load_historystats_file` does, never touching a
    /// field of any line when the header does not match.
    pub fn load_historystats(lines: &Vec<String>) -> (r: Result<
        Option<WorkraveHistory>,
        LoadError,
    >)
        ensures
            !spec_header_ok(lines@) ==> r == Ok::<Option<WorkraveHistory>, LoadError>(None),
            spec_header_ok(lines@) && !all_lines_ok(line_views(lines@)) ==> r == Err::<
                Option<WorkraveHistory>,
                LoadError,
            >(LoadError::FieldParseError),
            spec_header_ok(lines@) && all_lines_ok(line_views(lines@)) && decoded_dates(
                line_views(lines@),
            ).len() != decoded_stats(line_views(lines@)).len() ==> r == Err::<
                Option<WorkraveHistory>,
                LoadError,
            >(LoadError::StructuralError),
            spec_header_ok(lines@) && all_lines_ok(line_views(lines@)) && decoded_dates(
                line_views(lines@),
            ).len() == decoded_stats(line_views(lines@)).len() ==> (r matches Ok(Some(h))
                && h@ == store_map_of(paired_days(line_views(lines@)))),
    {
        if lines.len() == 0 {
            return Ok(None);
        }
        if !WorkraveHistory::is_file_valid(lines[0].as_str()) {
            return Ok(None);
        }
        match WorkraveHistory::load_historystats_file(lines) {
            Ok(h) => Ok(Some(h)),
            Err(e) => Err(e),
        }
    }

    /// Folds every entry of `other` into this history: on a shared calendar
    /// date the incoming day replaces the stored one, so the result is the
    /// union of the two mappings with `other` winning every conflict.
    pub fn add_todaystats(&mut self, other: WorkraveHistory)
        ensures
            final(self)@ == old(self)@.union_prefer_right(other@),
    {
        proof {
            use_type_invariant(&other);
        }
        let ghost odays = other.days@;
        let n = other.days.len();
        let mut k: usize = 0;
        proof {
            assert(odays.take(0) =~= Seq::<WorkraveDay>::empty());
            assert(old(self)@.union_prefer_right(store_map_of(Seq::<WorkraveDay>::empty())) =~= old(
                self,
            )@);
        }
        while k < n
            invariant
                odays == other.days@,
                days_wf(odays),
                n == odays.len(),
                k <= n,
                self@ == old(self)@.union_prefer_right(store_map_of(odays.take(k as int))),
            decreases n - k,
        {
            let day = other.days[k];
            proof {
                assert(day_valid(day));
                assert(odays.take(k + 1).drop_last() =~= odays.take(k as int));
                assert(odays.take(k + 1).last() == odays[k as int]);
            }
            self.insert_day(day);
            proof {
                assert(old(self)@.union_prefer_right(
                    store_map_of(odays.take(k as int)).insert(day_date(day), day),
                ) =~= old(self)@.union_prefer_right(store_map_of(odays.take(k as int))).insert(
                    day_date(day),
                    day,
                ));
            }
            k = k + 1;
        }
        proof {
            assert(odays.take(n as int) =~= odays);
        }
    }

    /// The day stored at a calendar date, if any.
    pub fn get_day(&self, date: &CalendarDate) -> (r: Option<WorkraveDay>)
        ensures
            r == (if self@.dom().contains(*date) {
                Some(self@[*date])
            } else {
                None::<WorkraveDay>
            }),
    {
        proof {
            use_type_invariant(&*self);
        }
        let n = self.days.len();
        let mut i: usize = 0;
        while i < n
            invariant
                days_wf(self.days@),
                n == self.days@.len(),
                i <= n,
                forall|j: int| 0 <= j < i ==> day_date(#[trigger] self.days@[j]) != *date,
            decreases n - i,
        {
            let d = self.days[i];
            if d.datetime_range.start.date == *date {
                proof {
                    lemma_store_map_seq(self.days@);
                }
                return Some(d);
            }
            i = i + 1;
        }
        proof {
            lemma_store_map_seq(self.days@);
            if self@.dom().contains(*date) {
                let j = choose|j: int|
                    0 <= j < self.days@.len() && day_date(#[trigger] self.days@[j]) == *date;
            }
        }
        None
    }
}

} // verus!
